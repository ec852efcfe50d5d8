use helix_lib::multibuffer::{MultiBufferHeaders, Position};

#[test]
fn anchors_are_sorted_deduplicated_and_clamped() {
    let mut h = MultiBufferHeaders::new(&[30, 5, 30, 100, 0], 50);
    assert_eq!(h.reset_pos(0), 0);
    assert_eq!(h.process_anchor(), 5);
    assert_eq!(h.process_anchor(), 30);
    assert_eq!(h.process_anchor(), 50);
    assert_eq!(h.process_anchor(), usize::MAX);
}

#[test]
fn reset_pos_finds_the_next_anchor() {
    let mut h = MultiBufferHeaders::new(&[10, 20, 30], 100);
    assert_eq!(h.reset_pos(15), 20);
    assert_eq!(
        h.insert_virtual_lines_before(20, Position::default(), 0),
        Position { row: 1, col: 0 }
    );
    assert_eq!(
        h.insert_virtual_lines_before(21, Position::default(), 0),
        Position { row: 0, col: 0 }
    );
    assert_eq!(h.reset_pos(31), usize::MAX);
    assert_eq!(
        h.insert_virtual_lines_before(31, Position::default(), 0),
        Position { row: 0, col: 0 }
    );
    assert_eq!(h.reset_pos(10), 10);
    assert_eq!(h.insert_virtual_lines(10, Position::default(), 0), Position { row: 0, col: 0 });
}

#[test]
fn no_excerpts_no_headers() {
    let mut h = MultiBufferHeaders::new(&[], 10);
    assert_eq!(h.reset_pos(0), usize::MAX);
}
