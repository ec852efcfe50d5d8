use helix_lib::table::{
    cell_truncation_width, fit_from_end, truncate_line_start, truncate_text_start, StyledSpan,
};

fn span(s: &str, style: u8) -> StyledSpan<u8> {
    StyledSpan { content: s.to_string(), style }
}

fn texts(spans: &[StyledSpan<u8>]) -> Vec<(String, u8)> {
    spans.iter().map(|s| (s.content.clone(), s.style)).collect()
}

#[test]
fn renders_with_ratatui_and_preserves_start_truncation() {
    use_ratatui_table();
}

fn use_ratatui_table() {
    let truncated = truncate_line_start(vec![span("abcdef", 0)], 5, 0);
    let line = ratatui::text::Line::from(
        truncated.into_iter().map(|s| ratatui::text::Span::raw(s.content)).collect::<Vec<_>>(),
    );
    let mut buffer = ratatui::buffer::Buffer::empty(ratatui::layout::Rect::new(0, 0, 5, 1));
    let mut state = ratatui::widgets::TableState::default();
    let table = ratatui::widgets::Table::new(
        [ratatui::widgets::Row::new([ratatui::widgets::Cell::new(line)])],
        [ratatui::layout::Constraint::Length(5)],
    );
    ratatui::widgets::StatefulWidget::render(table, buffer.area, &mut buffer, &mut state);
    let rendered: String = buffer.content.iter().map(|cell| cell.symbol()).collect();
    assert_eq!(rendered, "…cdef");
}

#[test]
fn lines_that_fit_stay() {
    let line = vec![span("ab", 1), span("cd", 2)];
    assert_eq!(texts(&truncate_line_start(line, 4, 9)), vec![("ab".into(), 1), ("cd".into(), 2)]);
    let line = vec![span("abcdef", 1)];
    assert_eq!(texts(&truncate_line_start(line, 0, 9)), vec![("abcdef".into(), 1)]);
}

#[test]
fn truncation_keeps_the_end_across_spans() {
    let line = vec![span("abc", 1), span("de", 2), span("fg", 3)];
    assert_eq!(
        texts(&truncate_line_start(line, 4, 9)),
        vec![("…".into(), 9), ("e".into(), 2), ("fg".into(), 3)]
    );
    let line = vec![span("abc", 1), span("de", 2)];
    assert_eq!(texts(&truncate_line_start(line, 1, 9)), vec![("…".into(), 9)]);
}

#[test]
fn wide_graphemes_are_not_split() {
    // "日本" has width 4; two columns remain for the tail after the ellipsis.
    let line = vec![span("ab日本", 1)];
    assert_eq!(texts(&truncate_line_start(line, 3, 9)), vec![("…".into(), 9), ("本".into(), 1)]);
    let line = vec![span("x", 1), span("日", 2)];
    assert_eq!(texts(&truncate_line_start(line, 2, 9)), vec![("…".into(), 9), ("x".into(), 1)]);
}

#[test]
fn every_line_of_a_text_is_truncated() {
    let mut lines = vec![vec![span("abcdef", 1)], vec![span("ab", 1)]];
    truncate_text_start(&mut lines, 3, 0);
    assert_eq!(texts(&lines[0]), vec![("…".into(), 0), ("ef".into(), 1)]);
    assert_eq!(texts(&lines[1]), vec![("ab".into(), 1)]);
}

#[test]
fn only_fixed_length_columns_truncate() {
    let widths = [Some(5u16), None];
    assert_eq!(cell_truncation_width(&widths, 0, true), Some(5));
    assert_eq!(cell_truncation_width(&widths, 1, true), None);
    assert_eq!(cell_truncation_width(&widths, 2, true), None);
    assert_eq!(cell_truncation_width(&widths, 0, false), None);
}

#[test]
fn clusters_are_taken_from_the_end_while_they_fit() {
    let widths = vec![1, 2, 1, 1];
    assert_eq!(fit_from_end(&widths, 2), (2, 2));
    assert_eq!(fit_from_end(&widths, 3), (2, 2));
    assert_eq!(fit_from_end(&widths, 4), (3, 4));
    assert_eq!(fit_from_end(&widths, 10), (4, 5));
    assert_eq!(fit_from_end(&widths, 0), (0, 0));
    assert_eq!(fit_from_end(&vec![2, 0], 1), (1, 0));
    assert_eq!(fit_from_end(&vec![], 3), (0, 0));
}
