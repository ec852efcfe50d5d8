use helix_lib::compositor::{
    bubble_step, record_macro_key, topmost_cursor, Compositor, EventBubble, EventResult, LayerCache, PICKER_ID,
};
use helix_lib::graphics::{CursorKind, Rect};
use ratatui::buffer::Buffer as Surface;

fn ratatui_rect(r: Rect) -> ratatui::layout::Rect {
    ratatui::layout::Rect::new(r.x, r.y, r.width, r.height)
}

fn cell_symbol(surface: &Surface, x: u16, y: u16) -> &str {
    surface[(x, y)].symbol()
}

#[test]
fn layer_cache_replays_cached_region() {
    let area = Rect::new(0, 0, 3, 1);
    let mut after = Surface::empty(ratatui_rect(area));
    after[(0, 0)].set_symbol("a");
    after[(1, 0)].set_symbol("x");
    after[(2, 0)].set_symbol("c");

    let mut cache = LayerCache::new();
    cache.capture(area, Rect::new(1, 0, 2, 1), area, &after.content);

    let mut next_frame = Surface::empty(ratatui_rect(area));
    next_frame[(0, 0)].set_symbol("1");
    next_frame[(1, 0)].set_symbol("2");
    next_frame[(2, 0)].set_symbol("3");

    cache.replay(&mut next_frame.content);

    assert_eq!(cell_symbol(&next_frame, 0, 0), "1");
    assert_eq!(cell_symbol(&next_frame, 1, 0), "x");
    assert_eq!(cell_symbol(&next_frame, 2, 0), "c");
    assert_eq!(cache.region(), Some(Rect::new(1, 0, 2, 1)));
}

#[test]
fn layer_cache_invalidate_clears_cached_region() {
    let area = Rect::new(0, 0, 1, 1);
    let mut after = Surface::empty(ratatui_rect(area));
    after[(0, 0)].set_symbol("x");

    let mut cache = LayerCache::new();
    cache.capture(area, area, area, &after.content);
    assert!(cache.is_valid_for(area, Some(area)));

    cache.invalidate();

    assert!(!cache.is_valid_for(area, Some(area)));
    assert_eq!(cache.region(), None);
    assert_eq!(cache.cell_count(), 0);
}

#[test]
fn capture_reads_a_region_inside_a_larger_surface() {
    let area = Rect::new(2, 1, 4, 3);
    let mut surface = Surface::empty(ratatui_rect(area));
    surface[(4, 2)].set_symbol("q");
    surface[(5, 3)].set_symbol("z");
    let mut cache = LayerCache::new();
    cache.capture(area, Rect::new(4, 2, 2, 2), area, &surface.content);
    assert_eq!(cache.cell_count(), 4);
    let mut blank = Surface::empty(ratatui_rect(area));
    cache.replay(&mut blank.content);
    assert_eq!(cell_symbol(&blank, 4, 2), "q");
    assert_eq!(cell_symbol(&blank, 5, 3), "z");
    assert_eq!(cell_symbol(&blank, 2, 1), " ");
}

#[test]
fn layer_stack_operations() {
    let mut c: Compositor<&'static str, u8> = Compositor::new(Rect::new(0, 0, 10, 5));
    c.push("editor", None, "EditorView");
    c.push("popup", Some("hover"), "Popup");
    c.push("prompt", Some("prompt"), "Prompt");
    assert_eq!(c.layer_count(), 3);
    assert!(c.has_component("Popup"));
    assert!(!c.has_component("Picker"));
    assert_eq!(c.position_of_id("hover"), Some(1));
    assert_eq!(c.remove("hover"), Some("popup"));
    assert_eq!(c.remove("hover"), None);
    c.replace_or_push("prompt", "prompt2", Some("prompt"), "Prompt");
    assert_eq!(c.layer_count(), 2);
    assert_eq!(*c.layer(1), "prompt2");
    c.replace_or_push("other", "x", Some("other"), "Other");
    assert_eq!(c.layer_count(), 3);
    c.push("p2", None, "Prompt");
    c.remove_type("Prompt");
    assert_eq!(c.layer_count(), 2);
    assert_eq!(*c.layer(0), "editor");
    assert_eq!(*c.layer(1), "x");
    assert_eq!(c.pop(), Some("x"));
    assert_eq!(c.pop(), Some("editor"));
    assert_eq!(c.pop(), None);
}

#[test]
fn pushing_the_picker_drops_the_kept_one() {
    let mut c: Compositor<&'static str, u8> = Compositor::new(Rect::new(0, 0, 10, 5));
    c.replace_last_picker(Some("old picker"));
    c.push("popup", Some("hover"), "Popup");
    assert_eq!(c.replace_last_picker(None), Some("old picker"));
    c.replace_last_picker(Some("old picker"));
    c.push("picker", Some(PICKER_ID), "Picker");
    assert_eq!(c.replace_last_picker(None), None);
}

#[test]
fn render_uses_the_cache_only_when_valid() {
    let area = Rect::new(0, 0, 2, 1);
    let mut c: Compositor<&'static str, char> = Compositor::new(area);
    c.push("layer", None, "Layer");
    let mut content = vec!['a', 'b'];
    c.begin_render(area);
    assert!(c.render_from_cache(0, area, false, Some(area), &mut content));
    content = vec!['x', 'y'];
    c.capture_layer(0, area, area, area, &content);
    let mut next = vec![' ', ' '];
    assert!(!c.render_from_cache(0, area, false, Some(area), &mut next));
    assert_eq!(next, vec!['x', 'y']);
    let mut next = vec![' ', ' '];
    assert!(c.render_from_cache(0, area, true, Some(area), &mut next));
    assert_eq!(next, vec![' ', ' ']);
    c.need_full_redraw();
    assert!(c.full_redraw());
    assert!(c.render_from_cache(0, area, false, Some(area), &mut next));
}

#[test]
fn bubbling_stops_at_the_consuming_layer() {
    let mut callbacks = Vec::new();
    assert!(!bubble_step(EventResult::Ignored(Some(1)), &mut callbacks));
    assert!(!bubble_step(EventResult::Ignored(None), &mut callbacks));
    assert!(bubble_step(EventResult::Consumed(Some(2)), &mut callbacks));
    assert!(bubble_step(EventResult::<i32>::Consumed(None), &mut callbacks));
    assert_eq!(callbacks, vec![1, 2]);
}

#[test]
fn events_bubble_from_the_front_until_consumed() {
    // Three layers: the front one ignores with a callback, the middle one consumes.
    let answers = [EventResult::Consumed(None), EventResult::Consumed(Some("middle")), EventResult::Ignored(Some("front"))];
    let mut bubble = EventBubble::new(3);
    let mut asked = Vec::new();
    while let Some(i) = bubble.next_layer() {
        asked.push(i);
        let answer = match &answers[i] {
            EventResult::Consumed(cb) => EventResult::Consumed(*cb),
            EventResult::Ignored(cb) => EventResult::Ignored(*cb),
        };
        bubble.record(answer);
    }
    assert_eq!(asked, vec![2, 1]);
    assert_eq!(bubble.finish(), (true, vec!["front", "middle"]));

    let mut bubble = EventBubble::<&str>::new(2);
    while let Some(_) = bubble.next_layer() {
        bubble.record(EventResult::Ignored(None));
    }
    assert_eq!(bubble.finish(), (false, vec![]));
    assert_eq!(EventBubble::<&str>::new(0).next_layer(), None);
}

#[test]
fn cursor_comes_from_the_frontmost_layer_that_shows_one() {
    let answers = vec![
        (Some((1, 1)), CursorKind::Block),
        (Some((2, 2)), CursorKind::Bar),
        (None, CursorKind::Underline),
    ];
    assert_eq!(topmost_cursor(answers), (Some((2, 2)), CursorKind::Bar));
    let answers: Vec<(Option<(u16, u16)>, CursorKind)> =
        vec![(None, CursorKind::Block), (None, CursorKind::Bar)];
    assert_eq!(topmost_cursor(answers), (None, CursorKind::Hidden));
}

#[test]
fn key_events_are_recorded_only_while_recording_and_not_replaying() {
    let mut recording = Some(('q', vec!['a']));
    record_macro_key(&mut recording, false, Some('b'));
    assert_eq!(recording, Some(('q', vec!['a', 'b'])));
    record_macro_key(&mut recording, true, Some('c'));
    assert_eq!(recording, Some(('q', vec!['a', 'b'])));
    record_macro_key(&mut recording, false, None);
    assert_eq!(recording, Some(('q', vec!['a', 'b'])));
    let mut off: Option<(char, Vec<char>)> = None;
    record_macro_key(&mut off, false, Some('x'));
    assert_eq!(off, None);
}

#[test]
fn caches_work_on_surfaces_larger_than_the_render_area() {
    // The surface is 3x2; the layer renders into the 2x1 area at (1, 1).
    let surface_area = Rect::new(0, 0, 3, 2);
    let area = Rect::new(1, 1, 2, 1);
    let mut c: Compositor<&'static str, char> = Compositor::new(area);
    c.push("layer", None, "Layer");
    c.begin_render(area);
    let content = vec!['.', '.', '.', '.', 'x', 'y'];
    c.capture_layer(0, area, area, surface_area, &content);
    assert!(c.cache_is_valid_for(0, area, Some(area)));
    assert!(c.cache_fits_surface(0, 6));
    assert!(!c.cache_fits_surface(0, 5));
    let mut next = vec![' '; 6];
    assert!(!c.render_from_cache(0, area, false, Some(area), &mut next));
    assert_eq!(next, vec![' ', ' ', ' ', ' ', 'x', 'y']);
}
