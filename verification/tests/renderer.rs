use rust_graph::editor::buffer::VisualLine;
use rust_graph::editor::renderer::{
    content_scroll, follow_caret, line_editing, popup_position, visible_line_range, visual_selection,
};

fn vl(line: usize) -> VisualLine {
    VisualLine { start: 0, end: 0, line, indent: 0 }
}

#[test]
fn caret_line_renders_raw() {
    assert!(line_editing(&vl(3), None, 3, false, false));
    assert!(!line_editing(&vl(4), None, 3, false, false));
}

#[test]
fn navigation_mode_renders_everything_formatted() {
    assert!(!line_editing(&vl(3), Some((0, 5)), 3, true, false));
}

#[test]
fn frontmatter_block_edits_as_one_unit() {
    assert!(line_editing(&vl(0), Some((0, 2)), 1, false, false));
    assert!(line_editing(&vl(2), Some((0, 2)), 1, false, true));
    assert!(!line_editing(&vl(3), Some((0, 2)), 1, false, false));
}

#[test]
fn dragging_freezes_the_caret_line_formatted() {
    assert!(!line_editing(&vl(3), None, 3, false, true));
    assert!(!line_editing(&vl(3), Some((0, 2)), 3, false, true));
}

fn vline(line: usize, start: usize, end: usize) -> VisualLine {
    VisualLine { start, end, line, indent: 0 }
}

#[test]
fn content_scroll_is_clamped_to_the_content() {
    assert_eq!(content_scroll(-5, 1000, 300), 0);
    assert_eq!(content_scroll(900, 1000, 300), 700);
    assert_eq!(content_scroll(250, 1000, 300), 250);
    assert_eq!(content_scroll(50, 200, 300), 0);
}

#[test]
fn visible_lines_are_those_meeting_the_viewport() {
    let v = vec![vline(0, 0, 5), vline(0, 5, 9), vline(1, 0, 3), vline(2, 0, 4), vline(3, 0, 1)];
    let adv = vec![20, 20, 20, 20, 20];
    // Tops: 0, 22, 44, 66, 88.
    assert_eq!(visible_line_range(&v, &adv, 2, 30, 20), (0, 1));
    assert_eq!(visible_line_range(&v, &adv, 2, 70, 100), (2, 3));
    assert_eq!(visible_line_range(&v, &adv, 2, 500, 100), (0, 0));
    assert_eq!(visible_line_range(&[], &[], 2, 0, 100), (0, 0));
}

#[test]
fn selections_cover_the_right_part_of_each_visual_line() {
    let sel = (0, 3, 2, 2);
    assert_eq!(visual_selection(&vline(0, 0, 10), sel), Some((3, 10)));
    assert_eq!(visual_selection(&vline(1, 0, 6), sel), Some((0, 6)));
    assert_eq!(visual_selection(&vline(2, 0, 8), sel), Some((0, 2)));
    assert_eq!(visual_selection(&vline(3, 0, 8), sel), None);
    // An empty line inside the selection still shows a highlight.
    assert_eq!(visual_selection(&vline(1, 0, 0), sel), Some((0, 0)));
    // A selection ending before a wrapped line's start maps to nothing there.
    assert_eq!(visual_selection(&vline(2, 5, 8), sel), None);
}

#[test]
fn popups_open_below_the_caret_or_flip_above() {
    assert_eq!(popup_position(100, 100, 20, 150, 60, 0, 800, 40, 600, 12, 12), (100, 132));
    assert_eq!(popup_position(100, 540, 20, 150, 60, 0, 800, 40, 600, 12, 12), (100, 480));
    assert_eq!(popup_position(750, 100, 20, 150, 60, 0, 800, 40, 600, 12, 12), (638, 132));
    assert_eq!(popup_position(-50, 100, 20, 150, 60, 0, 800, 40, 600, 12, 12), (12, 132));
}

#[test]
fn the_view_follows_a_moved_caret() {
    assert_eq!(follow_caret(200, Some((150, 170)), true, 300, 1000), 150);
    assert_eq!(follow_caret(200, Some((520, 540)), true, 300, 1000), 240);
    assert_eq!(follow_caret(200, Some((250, 270)), true, 300, 1000), 200);
    assert_eq!(follow_caret(200, Some((150, 170)), false, 300, 1000), 200);
    assert_eq!(follow_caret(1200, None, true, 300, 1000), 1000);
}
