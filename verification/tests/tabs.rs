use rust_graph::editor::history::{snapshot, undo, EditKind, History};
use rust_graph::editor::tabs::{
    active_after_close, bar_click, bar_wheel, clamp_scroll, close_rect, close_tab, leave_for,
    open_tab, park,
    rename_target, reveal_scroll, tab_label, tab_left, tab_rect, unpark, BarClick, DocView, Tab,
    CLOSE_RIGHT_PAD, CLOSE_W, TABS_H, TAB_GAP, TAB_W,
};
use std::path::PathBuf;

#[test]
fn clamp_scroll_tracks_total_width() {
    assert_eq!(clamp_scroll(500, 2, 600), 0);
    let count = 10;
    let view_w = 500;
    let total = (count as i32) * (TAB_W + TAB_GAP) - TAB_GAP;
    assert_eq!(clamp_scroll(9999, count, view_w), total - view_w);
    assert_eq!(clamp_scroll(-50, count, view_w), 0);
    assert_eq!(clamp_scroll(0, 0, 100), 0);
}

#[test]
fn tab_layout_is_contiguous_left_to_right() {
    for i in 0..5 {
        let left = tab_left(i, 0);
        assert_eq!(left, (i as i32) * (TAB_W + TAB_GAP));
    }
    assert_eq!(tab_left(3, 100), 3 * (TAB_W + TAB_GAP) - 100);
}

#[test]
fn close_box_sits_inside_its_tab() {
    let (x, y, w, h) = tab_rect(2, 10, 5, 0);
    assert_eq!((x, y, w, h), (10 + 2 * (TAB_W + TAB_GAP), 5, TAB_W, TABS_H));
    let (cx, cy, cw, ch) = close_rect(2, 10, 5, 0);
    assert_eq!(cx + cw + CLOSE_RIGHT_PAD, x + w);
    assert_eq!((cw, ch), (CLOSE_W, CLOSE_W));
    assert!(cy >= y && cy + ch <= y + h);
}

#[test]
fn reveal_brings_the_tab_into_view() {
    // Ten tabs in a 300 px bar: tab 9 needs scrolling to its right edge.
    let s = reveal_scroll(9, 0, 10, 300);
    let left = tab_left(9, s);
    assert!(left >= 0 && left + TAB_W <= 300);
    // Scrolling back to the first tab.
    assert_eq!(reveal_scroll(0, s, 10, 300), 0);
    // A visible tab leaves the scroll alone.
    assert_eq!(reveal_scroll(1, 0, 10, 300), 0);
}

#[test]
fn close_shifts_active_index_down() {
    // Four tabs, the third active: closing the first moves it to index 1.
    assert_eq!(active_after_close(Some(2), 0, 4), (Some(1), false));
    // Closing the active tab activates the one that slid into its slot.
    assert_eq!(active_after_close(Some(1), 1, 3), (Some(1), false));
    // ... or the new last one when it was the last.
    assert_eq!(active_after_close(Some(2), 2, 3), (Some(1), false));
    // A tab left of the closed one keeps its index.
    assert_eq!(active_after_close(Some(0), 2, 3), (Some(0), false));
}

#[test]
fn close_last_tab_reports_empty() {
    assert_eq!(active_after_close(Some(0), 0, 1), (None, true));
    assert_eq!(active_after_close(None, 0, 1), (None, false));
}

#[test]
fn bar_clicks_close_or_activate() {
    // Tab 0 spans x 0..=130 of a bar at (0, 0); its close box is x 110..=124, y 8..=22.
    assert_eq!(bar_click(115, 15, 0, 0, 600, 3, 0), BarClick::Close(0));
    assert_eq!(bar_click(50, 15, 0, 0, 600, 3, 0), BarClick::Activate(0));
    assert_eq!(bar_click(140, 15, 0, 0, 600, 3, 0), BarClick::Activate(1));
    assert_eq!(bar_click(50, 40, 0, 0, 600, 3, 0), BarClick::Outside);
    assert_eq!(bar_click(50, 15, 0, 0, 600, 0, 0), BarClick::Nothing);
    assert_eq!(bar_click(500, 15, 0, 0, 600, 3, 0), BarClick::Nothing);
    assert_eq!(bar_click(50, 15, 0, 0, 600, 3, 132), BarClick::Activate(1));
}

#[test]
fn renamed_tabs_take_the_cleaned_name() {
    assert_eq!(rename_target("  new idea.md ", "old"), Some("new idea".to_string()));
    assert_eq!(rename_target("a.md.md", "old"), Some("a".to_string()));
    assert_eq!(rename_target("old.md", "old"), None);
    assert_eq!(rename_target("   ", "old"), None);
    assert_eq!(rename_target(".md", "old"), None);
}

fn ten_px(t: &str, _size: i32) -> i32 {
    10 * t.chars().count() as i32
}

#[test]
fn long_tab_names_are_cut_with_an_ellipsis() {
    assert_eq!(tab_label("short", 14, 94, ten_px), "short");
    assert_eq!(tab_label("a much longer name", 14, 94, ten_px), "a much l\u{2026}");
    assert_eq!(tab_label("abcdefghijk", 14, 5, ten_px), "\u{2026}");
    assert_eq!(tab_label("exactly9c", 14, 90, ten_px), "exactly9c");
    assert_eq!(tab_label("tenletters", 14, 90, ten_px), "tenlette\u{2026}");
}

#[test]
fn wheel_scrolls_the_bar_under_the_pointer() {
    // Ten tabs are 1318 px wide; a 500 px bar scrolls up to 818.
    assert_eq!(bar_wheel(50, 10, 0, 0, 500, -1, 10, 0), Some(40));
    assert_eq!(bar_wheel(50, 10, 0, 0, 500, 3, 10, 100), Some(0));
    assert_eq!(bar_wheel(50, 10, 0, 0, 500, -30, 10, 0), Some(818));
    // No notch, or the pointer below the bar: nothing happens.
    assert_eq!(bar_wheel(50, 10, 0, 0, 500, 0, 10, 0), None);
    assert_eq!(bar_wheel(50, 30, 0, 0, 500, -1, 10, 0), None);
    assert_eq!(bar_wheel(501, 10, 0, 0, 500, -1, 10, 0), None);
}

fn same_path(a: &PathBuf, b: &PathBuf) -> bool {
    a == b
}

#[test]
fn open_dedupes_by_path() {
    let mut tabs: Vec<Tab<PathBuf>> = Vec::new();
    let a = open_tab(&mut tabs, "a".to_string(), PathBuf::from("/x/a.md"), &same_path);
    let b = open_tab(&mut tabs, "b".to_string(), PathBuf::from("/x/b.md"), &same_path);
    let a2 = open_tab(&mut tabs, "a".to_string(), PathBuf::from("/x/a.md"), &same_path);
    assert_eq!(a, 0);
    assert_eq!(b, 1);
    assert_eq!(a2, a);
    assert_eq!(tabs.len(), 2);
    assert_eq!(tabs[1].name, "b");
    assert_eq!(tabs[1].view.cursor_x, -1);
}

fn view(x: i32, y: i32, scroll: i32, dirty: bool) -> DocView {
    DocView { cursor_x: x, cursor_y: y, anchor_x: x, anchor_y: y, scroll, dirty, last_edit_ms: 77 }
}

#[test]
fn switching_tabs_keeps_each_documents_view_and_history() {
    let mut tabs: Vec<Tab<PathBuf>> = Vec::new();
    open_tab(&mut tabs, "a".to_string(), PathBuf::from("/a.md"), &same_path);
    open_tab(&mut tabs, "b".to_string(), PathBuf::from("/b.md"), &same_path);
    // Document a is live, edited and unsaved, with one undo step.
    let mut history = History::new();
    let lines = vec!["one".to_string()];
    snapshot(&mut history, &lines, (0, 3), EditKind::Other, 10);
    let mut live = view(3, 0, 40, true);
    // Switch to b: a's edits must be saved, and b (never shown) keeps the
    // caret its freshly loaded text placed.
    assert!(park(&mut tabs[0], &mut live, &mut history));
    assert!(!live.dirty);
    let mut loaded_b = view(0, 9, 0, false);
    unpark(&mut tabs[1], &mut loaded_b, &mut history);
    assert_eq!((loaded_b.cursor_x, loaded_b.cursor_y, loaded_b.scroll), (0, 9, 0));
    assert!(undo(&mut history, &lines, (0, 0)).is_none());
    // Back to a: caret, anchor, scroll and the undo step return.
    assert!(!park(&mut tabs[1], &mut loaded_b, &mut history));
    let mut loaded_a = view(0, 0, 0, false);
    unpark(&mut tabs[0], &mut loaded_a, &mut history);
    let back = DocView { last_edit_ms: 0, ..view(3, 0, 40, false) };
    assert_eq!(loaded_a, back);
    assert!(undo(&mut history, &lines, (0, 0)).is_some());
    assert_eq!(tabs[0].view.cursor_x, -1);
}

fn three_tabs() -> Vec<Tab<PathBuf>> {
    let mut tabs = Vec::new();
    for n in ["a", "b", "c"] {
        open_tab(&mut tabs, n.to_string(), PathBuf::from(format!("/{n}.md")), &same_path);
    }
    tabs
}

#[test]
fn closing_the_active_tab_parks_it_and_picks_a_neighbour() {
    let mut tabs = three_tabs();
    let mut history = History::new();
    let mut live = view(2, 5, 60, true);
    assert!(close_tab(&mut tabs, Some(1), 5, &mut live, &mut history).is_none());
    assert_eq!(tabs.len(), 3);
    let c = close_tab(&mut tabs, Some(1), 1, &mut live, &mut history).unwrap();
    assert_eq!(c.tab.name, "b");
    assert!(c.flush);
    assert_eq!((c.tab.view.cursor_x, c.tab.view.cursor_y, c.tab.view.scroll), (2, 5, 60));
    assert_eq!(c.active, Some(1));
    assert!(!c.closes_editor);
    assert!(!live.dirty);
    let names: Vec<&str> = tabs.iter().map(|t| t.name.as_str()).collect();
    assert_eq!(names, vec!["a", "c"]);
    // Closing a tab left of the active one only shifts the index.
    let mut live2 = view(1, 1, 0, true);
    let c = close_tab(&mut tabs, Some(1), 0, &mut live2, &mut history).unwrap();
    assert!(!c.flush);
    assert_eq!(c.active, Some(0));
    assert!(live2.dirty);
    assert_eq!(c.tab.view.cursor_x, -1);
    // The last tab closes the editor.
    let c = close_tab(&mut tabs, Some(0), 0, &mut live2, &mut history).unwrap();
    assert!(c.closes_editor);
    assert_eq!(c.active, None);
    assert!(tabs.is_empty());
}

#[test]
fn activating_another_tab_parks_the_active_one() {
    let mut tabs = three_tabs();
    let mut history = History::new();
    let mut live = view(4, 2, 10, true);
    // Re-activating the active tab, or with none active, parks nothing.
    assert!(!leave_for(&mut tabs, Some(0), 0, &mut live, &mut history));
    assert!(!leave_for(&mut tabs, None, 2, &mut live, &mut history));
    assert!(live.dirty);
    assert!(leave_for(&mut tabs, Some(0), 2, &mut live, &mut history));
    assert_eq!((tabs[0].view.cursor_x, tabs[0].view.cursor_y), (4, 2));
    assert!(!tabs[0].view.dirty);
    assert_eq!(tabs[2].view.cursor_x, -1);
}
