use rust_graph::sidebar::{
    bar_bounds, button_at, button_bounds, hit_bar, BAR_PAD_V, BUTTON_GAP, EDITOR_BUTTON,
    GRAPH_BUTTON,
};

const HEIGHT: i32 = 810;

#[test]
fn strip_vertically_centered() {
    let (_, y, _, h) = bar_bounds(HEIGHT);
    assert_eq!((y + h / 2) * 2, HEIGHT);
}

#[test]
fn buttons_inside_strip_and_non_overlapping() {
    let (bx, by, bw, bh) = bar_bounds(HEIGHT);
    let (gx, gy, gw, gh) = button_bounds(GRAPH_BUTTON, HEIGHT);
    let (ex, ey, ew, eh) = button_bounds(EDITOR_BUTTON, HEIGHT);
    assert!(gx >= bx && gx + gw <= bx + bw);
    assert!(ex >= bx && ex + ew <= bx + bw);
    assert!(gy >= by && gy + gh <= by + bh);
    assert!(ey >= by && ey + eh <= by + bh);
    assert!(ey >= gy + gh);
}

#[test]
fn button_hit_testing() {
    let (x, y, w, h) = button_bounds(GRAPH_BUTTON, HEIGHT);
    assert_eq!(button_at(x + w / 2, y + h / 2, HEIGHT), Some(GRAPH_BUTTON));
    let (_, by, _, _) = bar_bounds(HEIGHT);
    assert_eq!(button_at(x + w / 2, y + h + BUTTON_GAP / 2, HEIGHT), None);
    assert_eq!(button_at(x + w / 2, by + BAR_PAD_V / 2, HEIGHT), None);
    let (ex, ey, _, _) = button_bounds(EDITOR_BUTTON, HEIGHT);
    assert_eq!(button_at(ex, ey, HEIGHT), Some(EDITOR_BUTTON));
    assert!(hit_bar(x, by, HEIGHT));
    assert!(!hit_bar(0, 0, HEIGHT));
}

#[test]
fn short_window_pins_the_strip_to_the_top() {
    assert_eq!(bar_bounds(50).1, 0);
}
