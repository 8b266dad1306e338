//! Geometry and hit-testing of the navigation strip along the left edge:
//! one button for the graph view and one for the editor, stacked.

use vstd::prelude::*;

verus! {

pub const BAR_W: i32 = 56;
pub const BAR_MARGIN_X: i32 = 12;
pub const BUTTON_H: i32 = 40;
pub const BUTTON_GAP: i32 = 8;
pub const BUTTON_INSET: i32 = 6;
pub const BAR_PAD_V: i32 = 8;

pub const GRAPH_BUTTON: usize = 0;
pub const EDITOR_BUTTON: usize = 1;
pub const BUTTON_COUNT: usize = 2;

/// Height of the strip: both buttons, the gap between them and the padding.
pub const BAR_H: i32 = 104;

/// The strip `(x, y, w, h)`, vertically centred in a `screen_h` window (at
/// the top when the window is shorter than the strip).
pub open spec fn bar_spec(screen_h: int) -> (int, int, int, int) {
    let d = screen_h - BAR_H;
    let y = if d <= 0 {
        0
    } else {
        d / 2
    };
    (BAR_MARGIN_X as int, y, BAR_W as int, BAR_H as int)
}

/// The strip rectangle (see [`bar_spec`]).
pub fn bar_bounds(screen_h: i32) -> (r: (i32, i32, i32, i32))
    ensures
        (r.0 as int, r.1 as int, r.2 as int, r.3 as int) == bar_spec(screen_h as int),
{
    let d: i64 = screen_h as i64 - BAR_H as i64;
    let y: i64 = if d <= 0 {
        0
    } else {
        d / 2
    };
    (BAR_MARGIN_X, y as i32, BAR_W, BAR_H)
}

/// The rectangle of button `id` inside the strip: inset from the strip's
/// sides, stacked from the top padding down.
pub open spec fn button_spec(id: int, screen_h: int) -> (int, int, int, int) {
    let b = bar_spec(screen_h);
    (b.0 + BUTTON_INSET, b.1 + BAR_PAD_V + id * (BUTTON_H + BUTTON_GAP), b.2 - 2 * BUTTON_INSET, BUTTON_H as int)
}

/// The rectangle of button `id` (see [`button_spec`]).
pub fn button_bounds(id: usize, screen_h: i32) -> (r: (i32, i32, i32, i32))
    requires
        id < BUTTON_COUNT,
    ensures
        (r.0 as int, r.1 as int, r.2 as int, r.3 as int) == button_spec(id as int, screen_h as int),
{
    let (x, y, w, _) = bar_bounds(screen_h);
    let bx = x + BUTTON_INSET;
    let bw = w - 2 * BUTTON_INSET;
    let by = y + BAR_PAD_V + (id as i32) * (BUTTON_H + BUTTON_GAP);
    (bx, by, bw, BUTTON_H)
}

/// The point lies in the rectangle, edges included.
pub open spec fn in_rect(mx: int, my: int, r: (int, int, int, int)) -> bool {
    r.0 <= mx <= r.0 + r.2 && r.1 <= my <= r.1 + r.3
}

/// The first button whose rectangle holds the point `(mx, my)`.
pub fn button_at(mx: i32, my: i32, screen_h: i32) -> (r: Option<usize>)
    ensures
        match r {
            Some(id) => id < BUTTON_COUNT && in_rect(mx as int, my as int, button_spec(id as int, screen_h as int))
                && forall|j: int| 0 <= j < id ==> !in_rect(mx as int, my as int, #[trigger] button_spec(j, screen_h as int)),
            None => forall|j: int|
                0 <= j < BUTTON_COUNT ==> !in_rect(mx as int, my as int, #[trigger] button_spec(j, screen_h as int)),
        },
{
    let mut id: usize = 0;
    while id < BUTTON_COUNT
        invariant
            id <= BUTTON_COUNT,
            forall|j: int| 0 <= j < id ==> !in_rect(mx as int, my as int, #[trigger] button_spec(j, screen_h as int)),
        decreases BUTTON_COUNT - id,
    {
        let (bx, by, bw, bh) = button_bounds(id, screen_h);
        let right: i64 = bx as i64 + bw as i64;
        let bottom: i64 = by as i64 + bh as i64;
        if mx >= bx && (mx as i64) <= right && my >= by && (my as i64) <= bottom {
            return Some(id);
        }
        id = id + 1;
    }
    None
}

/// The point lies on the strip.
pub fn hit_bar(mx: i32, my: i32, screen_h: i32) -> (r: bool)
    ensures
        r == in_rect(mx as int, my as int, bar_spec(screen_h as int)),
{
    let (bx, by, bw, bh) = bar_bounds(screen_h);
    let right: i64 = bx as i64 + bw as i64;
    let bottom: i64 = by as i64 + bh as i64;
    mx >= bx && (mx as i64) <= right && my >= by && (my as i64) <= bottom
}

/// Both buttons lie inside the strip, the editor button below the graph
/// button with no overlap.
pub proof fn lemma_buttons_inside_strip(screen_h: int)
    ensures
        ({
            let b = bar_spec(screen_h);
            let g = button_spec(GRAPH_BUTTON as int, screen_h);
            let e = button_spec(EDITOR_BUTTON as int, screen_h);
            &&& b.0 <= g.0 && g.0 + g.2 <= b.0 + b.2
            &&& b.0 <= e.0 && e.0 + e.2 <= b.0 + b.2
            &&& b.1 <= g.1 && g.1 + g.3 <= b.1 + b.3
            &&& b.1 <= e.1 && e.1 + e.3 <= b.1 + b.3
            &&& e.1 >= g.1 + g.3
        }),
{
}

/// In a window at least as tall as the strip, the strip is centred: its
/// middle lies at half the window height (to the pixel, rounding down).
pub proof fn lemma_strip_centred(screen_h: int)
    requires
        screen_h >= BAR_H,
    ensures
        ({
            let b = bar_spec(screen_h);
            b.1 + b.3 / 2 == screen_h / 2
        }),
{
}

} // verus!
