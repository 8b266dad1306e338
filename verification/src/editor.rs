//! The note editor: its markdown model, the state machines behind typing,
//! and the geometry of the panel it draws in.

pub mod autocomplete;
pub mod blocks;
pub mod buffer;
pub mod command;
pub mod history;
pub mod hit_test;
pub mod images;
pub mod input_handler;
pub mod markdown;
pub mod renderer;
pub mod tabs;
pub mod text;

use vstd::prelude::*;

verus! {

/// Milliseconds without an edit after which pending edits are saved.
pub const AUTOSAVE_PAUSE_MS: u64 = 2000;

/// Whether the editor saves now: it is open, has unsaved edits, an edit was
/// recorded (`last_edit_ms > 0`), and at least `pause_ms` have passed since
/// it (a clock that went back counts as no time passed).
pub fn should_autosave(open: bool, dirty: bool, now_ms: u64, last_edit_ms: u64, pause_ms: u64) -> (r: bool)
    ensures
        r == (open && dirty && last_edit_ms > 0 && (if now_ms >= last_edit_ms {
            now_ms - last_edit_ms
        } else {
            0
        }) >= pause_ms),
{
    if !(open && dirty) || last_edit_ms == 0 {
        return false;
    }
    let gap = if now_ms >= last_edit_ms {
        now_ms - last_edit_ms
    } else {
        0
    };
    gap >= pause_ms
}

/// Horizontal margin kept between each screen edge and the editor's text in
/// fullscreen, so lines never sit flush against the display.
pub const FULLSCREEN_H_MARGIN: i32 = 80;

/// The panel rectangle `(x, y, w, h)` for the fullscreen state: the whole
/// window in fullscreen, else the windowed panel.
pub open spec fn panel_spec(
    fullscreen: bool,
    screen_w: i32,
    screen_h: i32,
    windowed: (i32, i32, i32, i32),
) -> (i32, i32, i32, i32) {
    if fullscreen {
        (0, 0, screen_w, screen_h)
    } else {
        windowed
    }
}

/// Bounds of the editor panel: the whole `screen_w` x `screen_h` window in
/// fullscreen, otherwise `windowed`, the centred windowed panel. Every
/// inside/outside test on the panel goes through this one rule.
pub fn panel_bounds(fullscreen: bool, screen_w: i32, screen_h: i32, windowed: (i32, i32, i32, i32)) -> (r: (
    i32,
    i32,
    i32,
    i32,
))
    ensures
        r == panel_spec(fullscreen, screen_w, screen_h, windowed),
{
    if fullscreen {
        (0, 0, screen_w, screen_h)
    } else {
        windowed
    }
}

/// Where the text body and its scrollbar may go: the panel, inset in
/// fullscreen by [`FULLSCREEN_H_MARGIN`] on each side (keeping at least one
/// pixel of width); the windowed panel as it is.
pub fn content_bounds(fullscreen: bool, screen_w: i32, screen_h: i32, windowed: (i32, i32, i32, i32)) -> (r: (
    i32,
    i32,
    i32,
    i32,
))
    ensures
        ({
            let p = panel_spec(fullscreen, screen_w, screen_h, windowed);
            if fullscreen {
                let inner = p.2 - 2 * FULLSCREEN_H_MARGIN;
                r == (
                    (p.0 + FULLSCREEN_H_MARGIN) as i32,
                    p.1,
                    (if inner >= 1 {
                        inner
                    } else {
                        1
                    }) as i32,
                    p.3,
                )
            } else {
                r == p
            }
        }),
        fullscreen && screen_w > 2 * FULLSCREEN_H_MARGIN ==> 0 <= r.0 && r.0 + r.2 <= screen_w,
{
    let (x, y, w, h) = panel_bounds(fullscreen, screen_w, screen_h, windowed);
    if fullscreen {
        let m = FULLSCREEN_H_MARGIN;
        let inner: i64 = w as i64 - 2 * m as i64;
        let cw: i32 = if inner >= 1 {
            inner as i32
        } else {
            1
        };
        (x + m, y, cw, h)
    } else {
        (x, y, w, h)
    }
}

} // verus!
