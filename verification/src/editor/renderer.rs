//! The editor's drawing decisions: which visual lines render as raw,
//! editable source, how far the content scrolls, which source lines are on
//! screen, what part of a visual line a selection covers, where a popup
//! goes, and how the view follows the caret.

use crate::editor::buffer::VisualLine;
use vstd::prelude::*;

verus! {

/// A visual line renders raw when the caret is on its buffer line; a
/// frontmatter line renders raw whenever the caret is anywhere inside the
/// block, so the block edits as one unit. In navigation mode nothing
/// renders raw; during a mouse selection only a block the caret is already
/// editing stays raw, so the layout under the pointer does not shift.
pub open spec fn line_editing_spec(
    line: usize,
    fm_range: Option<(usize, usize)>,
    cursor_y: i32,
    nav_mode: bool,
    mouse_dragging: bool,
) -> bool {
    let cy = cursor_y as usize;
    if nav_mode {
        false
    } else if fm_range matches Some(r) && r.0 <= cy <= r.1 && r.0 <= line <= r.1 {
        true
    } else if mouse_dragging {
        false
    } else {
        cy == line
    }
}

/// Whether the visual line renders as raw source (see [`line_editing_spec`]).
pub fn line_editing(
    line: &VisualLine,
    fm_range: Option<(usize, usize)>,
    cursor_y: i32,
    nav_mode: bool,
    mouse_dragging: bool,
) -> (r: bool)
    ensures
        r == line_editing_spec(line.line, fm_range, cursor_y, nav_mode, mouse_dragging),
{
    if nav_mode {
        return false;
    }
    let cy = cursor_y as usize;
    match fm_range {
        Some((start, end)) => {
            if cy >= start && cy <= end && line.line >= start && line.line <= end {
                return true;
            }
        },
        None => {},
    }
    if mouse_dragging {
        return false;
    }
    cy == line.line
}

/// The largest scroll offset of content `total_h` pixels high in a
/// viewport `viewport_h` high.
pub open spec fn max_scroll_spec(total_h: int, viewport_h: int) -> int {
    if total_h - viewport_h > 0 {
        total_h - viewport_h
    } else {
        0
    }
}

/// The scroll offset kept between 0 and the largest one.
pub open spec fn clamp_content_scroll(scroll: int, total_h: int, viewport_h: int) -> int {
    if scroll < 0 {
        0
    } else if scroll > max_scroll_spec(total_h, viewport_h) {
        max_scroll_spec(total_h, viewport_h)
    } else {
        scroll
    }
}

/// The scroll offset clamped to the content (see
/// [`clamp_content_scroll`]).
pub fn content_scroll(scroll: i32, total_h: i32, viewport_h: i32) -> (r: i32)
    ensures
        r == clamp_content_scroll(scroll as int, total_h as int, viewport_h as int),
{
    let over: i64 = total_h as i64 - viewport_h as i64;
    let max: i64 = if over > 0 {
        over
    } else {
        0
    };
    if scroll < 0 {
        0
    } else if scroll as i64 > max {
        max as i32
    } else {
        scroll
    }
}

/// The top of visual line `k` when visual lines `advances[..k]` are
/// stacked with `spacing` pixels between them.
pub open spec fn line_top(advances: Seq<i32>, k: int, spacing: int) -> int
    decreases k,
{
    if k <= 0 {
        0
    } else {
        line_top(advances, k - 1, spacing) + advances[k - 1] + spacing
    }
}

/// Whether visual line `k`'s band `[top, top + advance]` meets the
/// viewport `[scroll, scroll + viewport_h]`.
pub open spec fn on_screen(advances: Seq<i32>, k: int, spacing: int, scroll: int, viewport_h: int) -> bool {
    line_top(advances, k, spacing) + advances[k] >= scroll && line_top(advances, k, spacing) <= scroll
        + viewport_h
}

/// Whether some visual line before `k` is on screen.
pub open spec fn any_on_screen(advances: Seq<i32>, k: int, spacing: int, scroll: int, viewport_h: int) -> bool {
    exists|q: int| 0 <= q < k && #[trigger] on_screen(advances, q, spacing, scroll, viewport_h)
}

/// Whether the source lines of the visual lines before `k` that are on
/// screen run from `lo` to `hi`, both reached.
pub open spec fn screen_lines(
    vlines: Seq<VisualLine>,
    advances: Seq<i32>,
    k: int,
    spacing: int,
    scroll: int,
    viewport_h: int,
    lo: usize,
    hi: usize,
) -> bool {
    &&& exists|q: int|
        0 <= q < k && #[trigger] on_screen(advances, q, spacing, scroll, viewport_h) && vlines[q].line
            == lo
    &&& exists|q: int|
        0 <= q < k && #[trigger] on_screen(advances, q, spacing, scroll, viewport_h) && vlines[q].line
            == hi
    &&& forall|q: int|
        0 <= q < k && #[trigger] on_screen(advances, q, spacing, scroll, viewport_h) ==> lo
            <= vlines[q].line <= hi
}

/// The first and last source lines with a visual line on screen: `(0, 0)`
/// when none is.
pub fn visible_line_range(
    vlines: &[VisualLine],
    advances: &[i32],
    spacing: i32,
    scroll: i32,
    viewport_h: i32,
) -> (r: (usize, usize))
    requires
        vlines@.len() == advances@.len(),
        forall|k: int|
            0 <= k <= advances@.len() ==> i32::MIN <= #[trigger] line_top(advances@, k, spacing as int)
                <= i32::MAX,
        forall|k: int|
            0 <= k < advances@.len() ==> i32::MIN <= line_top(advances@, k, spacing as int)
                + #[trigger] advances@[k] <= i32::MAX,
        i32::MIN <= scroll + viewport_h <= i32::MAX,
    ensures
        any_on_screen(advances@, vlines@.len() as int, spacing as int, scroll as int, viewport_h as int)
            ==> screen_lines(
            vlines@,
            advances@,
            vlines@.len() as int,
            spacing as int,
            scroll as int,
            viewport_h as int,
            r.0,
            r.1,
        ),
        !any_on_screen(advances@, vlines@.len() as int, spacing as int, scroll as int, viewport_h as int)
            ==> r == (0usize, 0usize),
{
    let ghost (sp, sc, vh) = (spacing as int, scroll as int, viewport_h as int);
    let mut min_line = usize::MAX;
    let mut max_line: usize = 0;
    let mut found = false;
    let mut line_y: i64 = 0;
    let mut k: usize = 0;
    while k < vlines.len()
        invariant
            k <= vlines@.len() == advances@.len(),
            sp == spacing,
            sc == scroll,
            vh == viewport_h,
            forall|q: int|
                0 <= q <= advances@.len() ==> i32::MIN <= #[trigger] line_top(advances@, q, sp)
                    <= i32::MAX,
            line_y == line_top(advances@, k as int, sp),
            found == any_on_screen(advances@, k as int, sp, sc, vh),
            found ==> screen_lines(vlines@, advances@, k as int, sp, sc, vh, min_line, max_line),
        decreases vlines@.len() - k,
    {
        let ghost k0 = k as int;
        let advance = advances[k] as i64;
        let hit = line_y + advance >= scroll as i64 && line_y <= scroll as i64 + viewport_h as i64;
        assert(hit == on_screen(advances@, k0, sp, sc, vh));
        let ghost (old_min, old_max, old_found) = (min_line, max_line, found);
        if hit {
            let l = vlines[k].line;
            if !found || l < min_line {
                min_line = l;
            }
            if !found || l > max_line {
                max_line = l;
            }
            found = true;
        }
        proof {
            if hit {
                assert(on_screen(advances@, k0, sp, sc, vh));
                assert(any_on_screen(advances@, k0 + 1, sp, sc, vh));
                assert forall|q: int|
                    0 <= q < k0 + 1 && #[trigger] on_screen(advances@, q, sp, sc, vh) implies min_line
                    <= vlines@[q].line <= max_line by {
                    if q < k0 {
                        assert(old_found);
                    }
                }
                if old_found && min_line == old_min {
                    let w = choose|q: int|
                        0 <= q < k0 && #[trigger] on_screen(advances@, q, sp, sc, vh)
                            && vlines@[q].line == old_min;
                    assert(0 <= w < k0 + 1 && on_screen(advances@, w, sp, sc, vh));
                } else {
                    assert(on_screen(advances@, k0, sp, sc, vh) && vlines@[k0].line == min_line);
                }
                if old_found && max_line == old_max {
                    let w = choose|q: int|
                        0 <= q < k0 && #[trigger] on_screen(advances@, q, sp, sc, vh)
                            && vlines@[q].line == old_max;
                    assert(0 <= w < k0 + 1 && on_screen(advances@, w, sp, sc, vh));
                } else {
                    assert(on_screen(advances@, k0, sp, sc, vh) && vlines@[k0].line == max_line);
                }
            } else {
                assert(any_on_screen(advances@, k0 + 1, sp, sc, vh) == any_on_screen(
                    advances@,
                    k0,
                    sp,
                    sc,
                    vh,
                )) by {
                    if any_on_screen(advances@, k0 + 1, sp, sc, vh) {
                        let w = choose|q: int|
                            0 <= q < k0 + 1 && #[trigger] on_screen(advances@, q, sp, sc, vh);
                        assert(w < k0);
                    }
                }
                if found {
                    let w1 = choose|q: int|
                        0 <= q < k0 && #[trigger] on_screen(advances@, q, sp, sc, vh)
                            && vlines@[q].line == min_line;
                    let w2 = choose|q: int|
                        0 <= q < k0 && #[trigger] on_screen(advances@, q, sp, sc, vh)
                            && vlines@[q].line == max_line;
                    assert(0 <= w1 < k0 + 1 && on_screen(advances@, w1, sp, sc, vh));
                    assert(0 <= w2 < k0 + 1 && on_screen(advances@, w2, sp, sc, vh));
                    assert forall|q: int|
                        0 <= q < k0 + 1 && #[trigger] on_screen(advances@, q, sp, sc, vh) implies min_line
                        <= vlines@[q].line <= max_line by {
                        assert(q < k0);
                    }
                }
            }
        }
        assert(line_top(advances@, k0 + 1, sp) == line_y + advance + spacing);
        line_y = line_y + advance + spacing as i64;
        k = k + 1;
    }
    if found {
        (min_line, max_line)
    } else {
        (0, 0)
    }
}

/// The part `[start, end)` of visual line `vl` that the selection from
/// `(sy, sx)` to `(ey, ex)` covers: from the selection's start (or the
/// line's) to its end (or the line's), kept within the line.
pub open spec fn visual_selection_spec(vl: VisualLine, sy: int, sx: int, ey: int, ex: int) -> (
    int,
    int,
) {
    let s = if vl.line == sy {
        if sx > vl.start {
            sx
        } else {
            vl.start as int
        }
    } else {
        vl.start as int
    };
    let e = if vl.line == ey {
        let m = if ex < vl.end {
            ex
        } else {
            vl.end as int
        };
        if m > vl.start {
            m
        } else {
            vl.start as int
        }
    } else {
        vl.end as int
    };
    (s, e)
}

/// The part of visual line `vl` the selection covers, when it is drawn:
/// the line lies within the selection's lines and the part is not empty,
/// or the line is an empty one the selection passes through.
pub fn visual_selection(vl: &VisualLine, sel: (usize, usize, usize, usize)) -> (r: Option<
    (usize, usize),
>)
    ensures
        ({
            let (sy, sx, ey, ex) = sel;
            let (s, e) = visual_selection_spec(*vl, sy as int, sx as int, ey as int, ex as int);
            let drawn = sy <= vl.line <= ey && (s < e || (s == e && vl.start == vl.end && s
                == vl.start));
            &&& drawn ==> r == Some((s as usize, e as usize))
            &&& !drawn ==> r is None
        }),
{
    let (sy, sx, ey, ex) = sel;
    if !(vl.line >= sy && vl.line <= ey) {
        return None;
    }
    let s = if vl.line == sy {
        if sx > vl.start {
            sx
        } else {
            vl.start
        }
    } else {
        vl.start
    };
    let e = if vl.line == ey {
        let m = if ex < vl.end {
            ex
        } else {
            vl.end
        };
        if m > vl.start {
            m
        } else {
            vl.start
        }
    } else {
        vl.end
    };
    if s < e || (s == e && vl.start == vl.end && s == vl.start) {
        Some((s, e))
    } else {
        None
    }
}

/// Where a popup `box_w` by `box_h` goes next to the caret at
/// `(cursor_x, cursor_y)` with text `font` high: just below the caret line,
/// flipped above it when it would run past the editor's bottom (less its
/// padding), moved left to stay inside the content, and then kept within
/// the content's top and bottom.
pub open spec fn popup_spec(
    cursor_x: int,
    cursor_y: int,
    font: int,
    box_w: int,
    box_h: int,
    content_x0: int,
    content_w: int,
    content_y: int,
    editor_bottom: int,
    padding: int,
    gap: int,
) -> (int, int) {
    let right = content_x0 + content_w - box_w - padding;
    let x0 = if cursor_x < right {
        cursor_x
    } else {
        right
    };
    let below = cursor_y + font + gap;
    let y0 = if below + box_h > editor_bottom - padding {
        below - box_h - font - gap
    } else {
        below
    };
    let x = if x0 > content_x0 + padding {
        x0
    } else {
        content_x0 + padding
    };
    let y1 = if y0 > content_y {
        y0
    } else {
        content_y
    };
    let y = if y1 + box_h > editor_bottom {
        if editor_bottom - box_h > content_y {
            editor_bottom - box_h
        } else {
            content_y
        }
    } else {
        y1
    };
    (x, y)
}

/// Where a popup goes (see [`popup_spec`]).
pub fn popup_position(
    cursor_x: i32,
    cursor_y: i32,
    font: i32,
    box_w: i32,
    box_h: i32,
    content_x0: i32,
    content_w: i32,
    content_y: i32,
    editor_bottom: i32,
    padding: i32,
    gap: i32,
) -> (r: (i32, i32))
    requires
        i32::MIN <= popup_spec(
            cursor_x as int,
            cursor_y as int,
            font as int,
            box_w as int,
            box_h as int,
            content_x0 as int,
            content_w as int,
            content_y as int,
            editor_bottom as int,
            padding as int,
            gap as int,
        ).0 <= i32::MAX,
        i32::MIN <= popup_spec(
            cursor_x as int,
            cursor_y as int,
            font as int,
            box_w as int,
            box_h as int,
            content_x0 as int,
            content_w as int,
            content_y as int,
            editor_bottom as int,
            padding as int,
            gap as int,
        ).1 <= i32::MAX,
    ensures
        (r.0 as int, r.1 as int) == popup_spec(
            cursor_x as int,
            cursor_y as int,
            font as int,
            box_w as int,
            box_h as int,
            content_x0 as int,
            content_w as int,
            content_y as int,
            editor_bottom as int,
            padding as int,
            gap as int,
        ),
{
    let (cx, cy, f, bw, bh) = (cursor_x as i64, cursor_y as i64, font as i64, box_w as i64, box_h as i64);
    let (x0c, wc, yc, bottom, pad, g) = (
        content_x0 as i64,
        content_w as i64,
        content_y as i64,
        editor_bottom as i64,
        padding as i64,
        gap as i64,
    );
    let right = x0c + wc - bw - pad;
    let x0 = if cx < right {
        cx
    } else {
        right
    };
    let below = cy + f + g;
    let y0 = if below + bh > bottom - pad {
        below - bh - f - g
    } else {
        below
    };
    let x = if x0 > x0c + pad {
        x0
    } else {
        x0c + pad
    };
    let y1 = if y0 > yc {
        y0
    } else {
        yc
    };
    let y = if y1 + bh > bottom {
        if bottom - bh > yc {
            bottom - bh
        } else {
            yc
        }
    } else {
        y1
    };
    (x as i32, y as i32)
}

/// The scroll offset after a frame: when the caret moved, the view scrolls
/// just enough to bring the caret's line band `[top, bottom]` into the
/// viewport; the offset is then clamped to the content.
pub open spec fn follow_spec(
    scroll: int,
    band: Option<(int, int)>,
    moved: bool,
    viewport_h: int,
    max_scroll: int,
) -> int {
    let s = match band {
        Some((top, bottom)) => if moved {
            if top < scroll {
                top
            } else if bottom > scroll + viewport_h {
                bottom - viewport_h
            } else {
                scroll
            }
        } else {
            scroll
        },
        None => scroll,
    };
    if s < 0 {
        0
    } else if s > max_scroll {
        max_scroll
    } else {
        s
    }
}

/// The scroll offset after a frame (see [`follow_spec`]).
pub fn follow_caret(
    scroll: i32,
    band: Option<(i32, i32)>,
    moved: bool,
    viewport_h: i32,
    max_scroll: i32,
) -> (r: i32)
    requires
        0 <= max_scroll,
    ensures
        r == follow_spec(
            scroll as int,
            match band {
                Some((t, b)) => Some((t as int, b as int)),
                None => None,
            },
            moved,
            viewport_h as int,
            max_scroll as int,
        ),
{
    let s: i64 = match band {
        Some((top, bottom)) => {
            if moved {
                if top < scroll {
                    top as i64
                } else if bottom as i64 > scroll as i64 + viewport_h as i64 {
                    bottom as i64 - viewport_h as i64
                } else {
                    scroll as i64
                }
            } else {
                scroll as i64
            }
        },
        None => scroll as i64,
    };
    if s < 0 {
        0
    } else if s > max_scroll as i64 {
        max_scroll
    } else {
        s as i32
    }
}

/// After the caret moves, its line is on screen: when the band fits in the
/// viewport and lies within the content, the new offset shows all of it.
pub proof fn lemma_follow_shows_caret(
    scroll: int,
    top: int,
    bottom: int,
    viewport_h: int,
    total_h: int,
)
    requires
        0 <= top <= bottom <= total_h,
        bottom - top <= viewport_h,
        0 < viewport_h,
    ensures
        ({
            let r = follow_spec(
                scroll,
                Some((top, bottom)),
                true,
                viewport_h,
                max_scroll_spec(total_h, viewport_h),
            );
            r <= top && bottom <= r + viewport_h
        }),
{
}

} // verus!
