//! Mapping mouse positions to rows and byte offsets of the text, and
//! telling single, double and triple clicks apart.

use crate::editor::markdown::{measure_line, strip};
use crate::strings::{lemma_ends_boundary, sb, str_slice};
use vstd::prelude::*;
use vstd::utf8::*;

verus! {

broadcast use vstd::utf8::group_utf8_lib;

/// One visual row as the renderer laid it out: which line and byte range it
/// shows, where it stands on screen and how it was drawn.
#[derive(Debug, Clone, Copy)]
pub struct HitRow {
    pub line: usize,
    pub start: usize,
    pub end: usize,
    pub indent_px: i32,
    pub font_size: i32,
    pub top: i32,
    pub advance: i32,
    pub view_mode: bool,
    pub quote_skip: usize,
    pub image: bool,
    pub fm_bar: bool,
}

/// Mouse click state kept between frames by the input handler.
#[derive(Debug, Clone, Copy)]
pub struct ClickState {
    pub mouse_dragging: bool,
    pub last_click_time_ms: u64,
    pub last_click_line: i32,
    pub last_click_offset: i32,
    pub click_count: u32,
}

/// The state with no click seen and no drag under way.
pub open spec fn click_state_reset(s: ClickState) -> bool {
    &&& !s.mouse_dragging
    &&& s.last_click_time_ms == 0
    &&& s.last_click_line == 0
    &&& s.last_click_offset == 0
    &&& s.click_count == 0
}

impl ClickState {
    /// No click seen yet.
    pub fn new() -> (r: ClickState)
        ensures
            click_state_reset(r),
    {
        ClickState {
            mouse_dragging: false,
            last_click_time_ms: 0,
            last_click_line: 0,
            last_click_offset: 0,
            click_count: 0,
        }
    }
}

/// Forgets every click and any drag under way.
pub fn reset_click_state(state: &mut ClickState)
    ensures
        click_state_reset(*final(state)),
{
    state.mouse_dragging = false;
    state.last_click_time_ms = 0;
    state.last_click_line = 0;
    state.last_click_offset = 0;
    state.click_count = 0;
}

/// `y` falls in the row's band `[top, top + advance)`.
pub open spec fn in_band(r: HitRow, y: i32) -> bool {
    r.top <= y && y < r.top + r.advance
}

/// Finds the first row whose `[top, top + advance)` band contains `y`.
pub fn row_at_y(rows: &[HitRow], y: i32) -> (r: Option<&HitRow>)
    ensures
        match r {
            Some(row) => exists|i: int|
                0 <= i < rows@.len() && *row == rows@[i] && in_band(rows@[i], y) && forall|j: int|
                    0 <= j < i ==> !in_band(#[trigger] rows@[j], y),
            None => forall|j: int| 0 <= j < rows@.len() ==> !in_band(#[trigger] rows@[j], y),
        },
{
    let mut i: usize = 0;
    while i < rows.len()
        invariant
            i <= rows@.len(),
            forall|j: int| 0 <= j < i ==> !in_band(#[trigger] rows@[j], y),
        decreases rows@.len() - i,
    {
        let row = &rows[i];
        let bottom: i64 = row.top as i64 + row.advance as i64;
        if y >= row.top && (y as i64) < bottom {
            return Some(row);
        }
        i = i + 1;
    }
    None
}

/// The text a row shows for its bytes `b`: formatted as in view mode, or raw.
pub open spec fn shown(b: Seq<u8>, view_mode: bool) -> Seq<u8> {
    if view_mode {
        strip(b)
    } else {
        b
    }
}

/// `measure` may give width `w` for the text `text` at font size `fs`.
pub open spec fn measured<F: Fn(&str, i32) -> i32>(measure: F, text: Seq<u8>, fs: i32, w: i32) -> bool {
    exists|a: &str| sb(a) == text && #[trigger] call_ensures(measure, (a, fs), w)
}

/// The text, drawn, fits within `eff` pixels.
pub open spec fn fits<F: Fn(&str, i32) -> i32>(measure: F, text: Seq<u8>, fs: i32, eff: int) -> bool {
    exists|w: i32| measured(measure, text, fs, w) && w <= eff
}

/// The text, drawn, is wider than `eff` pixels.
pub open spec fn overflows<F: Fn(&str, i32) -> i32>(measure: F, text: Seq<u8>, fs: i32, eff: int) -> bool {
    exists|w: i32| measured(measure, text, fs, w) && w > eff
}

/// Where the row's text starts in the line, past any quote rail.
pub open spec fn row_origin(row: HitRow) -> int {
    row.start + row.quote_skip
}

/// Where the row's text ends in the line, clamped to the line.
pub open spec fn row_safe_end(row: HitRow, len: int) -> int {
    if row.end <= len {
        row.end as int
    } else {
        len
    }
}

/// What the row's prefix `[origin, k)` of `b` looks like on screen.
pub open spec fn prefix_shown(b: Seq<u8>, row: HitRow, k: int) -> Seq<u8> {
    shown(b.subrange(row_origin(row), k), row.view_mode)
}

/// The offset picked when the click lies past the indent and the row holds
/// text: the end of the row's text (clamped to the line) when all of it
/// fits; else the last character
/// boundary up to which every prefix fits, the next prefix being too wide.
pub open spec fn offset_picked<F: Fn(&str, i32) -> i32>(
    measure: F,
    b: Seq<u8>,
    row: HitRow,
    eff: int,
    r: int,
) -> bool {
    let origin = row_origin(row);
    let safe_end = row_safe_end(row, b.len() as int);
    let fs = row.font_size;
    ||| r == safe_end && fits(measure, prefix_shown(b, row, safe_end), fs, eff)
    ||| {
        &&& overflows(measure, prefix_shown(b, row, safe_end), fs, eff)
        &&& origin <= r < safe_end
        &&& is_char_boundary(b, r)
        &&& forall|k: int|
            origin < k <= r && is_char_boundary(b, k) ==> fits(
                measure,
                #[trigger] prefix_shown(b, row, k),
                fs,
                eff,
            )
        &&& (exists|k: int|
            r < k < safe_end && is_char_boundary(b, k) && overflows(
                measure,
                #[trigger] prefix_shown(b, row, k),
                fs,
                eff,
            ) && forall|j: int| r < j < k ==> !is_char_boundary(b, j)) || (forall|j: int|
            r < j < safe_end ==> !is_char_boundary(b, j))
    }
}

/// Maps a content-relative X pixel to the byte offset the user clicked.
/// `px_from_padding` is measured from the content origin; `measure` gives
/// the drawn width of a text at a font size. Past an image row's start, the
/// offset never leaves the row's text clamped to the line, and lies on a
/// character boundary.
pub fn offset_at_px<F: Fn(&str, i32) -> i32>(
    line: &str,
    row: &HitRow,
    px_from_padding: i32,
    measure: F,
) -> (r: usize)
    requires
        row.start + row.quote_skip <= usize::MAX,
        !row.image && row_origin(*row) < row_safe_end(*row, sb(line).len() as int) ==> {
            &&& is_char_boundary(sb(line), row_origin(*row))
            &&& is_char_boundary(sb(line), row_safe_end(*row, sb(line).len() as int))
        },
        forall|a: &str, fs: i32| call_requires(measure, (a, fs)),
    ensures
        ({
            let b = sb(line);
            let origin = row_origin(*row);
            let safe_end = row_safe_end(*row, b.len() as int);
            let eff = px_from_padding - row.indent_px;
            if row.image {
                r == row.start
            } else if origin >= safe_end {
                r == safe_end
            } else if eff <= 0 {
                r == origin
            } else {
                offset_picked(measure, b, *row, eff, r as int)
            }
        }),
        !row.image ==> r <= row_safe_end(*row, sb(line).len() as int),
        !row.image && row_origin(*row) < row_safe_end(*row, sb(line).len() as int) ==> {
            &&& row_origin(*row) <= r
            &&& is_char_boundary(sb(line), r as int)
        },
        is_char_boundary(sb(line), row.start as int) && is_char_boundary(sb(line), row.end as int)
            ==> is_char_boundary(sb(line), r as int),
{
    if row.image {
        return row.start;
    }
    let ghost b = sb(line);
    let n = line.as_bytes().len();
    let origin_raw = row.start + row.quote_skip;
    let safe_end = if row.end <= n {
        row.end
    } else {
        n
    };
    proof {
        lemma_ends_boundary(sb(line));
    }
    if origin_raw >= safe_end {
        return safe_end;
    }
    let eff: i64 = px_from_padding as i64 - row.indent_px as i64;
    if eff <= 0 {
        return origin_raw;
    }
    let ghost rw = *row;
    let mut best = origin_raw;
    let mut raw = origin_raw + 1;
    let mut broke = false;
    while raw < safe_end
        invariant_except_break
            !broke,
        invariant
            b == sb(line),
            rw == *row,
            origin_raw == row_origin(rw),
            safe_end == row_safe_end(rw, b.len() as int),
            origin_raw < safe_end <= b.len(),
            eff == px_from_padding - row.indent_px,
            is_char_boundary(b, origin_raw as int),
            is_char_boundary(b, safe_end as int),
            forall|a: &str, fs: i32| call_requires(measure, (a, fs)),
            origin_raw < raw <= safe_end,
            origin_raw <= best < raw,
            is_char_boundary(b, best as int),
            forall|k: int|
                origin_raw < k <= best && is_char_boundary(b, k) ==> fits(
                    measure,
                    #[trigger] prefix_shown(b, rw, k),
                    rw.font_size,
                    eff as int,
                ),
            forall|j: int| best < j < raw ==> !is_char_boundary(b, j),
        ensures
            origin_raw <= best < safe_end,
            is_char_boundary(b, best as int),
            forall|k: int|
                origin_raw < k <= best && is_char_boundary(b, k) ==> fits(
                    measure,
                    #[trigger] prefix_shown(b, rw, k),
                    rw.font_size,
                    eff as int,
                ),
            broke ==> (exists|k: int|
                best < k < safe_end && is_char_boundary(b, k) && overflows(
                    measure,
                    #[trigger] prefix_shown(b, rw, k),
                    rw.font_size,
                    eff as int,
                ) && forall|j: int| best < j < k ==> !is_char_boundary(b, j)),
            !broke ==> forall|j: int| best < j < safe_end ==> !is_char_boundary(b, j),
        decreases safe_end - raw,
    {
        if line.is_char_boundary(raw) {
            let shown_prefix = measure_line(str_slice(line, origin_raw, raw), row.view_mode);
            let text = shown_prefix.as_str();
            let w = measure(text, row.font_size);
            proof {
                let k = raw as int;
                assert(sb(text) == prefix_shown(b, rw, k));
                assert(measured(measure, prefix_shown(b, rw, k), rw.font_size, w));
            }
            if (w as i64) > eff {
                broke = true;
                break;
            }
            best = raw;
        }
        raw = raw + 1;
    }
    let full = measure_line(str_slice(line, origin_raw, safe_end), row.view_mode);
    let full_text = full.as_str();
    let full_w = measure(full_text, row.font_size);
    proof {
        assert(sb(full_text) == prefix_shown(b, rw, safe_end as int));
        assert(measured(measure, prefix_shown(b, rw, safe_end as int), rw.font_size, full_w));
    }
    if (full_w as i64) <= eff {
        best = safe_end;
    }
    best
}

/// Classifies a mouse click as single (1), double (2) or triple (3): a click
/// at the same place within 300 ms of the previous one counts one more, up
/// to three.
pub fn classify_click(now_ms: u64, last_ms: u64, same_pos: bool, prev_count: u32) -> (r: u32)
    ensures
        r == (if same_pos && (if now_ms >= last_ms {
            now_ms - last_ms
        } else {
            0
        }) < 300 && prev_count < 3 {
            prev_count + 1
        } else {
            1
        }),
        1 <= r <= 3,
{
    let gap = if now_ms >= last_ms {
        now_ms - last_ms
    } else {
        0
    };
    if same_pos && gap < 300 && prev_count < 3 {
        prev_count + 1
    } else {
        1
    }
}

} // verus!
