//! The decisions of the graph view's mouse handling: which context-menu
//! item a click picks, which font row a click in the settings dialog picks,
//! how the wheel scrolls that dialog's list, and when a click dismisses the
//! editor.

use crate::graph::settings::SETTINGS_VISIBLE_ROWS;
use vstd::prelude::*;

verus! {

/// What a left click does while a context menu is open.
#[derive(Debug, Clone, Copy, PartialEq, Eq, Structural)]
pub enum ContextItem {
    /// "Add Node" on the empty-space menu.
    AddNode,
    Rename,
    Delete,
    CreateSubGraph,
    OpenSubGraph,
    SetHeader,
    /// The click missed the menu: it closes.
    Dismiss,
}

/// Whether `(px, py)` lies on row `k` of a menu whose top-left corner is
/// `(mx, my)`, `mw` wide with rows `mh` high (edges included).
pub open spec fn row_hit(px: int, py: int, mx: int, my: int, mw: int, mh: int, k: int) -> bool {
    mx <= px <= mx + mw && my + k * mh <= py <= my + k * mh + mh
}

/// The item a click at `(px, py)` picks. The empty-space menu has one row,
/// "Add Node". A node's menu has Rename, Delete, then "Create Sub-Graph"
/// when the node has no sub-graph folder or "Open Sub-Graph" when it has
/// one, then "Set Header"; rows are tried in that order, and a click on
/// none of them dismisses the menu.
pub open spec fn context_click_spec(
    px: int,
    py: int,
    mx: int,
    my: int,
    mw: int,
    mh: int,
    empty_menu: bool,
    subgraph_exists: bool,
) -> ContextItem {
    if empty_menu {
        if row_hit(px, py, mx, my, mw, mh, 0) {
            ContextItem::AddNode
        } else {
            ContextItem::Dismiss
        }
    } else if row_hit(px, py, mx, my, mw, mh, 0) {
        ContextItem::Rename
    } else if row_hit(px, py, mx, my, mw, mh, 1) {
        ContextItem::Delete
    } else if !subgraph_exists && row_hit(px, py, mx, my, mw, mh, 2) {
        ContextItem::CreateSubGraph
    } else if subgraph_exists && row_hit(px, py, mx, my, mw, mh, 2) {
        ContextItem::OpenSubGraph
    } else if row_hit(px, py, mx, my, mw, mh, 3) {
        ContextItem::SetHeader
    } else {
        ContextItem::Dismiss
    }
}

/// Whether `(px, py)` lies on row `k` of the menu.
fn row_hit_exec(px: i64, py: i64, mx: i64, my: i64, mw: i64, mh: i64, k: i64) -> (r: bool)
    requires
        i32::MIN <= px <= i32::MAX,
        i32::MIN <= py <= i32::MAX,
        i32::MIN <= mx <= i32::MAX,
        i32::MIN <= my <= i32::MAX,
        i32::MIN <= mw <= i32::MAX,
        i32::MIN <= mh <= i32::MAX,
        0 <= k <= 3,
    ensures
        r == row_hit(px as int, py as int, mx as int, my as int, mw as int, mh as int, k as int),
{
    let top = if k == 0 {
        my
    } else if k == 1 {
        my + mh
    } else if k == 2 {
        my + 2 * mh
    } else {
        my + 3 * mh
    };
    mx <= px && px <= mx + mw && top <= py && py <= top + mh
}

/// The item a click picks on an open context menu (see
/// [`context_click_spec`]).
pub fn context_click(
    px: i32,
    py: i32,
    mx: i32,
    my: i32,
    mw: i32,
    mh: i32,
    empty_menu: bool,
    subgraph_exists: bool,
) -> (r: ContextItem)
    ensures
        r == context_click_spec(
            px as int,
            py as int,
            mx as int,
            my as int,
            mw as int,
            mh as int,
            empty_menu,
            subgraph_exists,
        ),
{
    let (x, y, ox, oy, w, h) = (px as i64, py as i64, mx as i64, my as i64, mw as i64, mh as i64);
    if empty_menu {
        if row_hit_exec(x, y, ox, oy, w, h, 0) {
            ContextItem::AddNode
        } else {
            ContextItem::Dismiss
        }
    } else if row_hit_exec(x, y, ox, oy, w, h, 0) {
        ContextItem::Rename
    } else if row_hit_exec(x, y, ox, oy, w, h, 1) {
        ContextItem::Delete
    } else if !subgraph_exists && row_hit_exec(x, y, ox, oy, w, h, 2) {
        ContextItem::CreateSubGraph
    } else if subgraph_exists && row_hit_exec(x, y, ox, oy, w, h, 2) {
        ContextItem::OpenSubGraph
    } else if row_hit_exec(x, y, ox, oy, w, h, 3) {
        ContextItem::SetHeader
    } else {
        ContextItem::Dismiss
    }
}

/// What a left click does while the settings dialog is open.
#[derive(Debug, Clone, Copy, PartialEq, Eq, Structural)]
pub enum SettingsClick {
    /// Outside the panel: the dialog closes.
    Close,
    /// On the row of this font: it is picked.
    Pick(usize),
    /// Inside the panel but on no font.
    Nothing,
}

/// Integer division rounding toward zero, as Rust's `/` does.
pub open spec fn div_toward_zero(a: int, b: int) -> int {
    if a >= 0 {
        a / b
    } else {
        -((-a) / b)
    }
}

/// The click at `(px, py)` on the settings dialog whose panel is
/// `(x, y, w, h)`: outside the panel the dialog closes; inside, the row
/// under the pointer counts from the list's top below the title, offset by
/// the list's scroll, and picks that font when one is there.
pub open spec fn settings_click_spec(
    px: int,
    py: int,
    panel: (int, int, int, int),
    title_h: int,
    row_h: int,
    scroll: int,
    fonts_len: int,
) -> SettingsClick {
    let (x, y, w, h) = panel;
    if !(x <= px <= x + w && y <= py <= y + h) {
        SettingsClick::Close
    } else {
        let row = div_toward_zero(py - (y + title_h), row_h);
        let idx = scroll + row;
        if row >= 0 && idx >= 0 && idx < fonts_len {
            SettingsClick::Pick(idx as usize)
        } else {
            SettingsClick::Nothing
        }
    }
}

/// What a click on the settings dialog does (see [`settings_click_spec`]).
pub fn settings_click(
    px: i32,
    py: i32,
    panel: (i32, i32, i32, i32),
    title_h: i32,
    row_h: i32,
    scroll: usize,
    fonts_len: usize,
) -> (r: SettingsClick)
    requires
        row_h > 0,
        scroll <= i32::MAX,
    ensures
        r == settings_click_spec(
            px as int,
            py as int,
            (panel.0 as int, panel.1 as int, panel.2 as int, panel.3 as int),
            title_h as int,
            row_h as int,
            scroll as int,
            fonts_len as int,
        ),
{
    let (x, y, w, h) = (panel.0 as i64, panel.1 as i64, panel.2 as i64, panel.3 as i64);
    let (mx, my) = (px as i64, py as i64);
    if !(mx >= x && mx <= x + w && my >= y && my <= y + h) {
        return SettingsClick::Close;
    }
    let d: i64 = my - (y + title_h as i64);
    let rh = row_h as i64;
    let row: i64 = if d >= 0 {
        d / rh
    } else {
        -((-d) / rh)
    };
    let idx: i64 = scroll as i64 + row;
    if row >= 0 && idx >= 0 && (idx as u64) < (fonts_len as u64) {
        SettingsClick::Pick(idx as usize)
    } else {
        SettingsClick::Nothing
    }
}

/// The settings list's scroll after the wheel moves it by `delta` rows:
/// clamped between 0 and the last scroll that still fills the visible rows.
pub open spec fn settings_scroll_spec(scroll: int, delta: int, fonts_len: int) -> int {
    let max = if fonts_len > SETTINGS_VISIBLE_ROWS {
        fonts_len - SETTINGS_VISIBLE_ROWS
    } else {
        0
    };
    let s = scroll - delta;
    if s < 0 {
        0
    } else if s > max {
        max
    } else {
        s
    }
}

/// The settings list's scroll after a wheel step (see
/// [`settings_scroll_spec`]).
pub fn settings_scroll(scroll: usize, delta: i32, fonts_len: usize) -> (r: usize)
    requires
        scroll <= i32::MAX,
        fonts_len <= i32::MAX,
        i32::MIN <= scroll - delta <= i32::MAX,
    ensures
        r == settings_scroll_spec(scroll as int, delta as int, fonts_len as int),
{
    let max: i64 = if fonts_len > SETTINGS_VISIBLE_ROWS {
        (fonts_len - SETTINGS_VISIBLE_ROWS) as i64
    } else {
        0
    };
    let s: i64 = scroll as i64 - delta as i64;
    if s < 0 {
        0
    } else if s > max {
        max as usize
    } else {
        s as usize
    }
}

/// Whether a left click at `(px, py)` while the editor is open dismisses
/// it: when it falls outside the editor's panel `(x, y, w, h)`.
pub fn click_dismisses_editor(px: i32, py: i32, panel: (i32, i32, i32, i32)) -> (r: bool)
    ensures
        r == !(panel.0 <= px <= panel.0 + panel.2 && panel.1 <= py <= panel.1 + panel.3),
{
    let (x, y, w, h) = (panel.0 as i64, panel.1 as i64, panel.2 as i64, panel.3 as i64);
    !(px as i64 >= x && px as i64 <= x + w && py as i64 >= y && py as i64 <= y + h)
}

} // verus!
