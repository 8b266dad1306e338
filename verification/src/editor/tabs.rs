//! The editor's tabs: what each open document keeps while another one is
//! active, the geometry of the tab bar, what a click or the wheel on it
//! does, the index rules of closing and revealing tabs, the name a renamed
//! tab takes, and how a long tab name is cut to fit.

use crate::editor::history::{entries, put, take, EntryView, HistEntry, HistView, History, Run};
use crate::global_palette::{strip_md, strip_md_str};
use std::collections::VecDeque;
use crate::strings::{chars_of, empty_string, sb, string_push, to_string, trim, trim_bytes, utf8};
use vstd::prelude::*;

verus! {

/// Tab size and the spacing inside a tab.
pub const TAB_W: i32 = 130;
pub const TABS_H: i32 = 30;
pub const TAB_GAP: i32 = 2;
pub const TAB_NAME_LEFT_PAD: i32 = 8;
pub const CLOSE_W: i32 = 14;
pub const CLOSE_RIGHT_PAD: i32 = 6;

/// Horizontal step from one tab to the next.
pub open spec fn step() -> int {
    TAB_W + TAB_GAP
}

/// Left edge of tab `index` relative to the bar's left edge, after scroll.
pub open spec fn tab_left_spec(index: int, scroll: int) -> int {
    index * step() - scroll
}

/// Left edge of tab `index` relative to the bar's left edge, after scroll.
pub fn tab_left(index: usize, scroll: i32) -> (r: i32)
    requires
        index <= i32::MAX,
        i32::MIN <= tab_left_spec(index as int, scroll as int) <= i32::MAX,
    ensures
        r == tab_left_spec(index as int, scroll as int),
{
    let x: i64 = index as i64 * (TAB_W + TAB_GAP) as i64 - scroll as i64;
    x as i32
}

/// Width of `count` tabs laid side by side.
pub open spec fn total_width(count: int) -> int {
    count * step() - TAB_GAP
}

/// The largest scroll offset: the last tab's right edge at the viewport's.
pub open spec fn max_scroll(count: int, view_w: int) -> int {
    if count == 0 || total_width(count) - view_w <= 0 {
        0
    } else {
        total_width(count) - view_w
    }
}

/// Clamps a tab-bar scroll offset to `[0, max_scroll]`, so the bar never
/// scrolls past either end.
pub fn clamp_scroll(scroll: i32, count: usize, view_w: i32) -> (r: i32)
    requires
        count * step() <= i32::MAX,
        total_width(count as int) - view_w <= i32::MAX,
    ensures
        r == (if scroll < 0 {
            0
        } else if scroll > max_scroll(count as int, view_w as int) {
            max_scroll(count as int, view_w as int)
        } else {
            scroll as int
        }),
        0 <= r <= max_scroll(count as int, view_w as int),
{
    if count == 0 {
        return 0;
    }
    let total: i64 = count as i64 * (TAB_W + TAB_GAP) as i64 - TAB_GAP as i64;
    let over: i64 = total - view_w as i64;
    let max: i32 = if over > 0 {
        over as i32
    } else {
        0
    };
    if scroll < 0 {
        0
    } else if scroll > max {
        max
    } else {
        scroll
    }
}

/// Screen rectangle of tab `index` in a bar whose top-left is `(bar_x, bar_y)`.
pub fn tab_rect(index: usize, bar_x: i32, bar_y: i32, scroll: i32) -> (r: (i32, i32, i32, i32))
    requires
        index <= i32::MAX,
        i32::MIN <= tab_left_spec(index as int, scroll as int) <= i32::MAX,
        i32::MIN <= bar_x + tab_left_spec(index as int, scroll as int) <= i32::MAX,
    ensures
        r == ((bar_x + tab_left_spec(index as int, scroll as int)) as i32, bar_y, TAB_W, TABS_H),
{
    (bar_x + tab_left(index, scroll), bar_y, TAB_W, TABS_H)
}

/// Screen rectangle of the close box inside tab `index`: a `CLOSE_W` square
/// `CLOSE_RIGHT_PAD` in from the tab's right edge, centred vertically.
pub fn close_rect(index: usize, bar_x: i32, bar_y: i32, scroll: i32) -> (r: (i32, i32, i32, i32))
    requires
        index <= i32::MAX,
        i32::MIN <= tab_left_spec(index as int, scroll as int) <= i32::MAX,
        i32::MIN <= bar_x + tab_left_spec(index as int, scroll as int) <= i32::MAX - TAB_W,
        bar_y + (TABS_H - CLOSE_W) / 2 <= i32::MAX,
    ensures
        ({
            let x = bar_x + tab_left_spec(index as int, scroll as int);
            r == ((x + TAB_W - CLOSE_W - CLOSE_RIGHT_PAD) as i32, (bar_y + (TABS_H - CLOSE_W)
                / 2) as i32, CLOSE_W, CLOSE_W)
        }),
{
    let (x, _, w, _) = tab_rect(index, bar_x, bar_y, scroll);
    let cx = x + w - CLOSE_W - CLOSE_RIGHT_PAD;
    let cy = bar_y + (TABS_H - CLOSE_W) / 2;
    (cx, cy, CLOSE_W, CLOSE_W)
}

/// The scroll offset that brings tab `idx` fully into a `view_w` wide bar:
/// a tab cut off on the left scrolls right to its left edge, one cut off on
/// the right scrolls left to its right edge, and the result is clamped.
pub open spec fn reveal_spec(idx: int, scroll: int, count: int, view_w: int) -> int {
    let left = tab_left_spec(idx, scroll);
    let right = left + TAB_W;
    let vw = if view_w > 0 {
        view_w
    } else {
        0
    };
    let wanted = if left < 0 {
        scroll + left
    } else if right > vw {
        scroll + (right - view_w)
    } else {
        scroll
    };
    if wanted < 0 {
        0
    } else if wanted > max_scroll(count, view_w) {
        max_scroll(count, view_w)
    } else {
        wanted
    }
}

/// New tab-bar scroll offset after activating tab `idx` (see [`reveal_spec`]).
pub fn reveal_scroll(idx: usize, scroll: i32, count: usize, view_w: i32) -> (r: i32)
    requires
        idx < count,
        count * step() <= i32::MAX,
        0 <= scroll <= max_scroll(count as int, view_w as int),
        total_width(count as int) - view_w <= i32::MAX,
        view_w >= 0,
    ensures
        r == reveal_spec(idx as int, scroll as int, count as int, view_w as int),
        0 <= r <= max_scroll(count as int, view_w as int),
{
    let left = tab_left(idx, scroll);
    let right: i64 = left as i64 + TAB_W as i64;
    let vw: i64 = if view_w > 0 {
        view_w as i64
    } else {
        0
    };
    let wanted: i64 = if left < 0 {
        scroll as i64 + left as i64
    } else if right > vw {
        scroll as i64 + (right - view_w as i64)
    } else {
        scroll as i64
    };
    let total: i64 = count as i64 * (TAB_W + TAB_GAP) as i64 - TAB_GAP as i64;
    let over: i64 = total - view_w as i64;
    let max: i64 = if over > 0 {
        over
    } else {
        0
    };
    if wanted < 0 {
        0
    } else if wanted > max {
        max as i32
    } else {
        wanted as i32
    }
}

/// The tabs that stay visible after a reveal hold the revealed tab: with a
/// bar at least one tab wide, tab `idx` lies entirely inside it.
pub proof fn lemma_reveal_shows_tab(idx: int, scroll: int, count: int, view_w: int)
    requires
        0 <= idx < count,
        0 <= scroll <= max_scroll(count, view_w),
        view_w >= TAB_W,
    ensures
        ({
            let s = reveal_spec(idx, scroll, count, view_w);
            0 <= tab_left_spec(idx, s) && tab_left_spec(idx, s) + TAB_W <= view_w
        }),
{
    assert(idx * step() >= 0) by (nonlinear_arith)
        requires
            idx >= 0,
    ;
    assert((idx + 1) * step() == idx * step() + step()) by (nonlinear_arith);
    assert((idx + 1) * step() <= count * step()) by (nonlinear_arith)
        requires
            idx + 1 <= count,
    ;
}

/// Where the active tab goes when tab `idx` of `len` closes: `None` when the
/// closed tab was the only one left; the neighbour that slid into its slot
/// (or the new last tab) when it was the active one; one lower when it sat
/// right of the closed tab; unchanged otherwise.
pub open spec fn active_after_close_spec(active: Option<usize>, idx: int, len: int) -> Option<usize> {
    match active {
        Some(a) => if a == idx {
            if len <= 1 {
                None
            } else if idx < len - 1 {
                Some(idx as usize)
            } else {
                Some((len - 2) as usize)
            }
        } else if a > idx {
            Some((a - 1) as usize)
        } else {
            Some(a)
        },
        None => None,
    }
}

/// The active tab index after closing tab `idx` of `len` (see
/// [`active_after_close_spec`]); `closes_editor` tells whether the last tab
/// went.
pub fn active_after_close(active: Option<usize>, idx: usize, len: usize) -> (r: (
    Option<usize>,
    bool,
))
    requires
        idx < len,
    ensures
        r.0 == active_after_close_spec(active, idx as int, len as int),
        r.1 == (active == Some(idx) && len == 1),
        (active matches Some(a) && a < len) ==> (r.0 matches Some(n) ==> n < len - 1),
{
    match active {
        Some(a) => {
            if a == idx {
                if len <= 1 {
                    (None, true)
                } else if idx < len - 1 {
                    (Some(idx), false)
                } else {
                    (Some(len - 2), false)
                }
            } else if a > idx {
                (Some(a - 1), false)
            } else {
                (Some(a), false)
            }
        },
        None => (None, false),
    }
}

/// What a left press on the tab bar does.
#[derive(Debug, Clone, Copy, PartialEq, Eq, Structural)]
pub enum BarClick {
    /// The press is not on the bar.
    Outside,
    /// The bar takes the press and nothing else happens.
    Nothing,
    /// The close box of this tab was hit.
    Close(usize),
    /// This tab was clicked.
    Activate(usize),
}

/// Whether `(mx, my)` lies on the bar: its full height, between its left
/// and right edges.
pub open spec fn in_bar(mx: int, my: int, bar_x: int, bar_y: int, bar_w: int) -> bool {
    bar_y <= my < bar_y + TABS_H && bar_x <= mx <= bar_x + bar_w
}

/// Whether `(mx, my)` lies in the close box of tab `i` (see [`close_rect`]).
pub open spec fn close_hit(i: int, mx: int, my: int, bar_x: int, bar_y: int, scroll: int) -> bool {
    let cx = bar_x + tab_left_spec(i, scroll) + TAB_W - CLOSE_W - CLOSE_RIGHT_PAD;
    let cy = bar_y + (TABS_H - CLOSE_W) / 2;
    cx <= mx <= cx + CLOSE_W && cy <= my <= cy + CLOSE_W
}

/// Whether tab `i` shows in the bar and spans column `mx`.
pub open spec fn tab_hit(i: int, mx: int, bar_x: int, bar_w: int, scroll: int) -> bool {
    let x = bar_x + tab_left_spec(i, scroll);
    !(x + TAB_W <= bar_x || x >= bar_x + bar_w) && x <= mx <= x + TAB_W
}

/// The first tab from `i` on whose close box holds the point.
pub open spec fn first_close_hit(
    i: int,
    count: int,
    mx: int,
    my: int,
    bar_x: int,
    bar_y: int,
    scroll: int,
) -> Option<int>
    decreases count - i,
{
    if i >= count {
        None
    } else if close_hit(i, mx, my, bar_x, bar_y, scroll) {
        Some(i)
    } else {
        first_close_hit(i + 1, count, mx, my, bar_x, bar_y, scroll)
    }
}

/// The first tab from `i` on that shows in the bar and spans column `mx`.
pub open spec fn first_tab_hit(i: int, count: int, mx: int, bar_x: int, bar_w: int, scroll: int) -> Option<
    int,
>
    decreases count - i,
{
    if i >= count {
        None
    } else if tab_hit(i, mx, bar_x, bar_w, scroll) {
        Some(i)
    } else {
        first_tab_hit(i + 1, count, mx, bar_x, bar_w, scroll)
    }
}

/// What a left press at `(mx, my)` on a bar of `count` tabs does: off the
/// bar nothing; a close box (the first hit) closes its tab ahead of any
/// tab under the pointer; otherwise the first tab shown under the pointer's
/// column becomes active.
pub open spec fn bar_click_spec(
    mx: int,
    my: int,
    bar_x: int,
    bar_y: int,
    bar_w: int,
    count: int,
    scroll: int,
) -> BarClick {
    if !in_bar(mx, my, bar_x, bar_y, bar_w) {
        BarClick::Outside
    } else {
        match first_close_hit(0, count, mx, my, bar_x, bar_y, scroll) {
            Some(i) => BarClick::Close(i as usize),
            None => match first_tab_hit(0, count, mx, bar_x, bar_w, scroll) {
                Some(i) => BarClick::Activate(i as usize),
                None => BarClick::Nothing,
            },
        }
    }
}

/// What a left press on the tab bar does (see [`bar_click_spec`]).
pub fn bar_click(
    mx: i32,
    my: i32,
    bar_x: i32,
    bar_y: i32,
    bar_w: i32,
    count: usize,
    scroll: i32,
) -> (r: BarClick)
    requires
        count * step() <= i32::MAX,
    ensures
        r == bar_click_spec(
            mx as int,
            my as int,
            bar_x as int,
            bar_y as int,
            bar_w as int,
            count as int,
            scroll as int,
        ),
{
    let px = mx as i64;
    let py = my as i64;
    let bx = bar_x as i64;
    let by = bar_y as i64;
    let bw = bar_w as i64;
    let sc = scroll as i64;
    let st: i64 = (TAB_W + TAB_GAP) as i64;
    if !(py >= by && py < by + TABS_H as i64 && px >= bx && px <= bx + bw) {
        return BarClick::Outside;
    }
    let mut i: usize = 0;
    while i < count
        invariant
            i <= count,
            count * step() <= i32::MAX,
            st == step(),
            bx == bar_x,
            by == bar_y,
            sc == scroll,
            px == mx,
            py == my,
            in_bar(mx as int, my as int, bar_x as int, bar_y as int, bar_w as int),
            first_close_hit(0, count as int, px as int, py as int, bx as int, by as int, sc as int)
                == first_close_hit(
                i as int,
                count as int,
                px as int,
                py as int,
                bx as int,
                by as int,
                sc as int,
            ),
        decreases count - i,
    {
        let off: i64 = i as i64 * st;
        let cx = bx + off - sc + (TAB_W - CLOSE_W - CLOSE_RIGHT_PAD) as i64;
        let cy = by + ((TABS_H - CLOSE_W) / 2) as i64;
        if px >= cx && px <= cx + CLOSE_W as i64 && py >= cy && py <= cy + CLOSE_W as i64 {
            return BarClick::Close(i);
        }
        i = i + 1;
    }
    let mut j: usize = 0;
    while j < count
        invariant
            j <= count,
            count * step() <= i32::MAX,
            st == step(),
            bx == bar_x,
            by == bar_y,
            bw == bar_w,
            sc == scroll,
            px == mx,
            py == my,
            in_bar(mx as int, my as int, bar_x as int, bar_y as int, bar_w as int),
            first_close_hit(0, count as int, px as int, py as int, bx as int, by as int, sc as int)
                is None,
            first_tab_hit(0, count as int, px as int, bx as int, bw as int, sc as int)
                == first_tab_hit(j as int, count as int, px as int, bx as int, bw as int, sc as int),
        decreases count - j,
    {
        let off: i64 = j as i64 * st;
        let x = bx + off - sc;
        let shown = !(x + TAB_W as i64 <= bx || x >= bx + bw);
        if shown && px >= x && px <= x + TAB_W as i64 {
            return BarClick::Activate(j);
        }
        j = j + 1;
    }
    BarClick::Nothing
}


/// Where a document's view stands: caret and selection anchor (column `x`,
/// line `y`), vertical scroll, whether it has unsaved edits, and when it was
/// last edited.
#[derive(Clone, Copy, Debug, PartialEq, Eq, Structural)]
pub struct DocView {
    pub cursor_x: i32,
    pub cursor_y: i32,
    pub anchor_x: i32,
    pub anchor_y: i32,
    pub scroll: i32,
    pub dirty: bool,
    pub last_edit_ms: u64,
}

/// The view of a tab that was never shown: caret and anchor at the `-1`
/// marker, nothing else kept.
pub open spec fn fresh_view() -> DocView {
    DocView {
        cursor_x: -1i32,
        cursor_y: -1i32,
        anchor_x: -1i32,
        anchor_y: -1i32,
        scroll: 0,
        dirty: false,
        last_edit_ms: 0,
    }
}

/// The view as it is parked when its document is left: unchanged, but
/// saved and so with no edit pending.
pub open spec fn parked_view(v: DocView) -> DocView {
    DocView {
        cursor_x: v.cursor_x,
        cursor_y: v.cursor_y,
        anchor_x: v.anchor_x,
        anchor_y: v.anchor_y,
        scroll: v.scroll,
        dirty: false,
        last_edit_ms: 0,
    }
}

/// The live view once a tab's parked view `t` comes back over `loaded`, the
/// view that loading its text set up: a tab never shown keeps the loaded
/// caret and anchor, any other gets its own back; scroll, unsaved flag and
/// edit time come from the tab.
pub open spec fn restored_view(t: DocView, loaded: DocView) -> DocView {
    let keep = t.cursor_x == -1 && t.cursor_y == -1;
    DocView {
        cursor_x: if keep {
            loaded.cursor_x
        } else {
            t.cursor_x
        },
        cursor_y: if keep {
            loaded.cursor_y
        } else {
            t.cursor_y
        },
        anchor_x: if keep {
            loaded.anchor_x
        } else {
            t.anchor_x
        },
        anchor_y: if keep {
            loaded.anchor_y
        } else {
            t.anchor_y
        },
        scroll: t.scroll,
        dirty: t.dirty,
        last_edit_ms: t.last_edit_ms,
    }
}

/// One open document: its name and path, and what it keeps while another
/// document is active (its view and its undo and redo stacks).
pub struct Tab<P> {
    pub name: String,
    pub path: P,
    pub view: DocView,
    pub undo: VecDeque<HistEntry>,
    pub redo: VecDeque<HistEntry>,
    pub run: Run,
}

/// The undo history a tab keeps.
pub open spec fn kept_history<P>(t: Tab<P>) -> HistView {
    (entries(t.undo@), entries(t.redo@), t.run)
}

/// An empty history.
pub open spec fn no_history() -> HistView {
    (Seq::<EntryView>::empty(), Seq::<EntryView>::empty(), None::<(i32, i32, u64)>)
}

/// Parking the live view `live` and history `h` on a tab: what the tab then
/// keeps (view, history) and what stays live (view, history).
pub open spec fn park_spec(live: DocView, h: HistView) -> (DocView, HistView, DocView, HistView) {
    (parked_view(live), h, parked_view(live), no_history())
}

/// Bringing back a tab that keeps view `tv` and history `th` over the live
/// view `loaded`: the live view and history that result.
pub open spec fn unpark_spec(tv: DocView, th: HistView, loaded: DocView) -> (DocView, HistView) {
    (restored_view(tv, loaded), th)
}

impl<P> Tab<P> {
    /// A tab for a document not shown yet.
    pub fn new(name: String, path: P) -> (r: Tab<P>)
        ensures
            r.name == name,
            r.path == path,
            r.view == fresh_view(),
            kept_history(r) == no_history(),
    {
        let r = Tab {
            name,
            path,
            view: DocView {
                cursor_x: -1,
                cursor_y: -1,
                anchor_x: -1,
                anchor_y: -1,
                scroll: 0,
                dirty: false,
                last_edit_ms: 0,
            },
            undo: VecDeque::new(),
            redo: VecDeque::new(),
            run: None,
        };
        assert(entries(r.undo@) =~= Seq::<EntryView>::empty());
        assert(entries(r.redo@) =~= Seq::<EntryView>::empty());
        r
    }
}

/// Parks the live state of the document being left on its tab: its view and
/// its whole undo history, which leaves the live history empty. Returns
/// whether the document had unsaved edits, which the caller then saves; the
/// tab and the live view come out clean either way.
pub fn park<P>(tab: &mut Tab<P>, live: &mut DocView, history: &mut History) -> (flush: bool)
    ensures
        flush == old(live).dirty,
        final(tab).name == old(tab).name,
        final(tab).path == old(tab).path,
        (final(tab).view, kept_history(*final(tab)), *final(live), final(history)@) == park_spec(
            *old(live),
            old(history)@,
        ),
{
    let flush = live.dirty;
    let (undo, redo, run) = take(history);
    tab.undo = undo;
    tab.redo = redo;
    tab.run = run;
    live.dirty = false;
    live.last_edit_ms = 0;
    tab.view = *live;
    flush
}

/// Brings a tab's parked state back as the live state, once the caller has
/// loaded its text (which set up `live`): the view as [`restored_view`]
/// says, and its undo history. The tab is left holding nothing but the
/// open typing burst.
pub fn unpark<P>(tab: &mut Tab<P>, live: &mut DocView, history: &mut History)
    ensures
        (*final(live), final(history)@) == unpark_spec(
            old(tab).view,
            kept_history(*old(tab)),
            *old(live),
        ),
        final(tab).name == old(tab).name,
        final(tab).path == old(tab).path,
        final(tab).view == fresh_view(),
        kept_history(*final(tab)) == (
            Seq::<EntryView>::empty(),
            Seq::<EntryView>::empty(),
            old(tab).run,
        ),
{
    let t = tab.view;
    if !(t.cursor_x == -1 && t.cursor_y == -1) {
        live.cursor_x = t.cursor_x;
        live.cursor_y = t.cursor_y;
        live.anchor_x = t.anchor_x;
        live.anchor_y = t.anchor_y;
    }
    live.scroll = t.scroll;
    live.dirty = t.dirty;
    live.last_edit_ms = t.last_edit_ms;
    let mut undo = VecDeque::new();
    let mut redo = VecDeque::new();
    std::mem::swap(&mut undo, &mut tab.undo);
    std::mem::swap(&mut redo, &mut tab.redo);
    put(history, undo, redo, tab.run);
    tab.view = DocView {
        cursor_x: -1,
        cursor_y: -1,
        anchor_x: -1,
        anchor_y: -1,
        scroll: 0,
        dirty: false,
        last_edit_ms: 0,
    };
    assert(entries(tab.undo@) =~= Seq::<EntryView>::empty());
    assert(entries(tab.redo@) =~= Seq::<EntryView>::empty());
}

/// Leaving a document for another tab and coming back to it gives back its
/// caret, selection anchor and scroll, saved and with no edit pending,
/// whatever view loading its text set up, and the undo history it was left
/// with.
pub proof fn lemma_switch_back_restores(live: DocView, h: HistView, loaded: DocView)
    requires
        !(live.cursor_x == -1 && live.cursor_y == -1),
    ensures
        ({
            let p = park_spec(live, h);
            unpark_spec(p.0, p.1, loaded)
        }) == (parked_view(live), h),
{
}

/// Index of the first tab whose path `same` reports equal to `path`.
pub fn find_tab<P, F: Fn(&P, &P) -> bool>(tabs: &Vec<Tab<P>>, path: &P, same: &F) -> (r: Option<usize>)
    requires
        forall|a: &P, b: &P| call_requires(*same, (a, b)),
    ensures
        match r {
            Some(i) => {
                &&& i < tabs@.len()
                &&& call_ensures(*same, (&tabs@[i as int].path, path), true)
                &&& forall|j: int|
                    0 <= j < i ==> call_ensures(*same, (&(#[trigger] tabs@[j]).path, path), false)
            },
            None => forall|j: int|
                0 <= j < tabs@.len() ==> call_ensures(
                    *same,
                    (&(#[trigger] tabs@[j]).path, path),
                    false,
                ),
        },
{
    let mut i: usize = 0;
    while i < tabs.len()
        invariant
            i <= tabs@.len(),
            forall|a: &P, b: &P| call_requires(*same, (a, b)),
            forall|j: int|
                0 <= j < i ==> call_ensures(*same, (&(#[trigger] tabs@[j]).path, path), false),
        decreases tabs@.len() - i,
    {
        if same(&tabs[i].path, path) {
            return Some(i);
        }
        i = i + 1;
    }
    None
}

/// Opens the document `path` as a tab: the tab already showing it, if any
/// (see [`find_tab`]), or else a new tab for it added at the end. Returns
/// the tab's index.
pub fn open_tab<P, F: Fn(&P, &P) -> bool>(tabs: &mut Vec<Tab<P>>, name: String, path: P, same: &F) -> (r: usize)
    requires
        forall|a: &P, b: &P| call_requires(*same, (a, b)),
    ensures
        r < final(tabs)@.len(),
        forall|j: int|
            0 <= j < r && j < old(tabs)@.len() ==> call_ensures(
                *same,
                (&(#[trigger] old(tabs)@[j]).path, &path),
                false,
            ),
        r < old(tabs)@.len() ==> {
            &&& final(tabs)@ == old(tabs)@
            &&& call_ensures(*same, (&old(tabs)@[r as int].path, &path), true)
        },
        r == old(tabs)@.len() ==> {
            &&& final(tabs)@.len() == old(tabs)@.len() + 1
            &&& final(tabs)@.take(r as int) == old(tabs)@
            &&& final(tabs)@[r as int].name == name
            &&& final(tabs)@[r as int].path == path
            &&& final(tabs)@[r as int].view == fresh_view()
            &&& kept_history(final(tabs)@[r as int]) == no_history()
        },
{
    match find_tab(tabs, &path, same) {
        Some(i) => i,
        None => {
            let ghost before = tabs@;
            let n = tabs.len();
            tabs.push(Tab::new(name, path));
            assert(tabs@.take(n as int) =~= before);
            n
        },
    }
}

/// What closing a tab leaves to the caller: the closed tab itself (holding
/// its parked state when it was the active one), whether its unsaved edits
/// must be saved, the new active tab (whose parked state the caller brings
/// back with [`unpark`] once its text is loaded, when the closed tab was
/// the active one), and whether the last tab went.
pub struct Closed<P> {
    pub tab: Tab<P>,
    pub flush: bool,
    pub active: Option<usize>,
    pub closes_editor: bool,
}

/// Closes tab `idx`: nothing happens past the last tab. Closing the active
/// tab parks the live state on it first (see [`park`]); the other tabs keep
/// their order and the active index follows [`active_after_close_spec`].
pub fn close_tab<P>(
    tabs: &mut Vec<Tab<P>>,
    active: Option<usize>,
    idx: usize,
    live: &mut DocView,
    history: &mut History,
) -> (r: Option<Closed<P>>)
    ensures
        idx >= old(tabs)@.len() ==> r is None && final(tabs)@ == old(tabs)@ && *final(live)
            == *old(live) && final(history)@ == old(history)@,
        idx < old(tabs)@.len() ==> (r matches Some(c) && {
            &&& final(tabs)@ == old(tabs)@.remove(idx as int)
            &&& c.active == active_after_close_spec(active, idx as int, old(tabs)@.len() as int)
            &&& c.closes_editor == (active == Some(idx) && old(tabs)@.len() == 1)
            &&& c.tab.name == old(tabs)@[idx as int].name
            &&& c.tab.path == old(tabs)@[idx as int].path
            &&& active == Some(idx) ==> {
                &&& c.flush == old(live).dirty
                &&& (c.tab.view, kept_history(c.tab), *final(live), final(history)@) == park_spec(
                    *old(live),
                    old(history)@,
                )
            }
            &&& active != Some(idx) ==> {
                &&& !c.flush
                &&& c.tab == old(tabs)@[idx as int]
                &&& *final(live) == *old(live)
                &&& final(history)@ == old(history)@
            }
        }),
{
    let n = tabs.len();
    if idx >= n {
        return None;
    }
    let (next, closes_editor) = active_after_close(active, idx, n);
    let mut tab = tabs.remove(idx);
    let flush = if active == Some(idx) {
        park(&mut tab, live, history)
    } else {
        false
    };
    Some(Closed { tab, flush, active: next, closes_editor })
}

/// Before tab `idx` becomes the active document: parks the live state on
/// the active tab when that is another one (see [`park`]) and returns
/// whether its unsaved edits must be saved. The caller then loads tab
/// `idx`'s text and brings its state back with [`unpark`].
pub fn leave_for<P>(
    tabs: &mut Vec<Tab<P>>,
    active: Option<usize>,
    idx: usize,
    live: &mut DocView,
    history: &mut History,
) -> (flush: bool)
    ensures
        final(tabs)@.len() == old(tabs)@.len(),
        (active matches Some(p) && p < old(tabs)@.len() && p != idx) ==> {
            let p = active->0 as int;
            &&& flush == old(live).dirty
            &&& final(tabs)@[p].name == old(tabs)@[p].name
            &&& final(tabs)@[p].path == old(tabs)@[p].path
            &&& park_spec(*old(live), old(history)@) == (
                final(tabs)@[p].view,
                kept_history(final(tabs)@[p]),
                *final(live),
                final(history)@,
            )
            &&& forall|j: int| 0 <= j < old(tabs)@.len() && j != p ==> final(tabs)@[j] == old(tabs)@[j]
        },
        !(active matches Some(p) && p < old(tabs)@.len() && p != idx) ==> {
            &&& !flush
            &&& final(tabs)@ == old(tabs)@
            &&& *final(live) == *old(live)
            &&& final(history)@ == old(history)@
        },
{
    match active {
        Some(p) => {
            if p < tabs.len() && p != idx {
                park(&mut tabs[p], live, history)
            } else {
                false
            }
        },
        None => false,
    }
}

/// Pixels the tab bar scrolls per wheel notch.
pub const TAB_SCROLL_STEP: i32 = 40;

/// The bar's scroll after `wheel` notches of the mouse wheel with the
/// pointer at `(mx, my)`: none when the wheel did not move or the pointer
/// is off the bar; otherwise the scroll moved back by [`TAB_SCROLL_STEP`]
/// per notch, clamped (see [`clamp_scroll`]).
pub fn bar_wheel(
    mx: i32,
    my: i32,
    bar_x: i32,
    bar_y: i32,
    bar_w: i32,
    wheel: i32,
    count: usize,
    scroll: i32,
) -> (r: Option<i32>)
    requires
        count * step() <= i32::MAX,
        total_width(count as int) - bar_w <= i32::MAX,
        i32::MIN <= wheel * TAB_SCROLL_STEP <= i32::MAX,
        i32::MIN <= scroll - wheel * TAB_SCROLL_STEP <= i32::MAX,
    ensures
        wheel == 0 || !in_bar(mx as int, my as int, bar_x as int, bar_y as int, bar_w as int)
            ==> r is None,
        wheel != 0 && in_bar(mx as int, my as int, bar_x as int, bar_y as int, bar_w as int) ==> {
            let moved = scroll - wheel * TAB_SCROLL_STEP;
            &&& r matches Some(v)
            &&& v == (if moved < 0 {
                0
            } else if moved > max_scroll(count as int, bar_w as int) {
                max_scroll(count as int, bar_w as int)
            } else {
                moved
            })
        },
{
    if wheel == 0 {
        return None;
    }
    let px = mx as i64;
    let py = my as i64;
    if !(py >= bar_y as i64 && py < bar_y as i64 + TABS_H as i64 && px >= bar_x as i64 && px
        <= bar_x as i64 + bar_w as i64) {
        return None;
    }
    let moved = scroll - wheel * TAB_SCROLL_STEP;
    Some(clamp_scroll(moved, count, bar_w))
}

/// The name a tab renamed to `new_name` takes: the name without
/// surrounding whitespace and trailing `.md` suffixes; none when that is
/// empty or the note's current stem.
pub open spec fn rename_target_spec(new_name: Seq<u8>, old_stem: Seq<u8>) -> Option<Seq<u8>> {
    let clean = strip_md(trim_bytes(new_name));
    if clean.len() == 0 || clean == old_stem {
        None
    } else {
        Some(clean)
    }
}

/// The name a tab renamed to `new_name` takes, if any (see
/// [`rename_target_spec`]).
pub fn rename_target(new_name: &str, old_stem: &str) -> (r: Option<String>)
    ensures
        match r {
            Some(s) => rename_target_spec(sb(new_name), sb(old_stem)) == Some(utf8(s@)),
            None => rename_target_spec(sb(new_name), sb(old_stem)) is None,
        },
{
    let clean = strip_md_str(trim(new_name));
    let c = clean.as_bytes();
    let o = old_stem.as_bytes();
    if c.len() == 0 {
        return None;
    }
    let mut same = c.len() == o.len();
    let mut k: usize = 0;
    while same && k < c.len()
        invariant
            k <= c@.len(),
            same ==> c@.len() == o@.len(),
            same ==> c@.subrange(0, k as int) == o@.subrange(0, k as int),
            !same ==> c@ != o@,
        decreases c@.len() - k,
    {
        if c[k] != o[k] {
            same = false;
        } else {
            assert(c@.subrange(0, k + 1) =~= c@.subrange(0, k as int).push(c@[k as int]));
            assert(o@.subrange(0, k + 1) =~= o@.subrange(0, k as int).push(o@[k as int]));
        }
        k = k + 1;
    }
    if same {
        assert(c@ =~= c@.subrange(0, c@.len() as int));
        assert(o@ =~= o@.subrange(0, o@.len() as int));
        None
    } else {
        Some(to_string(clean))
    }
}

/// `w` is a width the measuring function can give `text` at `size`.
pub open spec fn label_measured<F: Fn(&str, i32) -> i32>(measure: F, text: Seq<char>, size: i32, w: i32) -> bool {
    exists|a: &str| a@ == text && #[trigger] call_ensures(measure, (a, size), w)
}

/// `text` drawn at `size` fits within `max`.
pub open spec fn label_fits<F: Fn(&str, i32) -> i32>(measure: F, text: Seq<char>, size: i32, max: int) -> bool {
    exists|w: i32| #[trigger] label_measured(measure, text, size, w) && w <= max
}

/// `text` drawn at `size` is wider than `max`.
pub open spec fn label_overflows<F: Fn(&str, i32) -> i32>(
    measure: F,
    text: Seq<char>,
    size: i32,
    max: int,
) -> bool {
    exists|w: i32| #[trigger] label_measured(measure, text, size, w) && w > max
}

/// The first `k` characters of `name` followed by an ellipsis.
pub open spec fn cut_label(name: Seq<char>, k: int) -> Seq<char> {
    name.take(k).push('\u{2026}')
}

/// The label drawn for a tab named `name` in `max_w` pixels: the name when
/// it fits; otherwise the longest cut of it (dropping characters from the
/// end, at least one) that fits with an ellipsis after it, down to the
/// ellipsis alone.
pub fn tab_label<F: Fn(&str, i32) -> i32>(name: &str, size: i32, max_w: i32, measure: F) -> (r: String)
    requires
        forall|a: &str, s: i32| call_requires(measure, (a, s)),
    ensures
        (r@ == name@ && label_fits(measure, name@, size, max_w as int)) || {
            &&& label_overflows(measure, name@, size, max_w as int)
            &&& exists|k: int|
                0 <= k && (k < name@.len() || k == 0) && r@ == #[trigger] cut_label(name@, k) && (k
                    == 0 || label_fits(measure, cut_label(name@, k), size, max_w as int))
                    && forall|j: int|
                    k < j < name@.len() ==> #[trigger] label_overflows(
                        measure,
                        cut_label(name@, j),
                        size,
                        max_w as int,
                    )
        },
{
    let tw = measure(name, size);
    proof {
        assert(label_measured(measure, name@, size, tw));
    }
    if tw <= max_w {
        return to_string(name);
    }
    let chars = chars_of(name);
    let n = chars.len();
    let mut k = n;
    loop
        invariant
            k <= n == chars@.len(),
            chars@ == name@,
            forall|a: &str, s: i32| call_requires(measure, (a, s)),
            label_overflows(measure, name@, size, max_w as int),
            forall|j: int|
                k <= j < n ==> #[trigger] label_overflows(measure, cut_label(name@, j), size, max_w as int),
        decreases k,
    {
        if k > 0 {
            k = k - 1;
        }
        let mut cut = empty_string();
        let mut i: usize = 0;
        while i < k
            invariant
                i <= k <= n == chars@.len(),
                cut@ == chars@.take(i as int),
            decreases k - i,
        {
            string_push(&mut cut, chars[i]);
            assert(chars@.take(i + 1) =~= chars@.take(i as int).push(chars@[i as int]));
            i = i + 1;
        }
        string_push(&mut cut, '\u{2026}');
        let w = measure(cut.as_str(), size);
        proof {
            assert(cut@ == cut_label(name@, k as int));
            assert(label_measured(measure, cut_label(name@, k as int), size, w));
        }
        if w <= max_w || k == 0 {
            proof {
                let kk = k as int;
                assert(0 <= kk && (kk < name@.len() || kk == 0) && cut@ == cut_label(name@, kk));
                if kk > 0 {
                    assert(label_fits(measure, cut_label(name@, kk), size, max_w as int));
                }
            }
            return cut;
        }
        proof {
            assert(label_overflows(measure, cut_label(name@, k as int), size, max_w as int));
        }
    }
}

} // verus!
