//! Two-stack undo history with typing-burst coalescing.
//!
//! Entries are whole-buffer snapshots. A run of plain character inserts at an
//! unmoved caret within a short window is one undo step.

use crate::strings::copy_lines;
use std::collections::VecDeque;
use vstd::prelude::*;

verus! {

/// Maximum number of undo (or redo) steps kept; the oldest is dropped beyond.
pub const MAX_ENTRIES: usize = 1000;

/// Window (ms) within which two character inserts at an unmoved caret belong
/// to one typing burst.
pub const COALESCE_MS: u64 = 500;

#[derive(Debug)]
pub struct HistEntry {
    pub lines: Vec<String>,
    pub cursor: (i32, i32),
}

/// A history entry as the lines it holds and its caret.
pub type EntryView = (Seq<String>, (i32, i32));

impl View for HistEntry {
    type V = EntryView;

    open spec fn view(&self) -> EntryView {
        (self.lines@, self.cursor)
    }
}

/// What kind of edit is about to run.
#[derive(Clone, Copy, PartialEq, Eq, Debug, Structural)]
pub enum EditKind {
    /// A single typed character inserted at the caret.
    CharInsert,
    /// Everything else: paste, delete, backspace, tab, completion...
    Other,
}

/// The open typing burst: caret after the last accepted character and when.
pub type Run = Option<(i32, i32, u64)>;

/// Undo and redo stacks (newest last) and the open typing burst.
pub struct History {
    undo: VecDeque<HistEntry>,
    redo: VecDeque<HistEntry>,
    run: Run,
}

/// Model of a [`History`]: undo entries, redo entries, open burst.
pub type HistView = (Seq<EntryView>, Seq<EntryView>, Run);

pub open spec fn entries(d: Seq<HistEntry>) -> Seq<EntryView> {
    d.map_values(|e: HistEntry| e@)
}

impl View for History {
    type V = HistView;

    closed spec fn view(&self) -> HistView {
        (entries(self.undo@), entries(self.redo@), self.run)
    }
}

/// A stack cut down to its newest [`MAX_ENTRIES`] entries.
pub open spec fn capped(s: Seq<EntryView>) -> Seq<EntryView> {
    if s.len() > MAX_ENTRIES {
        s.subrange(s.len() - MAX_ENTRIES, s.len() as int)
    } else {
        s
    }
}

/// `now - at`, saturating at zero.
pub open spec fn elapsed(now: u64, at: u64) -> int {
    if now >= at {
        now - at
    } else {
        0
    }
}

/// A character insert at `caret` extends the open burst: the caret has not
/// moved since the last accepted character and little time has passed.
pub open spec fn continues_burst(run: Run, caret: (i32, i32), now: u64) -> bool {
    match run {
        Some((y, x, at)) => y == caret.0 && x == caret.1 && elapsed(now, at) <= COALESCE_MS,
        None => false,
    }
}

/// The snapshot pushes a new undo step.
pub open spec fn pushes(h: HistView, caret: (i32, i32), kind: EditKind, now: u64) -> bool {
    !(kind == EditKind::CharInsert && continues_burst(h.2, caret, now))
}

/// History after recording that `state` (caret `caret`) is about to be edited.
pub open spec fn snapshot_spec(
    h: HistView,
    state: Seq<String>,
    caret: (i32, i32),
    kind: EditKind,
    now: u64,
) -> HistView {
    let run: Run = if kind == EditKind::CharInsert {
        Some((caret.0, (caret.1 + 1) as i32, now))
    } else {
        None
    };
    if pushes(h, caret, kind, now) {
        (capped(h.0.push((state, caret))), Seq::empty(), run)
    } else {
        (h.0, h.1, run)
    }
}

/// History after an undo from `current`, and the entry restored.
pub open spec fn undo_spec(h: HistView, current: Seq<String>, caret: (i32, i32)) -> (
    HistView,
    Option<EntryView>,
) {
    if h.0.len() == 0 {
        ((h.0, h.1, None), None)
    } else {
        ((h.0.drop_last(), capped(h.1.push((current, caret))), None), Some(h.0.last()))
    }
}

/// History after a redo from `current`, and the entry restored.
pub open spec fn redo_spec(h: HistView, current: Seq<String>, caret: (i32, i32)) -> (
    HistView,
    Option<EntryView>,
) {
    if h.1.len() == 0 {
        ((h.0, h.1, None), None)
    } else {
        ((capped(h.0.push((current, caret))), h.1.drop_last(), None), Some(h.1.last()))
    }
}

impl History {
    /// An empty history.
    pub fn new() -> (r: History)
        ensures
            r@ == (Seq::<EntryView>::empty(), Seq::<EntryView>::empty(), None::<(i32, i32, u64)>),
    {
        let r = History { undo: VecDeque::new(), redo: VecDeque::new(), run: None };
        assert(entries(r.undo@) =~= Seq::<EntryView>::empty());
        assert(entries(r.redo@) =~= Seq::<EntryView>::empty());
        r
    }
}

/// Forgets every undo and redo step and the open burst.
pub fn clear(h: &mut History)
    ensures
        final(h)@ == (Seq::<EntryView>::empty(), Seq::<EntryView>::empty(), None::<(i32, i32, u64)>),
{
    h.undo.clear();
    h.redo.clear();
    h.run = None;
    assert(entries(h.undo@) =~= Seq::<EntryView>::empty());
    assert(entries(h.redo@) =~= Seq::<EntryView>::empty());
}

/// Lifts the whole undo/redo state out (to park it on a tab being left),
/// leaving the history empty.
pub fn take(h: &mut History) -> (r: (VecDeque<HistEntry>, VecDeque<HistEntry>, Run))
    ensures
        (entries(r.0@), entries(r.1@), r.2) == old(h)@,
        final(h)@ == (Seq::<EntryView>::empty(), Seq::<EntryView>::empty(), None::<(i32, i32, u64)>),
{
    let mut undo = VecDeque::new();
    let mut redo = VecDeque::new();
    std::mem::swap(&mut undo, &mut h.undo);
    std::mem::swap(&mut redo, &mut h.redo);
    let run = h.run;
    h.run = None;
    assert(entries(h.undo@) =~= Seq::<EntryView>::empty());
    assert(entries(h.redo@) =~= Seq::<EntryView>::empty());
    (undo, redo, run)
}

/// Reattaches history state previously lifted by [`take`].
pub fn put(h: &mut History, undo: VecDeque<HistEntry>, redo: VecDeque<HistEntry>, run: Run)
    ensures
        final(h)@ == (entries(undo@), entries(redo@), run),
{
    h.undo = undo;
    h.redo = redo;
    h.run = run;
}

/// Drops the oldest entries beyond [`MAX_ENTRIES`].
fn trim_front(d: &mut VecDeque<HistEntry>)
    ensures
        entries(final(d)@) == capped(entries(old(d)@)),
{
    while d.len() > MAX_ENTRIES
        invariant
            capped(entries(old(d)@)) == capped(entries(d@)),
        decreases d@.len(),
    {
        let ghost before = d@;
        d.pop_front();
        proof {
            let e = entries(before);
            assert(entries(d@) =~= e.subrange(1, e.len() as int));
            assert(capped(e) =~= capped(e.subrange(1, e.len() as int)));
        }
    }
}

fn push(h: &mut History, state: &[String], caret: (i32, i32))
    ensures
        final(h)@ == (capped(old(h)@.0.push((state@, caret))), Seq::<EntryView>::empty(), old(h)@.2),
{
    let ghost before = entries(h.undo@);
    h.undo.push_back(HistEntry { lines: copy_lines(state), cursor: caret });
    assert(entries(h.undo@) =~= before.push((state@, caret)));
    trim_front(&mut h.undo);
    h.redo.clear();
    assert(entries(h.redo@) =~= Seq::<EntryView>::empty());
}

/// Records that the user is about to edit `state`, the caret being at
/// `caret_before`. Character inserts at an unmoved caret within
/// [`COALESCE_MS`] of the previous one extend the open burst and push
/// nothing; every other edit pushes the pre-edit state and empties redo.
pub fn snapshot(h: &mut History, state: &[String], caret_before: (i32, i32), kind: EditKind, now_ms: u64)
    requires
        kind == EditKind::CharInsert ==> caret_before.1 < i32::MAX,
    ensures
        final(h)@ == snapshot_spec(old(h)@, state@, caret_before, kind, now_ms),
{
    if kind == EditKind::CharInsert {
        let continuing = match h.run {
            Some((y, x, at)) => y == caret_before.0 && x == caret_before.1 && (if now_ms >= at {
                now_ms - at
            } else {
                0
            }) <= COALESCE_MS,
            None => false,
        };
        h.run = Some((caret_before.0, caret_before.1 + 1, now_ms));
        if !continuing {
            push(h, state, caret_before);
        }
    } else {
        h.run = None;
        push(h, state, caret_before);
    }
}

/// Pops the most recent pre-edit state; the current state goes onto the redo
/// stack so the undo can be reversed. `None` when there is nothing to undo.
pub fn undo(h: &mut History, current: &[String], caret: (i32, i32)) -> (r: Option<HistEntry>)
    ensures
        (final(h)@, match r {
            Some(e) => Some(e@),
            None => None,
        }) == undo_spec(old(h)@, current@, caret),
{
    h.run = None;
    let ghost u0 = entries(h.undo@);
    let prev = match h.undo.pop_back() {
        Some(p) => p,
        None => return None,
    };
    assert(entries(h.undo@) =~= u0.drop_last());
    let ghost r0 = entries(h.redo@);
    h.redo.push_back(HistEntry { lines: copy_lines(current), cursor: caret });
    assert(entries(h.redo@) =~= r0.push((current@, caret)));
    trim_front(&mut h.redo);
    Some(prev)
}

/// Reverses an undo: pops the most recent undone state and pushes the current
/// state back onto the undo stack. `None` when there is nothing to redo.
pub fn redo(h: &mut History, current: &[String], caret: (i32, i32)) -> (r: Option<HistEntry>)
    ensures
        (final(h)@, match r {
            Some(e) => Some(e@),
            None => None,
        }) == redo_spec(old(h)@, current@, caret),
{
    h.run = None;
    let ghost r0 = entries(h.redo@);
    let next = match h.redo.pop_back() {
        Some(p) => p,
        None => return None,
    };
    assert(entries(h.redo@) =~= r0.drop_last());
    let ghost u0 = entries(h.undo@);
    h.undo.push_back(HistEntry { lines: copy_lines(current), cursor: caret });
    assert(entries(h.undo@) =~= u0.push((current@, caret)));
    trim_front(&mut h.undo);
    Some(next)
}

/// Both stacks hold at most [`MAX_ENTRIES`] steps.
pub open spec fn within_cap(h: HistView) -> bool {
    h.0.len() <= MAX_ENTRIES && h.1.len() <= MAX_ENTRIES
}

/// Undo right after a snapshot that pushed gives back exactly the state and
/// caret that were recorded, and the state undone from goes onto redo.
pub proof fn lemma_undo_after_snapshot(
    h: HistView,
    state: Seq<String>,
    caret: (i32, i32),
    kind: EditKind,
    now: u64,
    current: Seq<String>,
    caret_now: (i32, i32),
)
    requires
        pushes(h, caret, kind, now),
    ensures
        undo_spec(snapshot_spec(h, state, caret, kind, now), current, caret_now).1 == Some(
            (state, caret),
        ),
        undo_spec(snapshot_spec(h, state, caret, kind, now), current, caret_now).0.1 == seq![
            (current, caret_now),
        ],
{
    let s = h.0.push((state, caret));
    assert(capped(s).len() > 0);
    assert(capped(s).last() == (state, caret));
    assert(capped(Seq::<EntryView>::empty().push((current, caret_now))) =~= seq![
        (current, caret_now),
    ]);
}

/// A snapshot that pushes a step discards everything that could be redone.
pub proof fn lemma_new_edit_clears_redo(
    h: HistView,
    state: Seq<String>,
    caret: (i32, i32),
    kind: EditKind,
    now: u64,
    current: Seq<String>,
    caret_now: (i32, i32),
)
    requires
        pushes(h, caret, kind, now),
    ensures
        snapshot_spec(h, state, caret, kind, now).1.len() == 0,
        redo_spec(snapshot_spec(h, state, caret, kind, now), current, caret_now).1 is None,
{
}

/// A character insert that continues the open burst leaves both stacks as
/// they were: the whole burst is one undo step.
pub proof fn lemma_burst_keeps_stacks(
    h: HistView,
    state: Seq<String>,
    caret: (i32, i32),
    now: u64,
)
    requires
        continues_burst(h.2, caret, now),
    ensures
        snapshot_spec(h, state, caret, EditKind::CharInsert, now).0 == h.0,
        snapshot_spec(h, state, caret, EditKind::CharInsert, now).1 == h.1,
{
}

/// Redo right after an undo gives back the state the undo was made from.
pub proof fn lemma_redo_after_undo(
    h: HistView,
    current: Seq<String>,
    caret: (i32, i32),
    restored: Seq<String>,
    caret_restored: (i32, i32),
)
    requires
        h.0.len() > 0,
    ensures
        redo_spec(undo_spec(h, current, caret).0, restored, caret_restored).1 == Some(
            (current, caret),
        ),
{
    let r = h.1.push((current, caret));
    assert(capped(r).len() > 0);
    assert(capped(r).last() == (current, caret));
}

/// Undo followed by redo from the restored step returns a history within
/// the cap to the stacks it had, with no burst open.
pub proof fn lemma_undo_redo_round_trip(
    h: HistView,
    current: Seq<String>,
    caret: (i32, i32),
)
    requires
        within_cap(h),
        h.1.len() < MAX_ENTRIES,
        h.0.len() > 0,
    ensures
        ({
            let u = undo_spec(h, current, caret);
            let e = u.1.unwrap();
            redo_spec(u.0, e.0, e.1).0 == (h.0, h.1, None::<(i32, i32, u64)>)
        }),
{
    let u = undo_spec(h, current, caret);
    assert(h.1.push((current, caret)).drop_last() =~= h.1);
    assert(h.0.drop_last().push(h.0.last()) =~= h.0);
}

/// Redo followed by undo from the restored step returns a history within
/// the cap to the stacks it had, with no burst open.
pub proof fn lemma_redo_undo_round_trip(
    h: HistView,
    current: Seq<String>,
    caret: (i32, i32),
)
    requires
        within_cap(h),
        h.0.len() < MAX_ENTRIES,
        h.1.len() > 0,
    ensures
        ({
            let r = redo_spec(h, current, caret);
            let e = r.1.unwrap();
            undo_spec(r.0, e.0, e.1).0 == (h.0, h.1, None::<(i32, i32, u64)>)
        }),
{
    assert(h.0.push((current, caret)).drop_last() =~= h.0);
    assert(h.1.drop_last().push(h.1.last()) =~= h.1);
}

/// Every operation keeps both stacks within [`MAX_ENTRIES`].
pub proof fn lemma_ops_keep_cap(
    h: HistView,
    state: Seq<String>,
    caret: (i32, i32),
    kind: EditKind,
    now: u64,
)
    requires
        within_cap(h),
    ensures
        within_cap(snapshot_spec(h, state, caret, kind, now)),
        within_cap(undo_spec(h, state, caret).0),
        within_cap(redo_spec(h, state, caret).0),
{
}

/// Undo and redo on an empty stack restore nothing and change no stack.
pub proof fn lemma_empty_stacks(h: HistView, current: Seq<String>, caret: (i32, i32))
    ensures
        h.0.len() == 0 ==> undo_spec(h, current, caret) == ((h.0, h.1, None::<(i32, i32, u64)>), None::<EntryView>),
        h.1.len() == 0 ==> redo_spec(h, current, caret) == ((h.0, h.1, None::<(i32, i32, u64)>), None::<EntryView>),
{
}

} // verus!
