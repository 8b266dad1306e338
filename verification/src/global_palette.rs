//! The project-wide note palette: which notes match the typed filter, in
//! which order, whether a `+ Create` row is offered, and what its keys do.
//!
//! A note whose lower-cased name starts with the lower-cased filter comes
//! first, then every other note whose name holds the filter; ties keep the
//! index order. A trailing `.md` of the filter is ignored.

use crate::filesystem::md_ext;
use crate::editor::input_handler::{accepts_typed, typeable};
use crate::strings::{
    bytes_eq, chars_of, contains_bytes, contains_exec, empty_string, is_prefix_bytes, lowercase,
    sb, starts_with_bytes, str_slice, string_push, to_lowercase, to_string, trim, trim_bytes, utf8,
};
use vstd::prelude::*;
use vstd::utf8::*;

verus! {

broadcast use vstd::utf8::group_utf8_lib;

#[verifier::external_type_specification]
#[verifier::external_body]
pub struct ExPathBuf(std::path::PathBuf);

/// One note of the project index.
pub struct NoteEntry {
    pub name: String,
    pub path: std::path::PathBuf,
    /// The name, or `parent/name` when two notes share the name.
    pub display: String,
}

/// The palette: open or not, the filter typed, the highlighted row, the
/// index of notes, the matching rows and whether a create row is offered.
pub struct PaletteState {
    pub open: bool,
    pub filter: String,
    pub selected: usize,
    pub index: Vec<NoteEntry>,
    pub matches: Vec<usize>,
    pub show_create: bool,
}

/// The text without the `.md` suffixes it ends with.
pub open spec fn strip_md(b: Seq<u8>) -> Seq<u8>
    decreases b.len(),
{
    if b.len() >= 3 && b.subrange(b.len() - 3, b.len() as int) == md_ext() {
        strip_md(b.subrange(0, b.len() - 3))
    } else {
        b
    }
}

/// The note name the filter asks for: trimmed, `.md` suffixes dropped.
pub open spec fn palette_target(filter: Seq<char>) -> Seq<u8> {
    strip_md(trim_bytes(utf8(filter)))
}

/// The filter as compared: the target lower-cased.
pub open spec fn palette_key(filter: Seq<char>) -> Seq<u8> {
    utf8(lowercase(decode_utf8(palette_target(filter))))
}

/// A note's name lower-cased.
pub open spec fn name_key(e: NoteEntry) -> Seq<u8> {
    utf8(lowercase(e.name@))
}

/// The note matches the key by prefix (`loose == false`), or holds it
/// elsewhere without the prefix (`loose == true`).
pub open spec fn hit(f: Seq<u8>, e: NoteEntry, loose: bool) -> bool {
    if loose {
        !is_prefix_bytes(f, name_key(e)) && contains_bytes(name_key(e), f)
    } else {
        is_prefix_bytes(f, name_key(e))
    }
}

/// Indices among the first `k` notes that hit the key, in order.
pub open spec fn hits(index: Seq<NoteEntry>, f: Seq<u8>, loose: bool, k: int) -> Seq<usize>
    decreases k,
{
    if k <= 0 {
        Seq::empty()
    } else if hit(f, index[k - 1], loose) {
        hits(index, f, loose, k - 1).push((k - 1) as usize)
    } else {
        hits(index, f, loose, k - 1)
    }
}

/// Every index `0..n`, in order.
pub open spec fn all_rows(n: int) -> Seq<usize> {
    Seq::new(n as nat, |i: int| i as usize)
}

/// The matching rows for a filter: every note for an empty key, else the
/// prefix hits followed by the other hits.
pub open spec fn matches_spec(index: Seq<NoteEntry>, filter: Seq<char>) -> Seq<usize> {
    let f = palette_key(filter);
    if f.len() == 0 {
        all_rows(index.len() as int)
    } else {
        hits(index, f, false, index.len() as int) + hits(index, f, true, index.len() as int)
    }
}

/// A create row is offered for a non-blank filter no note is named like.
pub open spec fn show_create_spec(index: Seq<NoteEntry>, filter: Seq<char>) -> bool {
    trim_bytes(utf8(filter)).len() > 0 && forall|i: int|
        0 <= i < index.len() ==> name_key(#[trigger] index[i]) != palette_key(filter)
}

/// The highlighted row kept within the rows shown.
pub open spec fn selected_spec(selected: usize, total: int) -> usize {
    if total == 0 {
        0
    } else if selected < total {
        selected
    } else {
        (total - 1) as usize
    }
}

/// The target with its `.md` suffixes dropped.
pub fn strip_md_str(s: &str) -> (r: &str)
    ensures
        sb(r) == strip_md(sb(s)),
{
    let mut t = s;
    loop
        invariant
            strip_md(sb(s)) == strip_md(sb(t)),
        decreases sb(t).len(),
    {
        let b = t.as_bytes();
        let n = b.len();
        if n >= 3 && b[n - 3] == 0x2e && b[n - 2] == 0x6d && b[n - 1] == 0x64 {
            proof {
                assert(b@.subrange(n - 3, n as int) =~= md_ext());
                lemma_ends_boundary_ascii(b@);
            }
            t = str_slice(t, 0, n - 3);
        } else {
            proof {
                if n >= 3 {
                    let tail = b@.subrange(n - 3, n as int);
                    assert(tail[0] == b@[n - 3] && tail[1] == b@[n - 2] && tail[2] == b@[n - 1]);
                }
            }
            return t;
        }
    }
}

proof fn lemma_ends_boundary_ascii(b: Seq<u8>)
    requires
        valid_utf8(b),
        b.len() >= 3,
        b[b.len() - 3] == 0x2e,
    ensures
        is_char_boundary(b, 0),
        is_char_boundary(b, b.len() - 3),
{
    crate::strings::lemma_ends_boundary(b);
    crate::strings::lemma_ascii_boundary(b, b.len() - 3);
}

/// Re-derives the matching rows, the create row and the highlighted row
/// from the filter (see [`matches_spec`], [`show_create_spec`]).
pub fn recompute(st: &mut PaletteState)
    ensures
        final(st).open == old(st).open,
        final(st).filter == old(st).filter,
        final(st).index == old(st).index,
        final(st).matches@ == matches_spec(old(st).index@, old(st).filter@),
        final(st).show_create == show_create_spec(old(st).index@, old(st).filter@),
        final(st).selected == selected_spec(
            old(st).selected,
            final(st).matches@.len() + (if final(st).show_create {
                1int
            } else {
                0int
            }),
        ),
{
    let target = strip_md_str(trim(st.filter.as_str()));
    let fl = to_lowercase(target);
    let f = fl.as_str().as_bytes();
    let ghost key = palette_key(st.filter@);
    proof {
        assert(target@ == decode_utf8(sb(target)));
    }
    assert(f@ == key);
    let n = st.index.len();
    let ghost index = st.index@;
    let mut prefix: Vec<usize> = Vec::new();
    let mut loose: Vec<usize> = Vec::new();
    if f.len() == 0 {
        let mut k: usize = 0;
        while k < n
            invariant
                n == index.len(),
                k <= n,
                prefix@ == all_rows(k as int),
            decreases n - k,
        {
            prefix.push(k);
            assert(prefix@ =~= all_rows(k + 1));
            k = k + 1;
        }
    } else {
        let mut k: usize = 0;
        while k < n
            invariant
                n == index.len(),
                index == st.index@,
                f@ == key,
                k <= n,
                prefix@ == hits(index, key, false, k as int),
                loose@ == hits(index, key, true, k as int),
            decreases n - k,
        {
            let lower = to_lowercase(st.index[k].name.as_str());
            let lb = lower.as_str().as_bytes();
            let is_prefix = starts_with_bytes(lb, f);
            let holds = contains_exec(lb, f);
            if is_prefix {
                prefix.push(k);
            } else if holds {
                loose.push(k);
            }
            k = k + 1;
        }
    }
    let mut out = prefix;
    let ghost p0 = out@;
    let mut j: usize = 0;
    while j < loose.len()
        invariant
            j <= loose@.len(),
            out@ == p0 + loose@.take(j as int),
        decreases loose@.len() - j,
    {
        out.push(loose[j]);
        assert(loose@.take(j + 1) =~= loose@.take(j as int).push(loose@[j as int]));
        j = j + 1;
    }
    assert(loose@.take(j as int) =~= loose@);
    let blank = trim(st.filter.as_str()).as_bytes().len() == 0;
    let mut exists = false;
    let mut k: usize = 0;
    while k < n
        invariant
            n == index.len(),
            index == st.index@,
            f@ == key,
            k <= n,
            !exists ==> forall|i: int| 0 <= i < k ==> name_key(#[trigger] index[i]) != key,
            exists ==> exists|i: int| 0 <= i < n && name_key(#[trigger] index[i]) == key,
        decreases n - k,
    {
        let lower = to_lowercase(st.index[k].name.as_str());
        if bytes_eq(lower.as_str().as_bytes(), f) {
            exists = true;
            assert(name_key(index[k as int]) == key);
        }
        k = k + 1;
    }
    let show_create = !blank && !exists;
    let rows = out.len();
    st.matches = out;
    st.show_create = show_create;
    st.selected = if rows == 0 && !show_create {
        0
    } else {
        let last = if show_create {
            rows
        } else {
            rows - 1
        };
        if st.selected <= last {
            st.selected
        } else {
            last
        }
    };
}

/// For each note name, whether another note of the index has the same
/// name (such notes are shown with their folder to tell them apart).
pub fn duplicated_names(names: &[String]) -> (r: Vec<bool>)
    ensures
        r@.len() == names@.len(),
        forall|i: int|
            0 <= i < names@.len() ==> (r@[i] <==> exists|j: int|
                0 <= j < names@.len() && j != i && #[trigger] names@[j]@ == names@[i]@),
{
    let n = names.len();
    let mut out: Vec<bool> = Vec::new();
    let mut i: usize = 0;
    while i < n
        invariant
            n == names@.len(),
            i <= n,
            out@.len() == i,
            forall|a: int|
                0 <= a < i ==> (out@[a] <==> exists|j: int|
                    0 <= j < n && j != a && #[trigger] names@[j]@ == names@[a]@),
        decreases n - i,
    {
        let mut dup = false;
        let mut j: usize = 0;
        while j < n
            invariant
                n == names@.len(),
                i < n,
                j <= n,
                dup <==> exists|k: int| 0 <= k < j && k != i && #[trigger] names@[k]@ == names@[i as int]@,
            decreases n - j,
        {
            let a = names[j].as_str();
            let b = names[i].as_str();
            if j != i && bytes_eq(a.as_bytes(), b.as_bytes()) {
                assert(names@[j as int]@ == names@[i as int]@) by {
                    vstd::utf8::encode_utf8_decode_utf8(a@);
                    vstd::utf8::encode_utf8_decode_utf8(b@);
                }
                dup = true;
            }
            j = j + 1;
        }
        out.push(dup);
        i = i + 1;
    }
    out
}

proof fn lemma_hits(index: Seq<NoteEntry>, f: Seq<u8>, loose: bool, k: int)
    requires
        0 <= k <= index.len(),
        index.len() <= usize::MAX,
    ensures
        forall|a: int| 0 <= a < hits(index, f, loose, k).len() ==> hits(index, f, loose, k)[a] < k,
        forall|a: int, b: int|
            0 <= a < b < hits(index, f, loose, k).len() ==> hits(index, f, loose, k)[a] < hits(
                index,
                f,
                loose,
                k,
            )[b],
        forall|i: int|
            0 <= i < k ==> (hit(f, index[i], loose) <==> hits(index, f, loose, k).contains(
                i as usize,
            )),
    decreases k,
{
    if k > 0 {
        lemma_hits(index, f, loose, k - 1);
        let prev = hits(index, f, loose, k - 1);
        if hit(f, index[k - 1], loose) {
            let cur = prev.push((k - 1) as usize);
            assert forall|i: int| 0 <= i < k implies (hit(f, index[i], loose) <==> cur.contains(
                i as usize,
            )) by {
                if i < k - 1 {
                    if cur.contains(i as usize) {
                        let j = choose|j: int| 0 <= j < cur.len() && cur[j] == i as usize;
                        if j < prev.len() {
                            assert(prev.contains(i as usize));
                        }
                    }
                    if prev.contains(i as usize) {
                        let j = choose|j: int| 0 <= j < prev.len() && prev[j] == i as usize;
                        assert(cur[j] == i as usize);
                    }
                } else {
                    assert(cur[cur.len() - 1] == i as usize);
                }
            }
        } else {
            assert forall|i: int| 0 <= i < k implies (hit(f, index[i], loose) <==> prev.contains(
                i as usize,
            )) by {
                if i == k - 1 && prev.contains(i as usize) {
                    let j = choose|j: int| 0 <= j < prev.len() && prev[j] == i as usize;
                }
            }
        }
    }
}

/// The palette lists each note at most once, only notes of the index, and
/// exactly those whose lower-cased name holds the lower-cased target (every
/// note when the target is empty); the prefix matches come first.
pub proof fn lemma_matches_cover_index(index: Seq<NoteEntry>, filter: Seq<char>)
    requires
        index.len() <= usize::MAX,
    ensures
        ({
            let m = matches_spec(index, filter);
            let f = palette_key(filter);
            &&& forall|a: int| 0 <= a < m.len() ==> m[a] < index.len()
            &&& m.no_duplicates()
            &&& forall|i: int|
                0 <= i < index.len() ==> ((f.len() == 0 || contains_bytes(
                    name_key(#[trigger] index[i]),
                    f,
                )) <==> m.contains(i as usize))
            &&& forall|a: int, b: int|
                0 <= a < m.len() && 0 <= b < m.len() && is_prefix_bytes(f, name_key(index[m[a] as int]))
                    && !is_prefix_bytes(f, name_key(index[m[b] as int])) ==> a < b
        }),
{
    let m = matches_spec(index, filter);
    let f = palette_key(filter);
    let n = index.len() as int;
    if f.len() == 0 {
        assert forall|i: int| 0 <= i < n implies #[trigger] m.contains(i as usize) by {
            assert(0 <= i < m.len());
            assert(m[i] == i as usize);
        }
        assert forall|a: int, b: int| 0 <= a < b < m.len() implies m[a] != m[b] by {
            assert(m[a] == a as usize && m[b] == b as usize);
        }
        assert forall|a: int| 0 <= a < m.len() implies m[a] < index.len() by {
            assert(m[a] == a as usize);
        }
        assert(m.no_duplicates()) by {
            assert forall|a: int, b: int| 0 <= a < m.len() && 0 <= b < m.len() && a != b implies m[a]
                != m[b] by {
                assert(m[a] == a as usize && m[b] == b as usize);
            }
        }
        assert forall|x: Seq<u8>| #[trigger] is_prefix_bytes(f, x) by {
            assert(x.subrange(0, 0) =~= f);
        }
    } else {
        lemma_hits(index, f, false, n);
        lemma_hits(index, f, true, n);
        let p = hits(index, f, false, n);
        let l = hits(index, f, true, n);
        assert(m == p + l);
        assert forall|a: int| 0 <= a < m.len() implies m[a] < n by {
            if a >= p.len() {
                assert(m[a] == l[a - p.len()]);
            }
        }
        assert forall|a: int, b: int| 0 <= a < m.len() && 0 <= b < m.len() && a < b implies m[a] != m[b] by {
            if b < p.len() {
            } else if a >= p.len() {
                assert(m[a] == l[a - p.len()]);
                assert(m[b] == l[b - p.len()]);
            } else {
                let i = m[a] as int;
                assert(m[b] == l[b - p.len()]);
                assert(p.contains(m[a]));
                assert(l.contains(m[b]));
                if m[a] == m[b] {
                    assert(hit(f, index[i], false));
                    assert(hit(f, index[i], true));
                }
            }
        }
        assert(m.no_duplicates()) by {
            assert forall|a: int, b: int| 0 <= a < m.len() && 0 <= b < m.len() && a != b implies m[a]
                != m[b] by {
                if a > b {
                    assert(m[b] != m[a]);
                }
            }
        }
        assert forall|i: int| 0 <= i < n implies ((f.len() == 0 || contains_bytes(
            name_key(#[trigger] index[i]),
            f,
        )) <==> m.contains(i as usize)) by {
            let nk = name_key(index[i]);
            if is_prefix_bytes(f, nk) {
                assert(crate::strings::occurs_at(nk, 0, f));
            }
            if p.contains(i as usize) {
                let j = choose|j: int| 0 <= j < p.len() && p[j] == i as usize;
                assert(m[j] == i as usize);
            }
            if l.contains(i as usize) {
                let j = choose|j: int| 0 <= j < l.len() && l[j] == i as usize;
                assert(m[p.len() + j] == i as usize);
            }
            if m.contains(i as usize) {
                let j = choose|j: int| 0 <= j < m.len() && m[j] == i as usize;
                if j < p.len() {
                    assert(p.contains(i as usize));
                } else {
                    assert(l[j - p.len()] == i as usize);
                    assert(l.contains(i as usize));
                }
            }
        }
        assert forall|a: int, b: int|
            0 <= a < m.len() && 0 <= b < m.len() && is_prefix_bytes(f, name_key(index[m[a] as int]))
                && !is_prefix_bytes(f, name_key(index[m[b] as int])) implies a < b by {
            if a >= p.len() {
                assert(m[a] == l[a - p.len()]);
                assert(l.contains(m[a]));
            }
            if b < p.len() {
                assert(p.contains(m[b]));
            }
        }
    }
}

/// The highlighted row always names a shown row.
pub proof fn lemma_selected_in_range(selected: usize, total: int)
    requires
        total > 0,
    ensures
        selected_spec(selected, total) < total,
{
}

/// The rows of the palette: the matching notes, then the create row when
/// it is offered.
pub open spec fn palette_rows(st: PaletteState) -> int {
    st.matches@.len() + if st.show_create {
        1int
    } else {
        0int
    }
}

/// The highlighted row after Down or Tab (`forward`) or Up: one row on or
/// back, wrapping around; unchanged when there are no rows.
pub open spec fn stepped_spec(selected: int, total: int, forward: bool) -> int {
    if total == 0 {
        selected
    } else if forward {
        (selected + 1) % total
    } else {
        (selected + total - 1) % total
    }
}

/// Moves the palette's highlight (see [`stepped_spec`]).
pub fn palette_step(st: &mut PaletteState, forward: bool)
    requires
        old(st).selected + palette_rows(*old(st)) <= usize::MAX,
    ensures
        final(st).selected == stepped_spec(old(st).selected as int, palette_rows(*old(st)), forward),
        final(st).open == old(st).open,
        final(st).filter == old(st).filter,
        final(st).index == old(st).index,
        final(st).matches == old(st).matches,
        final(st).show_create == old(st).show_create,
{
    let total = st.matches.len() + if st.show_create {
        1
    } else {
        0
    };
    if total > 0 {
        st.selected = if forward {
            (st.selected + 1) % total
        } else {
            (st.selected + total - 1) % total
        };
    }
}

/// The palette after Backspace: the filter's last character goes and the
/// rows are worked out again; an empty filter stays as it is.
pub fn palette_backspace(st: &mut PaletteState)
    ensures
        old(st).filter@.len() == 0 ==> *final(st) == *old(st),
        old(st).filter@.len() > 0 ==> {
            &&& final(st).filter@ == old(st).filter@.drop_last()
            &&& final(st).open == old(st).open
            &&& final(st).index == old(st).index
            &&& final(st).matches@ == matches_spec(old(st).index@, final(st).filter@)
            &&& final(st).show_create == show_create_spec(old(st).index@, final(st).filter@)
            &&& final(st).selected == selected_spec(old(st).selected, palette_rows(*final(st)))
        },
{
    let chars = chars_of(st.filter.as_str());
    if chars.len() == 0 {
        return;
    }
    let mut shorter = empty_string();
    let mut k: usize = 0;
    while k < chars.len() - 1
        invariant
            k + 1 <= chars@.len(),
            shorter@ == chars@.take(k as int),
        decreases chars@.len() - k,
    {
        string_push(&mut shorter, chars[k]);
        assert(chars@.take(k + 1) =~= chars@.take(k as int).push(chars@[k as int]));
        k = k + 1;
    }
    assert(chars@.take(k as int) =~= chars@.drop_last());
    st.filter = shorter;
    recompute(st);
}

/// The palette after a character is typed: a control character is
/// ignored; any other is added to the filter and the rows are worked out
/// again.
pub fn palette_type(st: &mut PaletteState, c: char)
    ensures
        !typeable(c) ==> *final(st) == *old(st),
        typeable(c) ==> {
            &&& final(st).filter@ == old(st).filter@.push(c)
            &&& final(st).open == old(st).open
            &&& final(st).index == old(st).index
            &&& final(st).matches@ == matches_spec(old(st).index@, final(st).filter@)
            &&& final(st).show_create == show_create_spec(old(st).index@, final(st).filter@)
            &&& final(st).selected == selected_spec(old(st).selected, palette_rows(*final(st)))
        },
{
    if accepts_typed(c) {
        string_push(&mut st.filter, c);
        recompute(st);
    }
}

/// What Enter does in the palette.
pub enum PaletteAction {
    /// Nothing to act on.
    Nothing,
    /// Open this note of the index.
    Open(usize),
    /// Create a note with this name.
    Create(String),
}

/// What Enter does: the highlighted matching note opens; on the create row
/// a note named by the trimmed filter is created, unless that is empty.
pub fn palette_action(st: &PaletteState) -> (r: PaletteAction)
    ensures
        match r {
            PaletteAction::Open(i) => st.selected < st.matches@.len() && i == st.matches@[st.selected as int]
                && i < st.index@.len(),
            PaletteAction::Create(name) => !(st.selected < st.matches@.len()) && st.show_create
                && utf8(name@) == trim_bytes(utf8(st.filter@)) && trim_bytes(utf8(st.filter@)).len() > 0,
            PaletteAction::Nothing => {
                if st.selected < st.matches@.len() {
                    st.matches@[st.selected as int] >= st.index@.len()
                } else {
                    !st.show_create || trim_bytes(utf8(st.filter@)).len() == 0
                }
            },
        },
{
    if st.selected < st.matches.len() {
        let idx = st.matches[st.selected];
        if idx < st.index.len() {
            PaletteAction::Open(idx)
        } else {
            PaletteAction::Nothing
        }
    } else if st.show_create {
        let name = trim(st.filter.as_str());
        if name.as_bytes().len() == 0 {
            PaletteAction::Nothing
        } else {
            PaletteAction::Create(to_string(name))
        }
    } else {
        PaletteAction::Nothing
    }
}

} // verus!
