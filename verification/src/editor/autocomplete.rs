//! `[[` wikilink completion: detecting the partial link under the caret and
//! filtering note names by it.

use crate::strings::{
    is_prefix_bytes, lemma_ascii_boundary, lemma_ends_boundary, lowercase, sb, starts_with_bytes,
    str_slice, to_lowercase, to_string, utf8,
};
use vstd::prelude::*;
use vstd::utf8::*;

verus! {

broadcast use vstd::utf8::group_utf8_lib;

pub struct AutocompleteState {
    pub active: bool,
    pub filter: String,
    pub selected: usize,
    pub matches: Vec<String>,
    pub esc_consumed: bool,
    pub suppress: bool,
    pub suppress_filter: String,
}

impl AutocompleteState {
    /// The hidden, empty state.
    pub fn new() -> (r: AutocompleteState)
        ensures
            !r.active,
            r.filter@ == Seq::<char>::empty(),
            r.selected == 0,
            r.matches@ == Seq::<String>::empty(),
            !r.esc_consumed,
            !r.suppress,
            r.suppress_filter@ == Seq::<char>::empty(),
    {
        AutocompleteState {
            active: false,
            filter: String::new(),
            selected: 0,
            matches: Vec::new(),
            esc_consumed: false,
            suppress: false,
            suppress_filter: String::new(),
        }
    }
}

/// Position of the last unclosed `[[` among the pairs that end before `upto`
/// (scanning from `i`, `last` being the one seen so far).
pub open spec fn open_link(b: Seq<u8>, upto: int, i: int, last: Option<int>) -> Option<int>
    decreases upto - i,
{
    if 0 <= i && i + 1 < upto && upto <= b.len() {
        if b[i] == 0x5b && b[i + 1] == 0x5b {
            open_link(b, upto, i + 2, Some(i))
        } else if b[i] == 0x5d && b[i + 1] == 0x5d {
            open_link(b, upto, i + 2, None)
        } else {
            open_link(b, upto, i + 1, last)
        }
    } else {
        last
    }
}

pub proof fn lemma_open_link(b: Seq<u8>, upto: int, i: int, last: Option<int>)
    requires
        0 <= i,
        upto <= b.len(),
        last matches Some(p) ==> 0 <= p && p + 2 <= i && p + 1 < upto && b[p] == 0x5b,
    ensures
        open_link(b, upto, i, last) matches Some(p) ==> 0 <= p && p + 2 <= upto && b[p] == 0x5b
            && b[p + 1] == 0x5b || open_link(b, upto, i, last) == last,
    decreases upto - i,
{
    if 0 <= i && i + 1 < upto && upto <= b.len() {
        if b[i] == 0x5b && b[i + 1] == 0x5b {
            lemma_open_link(b, upto, i + 2, Some(i));
        } else if b[i] == 0x5d && b[i + 1] == 0x5d {
            lemma_open_link(b, upto, i + 2, None);
        } else {
            lemma_open_link(b, upto, i + 1, last);
        }
    }
}

/// The caret offset clamped to the line.
pub open spec fn clamp_cursor(b: Seq<u8>, cursor_x: int) -> int {
    if cursor_x < b.len() {
        cursor_x
    } else {
        b.len() as int
    }
}

/// The completion filter: the text typed between an unclosed `[[` and the
/// caret.
pub open spec fn detect_spec(b: Seq<u8>, cursor_x: int) -> Option<Seq<u8>> {
    let upto = clamp_cursor(b, cursor_x);
    match open_link(b, upto, 0, None) {
        Some(p) => Some(b.subrange(p + 2, upto)),
        None => None,
    }
}

/// The caret sits on a character boundary of the line (or past its end).
pub open spec fn caret_ok(b: Seq<u8>, cursor_x: int) -> bool {
    cursor_x >= b.len() || is_char_boundary(b, cursor_x)
}

/// If the caret sits inside an unclosed `[[ ... ]]`, the text typed between
/// `[[` and the caret (the current completion filter).
pub fn detect(line: &str, cursor_x: usize) -> (r: Option<String>)
    requires
        caret_ok(sb(line), cursor_x as int),
    ensures
        match r {
            Some(t) => detect_spec(sb(line), cursor_x as int) == Some(utf8(t@)),
            None => detect_spec(sb(line), cursor_x as int) is None,
        },
{
    let bytes = line.as_bytes();
    let ghost b = bytes@;
    let upto = if cursor_x < bytes.len() {
        cursor_x
    } else {
        bytes.len()
    };
    let mut last_open: Option<usize> = None;
    let mut i: usize = 0;
    while i < upto && upto - i > 1
        invariant
            b == bytes@,
            upto <= b.len(),
            i <= upto,
            last_open matches Some(p) ==> p + 2 <= i && p + 1 < upto && b[p as int] == 0x5b
                && b[p + 1] == 0x5b,
            open_link(b, upto as int, 0, None) == open_link(
                b,
                upto as int,
                i as int,
                match last_open {
                    Some(p) => Some(p as int),
                    None => None,
                },
            ),
        decreases upto - i,
    {
        if bytes[i] == 0x5b && bytes[i + 1] == 0x5b {
            last_open = Some(i);
            i = i + 2;
        } else if bytes[i] == 0x5d && bytes[i + 1] == 0x5d {
            last_open = None;
            i = i + 2;
        } else {
            i = i + 1;
        }
    }
    match last_open {
        Some(pos) => {
            proof {
                lemma_ends_boundary(b);
                lemma_ascii_boundary(b, pos + 1);
            }
            Some(to_string(str_slice(line, pos + 2, upto)))
        },
        None => None,
    }
}

/// A name matches a filter when its lower-cased text starts with the
/// lower-cased filter.
pub open spec fn name_matches(filter: Seq<char>, name: String) -> bool {
    is_prefix_bytes(utf8(lowercase(filter)), utf8(lowercase(name@)))
}

/// Names whose lower-cased form starts with the lower-cased filter, in order.
pub fn match_names(names: &[String], filter: &str) -> (r: Vec<String>)
    ensures
        r@ == names@.filter(|n: String| name_matches(filter@, n)),
{
    let f = to_lowercase(filter);
    let fb = f.as_str().as_bytes();
    let mut out: Vec<String> = Vec::new();
    let mut k: usize = 0;
    while k < names.len()
        invariant
            k <= names@.len(),
            fb@ == utf8(lowercase(filter@)),
            out@ == names@.take(k as int).filter(|n: String| name_matches(filter@, n)),
        decreases names.len() - k,
    {
        let lower = to_lowercase(names[k].as_str());
        let hit = starts_with_bytes(lower.as_str().as_bytes(), fb);
        proof {
            assert(names@.take(k + 1).drop_last() =~= names@.take(k as int));
            reveal_with_fuel(Seq::<_>::filter, 1);
        }
        if hit {
            out.push(names[k].clone());
        }
        k = k + 1;
    }
    assert(names@.take(k as int) =~= names@);
    out
}

/// The completion filter for the caret position in the buffer.
pub open spec fn buffer_filter(buffer: Seq<String>, cursor_y: int, cursor_x: int) -> Option<
    Seq<u8>,
> {
    if 0 <= cursor_y < buffer.len() {
        detect_spec(utf8(buffer[cursor_y]@), cursor_x)
    } else {
        None
    }
}

/// The note being edited, when the index names one.
pub open spec fn current_name(node_names: Seq<String>, editing: Option<usize>) -> Option<String> {
    match editing {
        Some(i) => if i < node_names.len() {
            Some(node_names[i as int])
        } else {
            None
        },
        None => None,
    }
}

/// Candidate names: every note except those named like the edited one.
pub open spec fn candidates(node_names: Seq<String>, editing: Option<usize>) -> Seq<String> {
    node_names.filter(
        |n: String|
            match current_name(node_names, editing) {
                Some(c) => n@ != c@,
                None => true,
            },
    )
}

/// Recomputes the completion popup for the caret at (`cursor_y`,
/// `cursor_x`): after Esc it stays hidden until the filter changes; otherwise
/// it lists the other notes whose names start with the typed filter.
pub fn refresh(
    state: &mut AutocompleteState,
    buffer: &[String],
    cursor_y: usize,
    cursor_x: usize,
    node_names: &[String],
    editing: Option<usize>,
)
    requires
        cursor_y < buffer@.len() ==> caret_ok(utf8(buffer@[cursor_y as int]@), cursor_x as int),
    ensures
        !final(state).esc_consumed,
        final(state).selected == 0,
        final(state).suppress_filter == old(state).suppress_filter,
        ({
            let f = buffer_filter(buffer@, cursor_y as int, cursor_x as int);
            if old(state).suppress && f == Some(utf8(old(state).suppress_filter@)) {
                &&& final(state).suppress
                &&& utf8(final(state).filter@) == f.unwrap()
                &&& !final(state).active
                &&& final(state).matches@ == Seq::<String>::empty()
            } else {
                &&& !final(state).suppress
                &&& match f {
                    Some(t) => {
                        &&& utf8(final(state).filter@) == t
                        &&& final(state).matches@ == candidates(node_names@, editing).filter(
                            |n: String| name_matches(final(state).filter@, n),
                        )
                        &&& final(state).active == (final(state).matches@.len() > 0)
                    },
                    None => {
                        &&& final(state).filter == old(state).filter
                        &&& final(state).matches@ == Seq::<String>::empty()
                        &&& !final(state).active
                    },
                }
            }
        }),
{
    let filter = if cursor_y < buffer.len() {
        detect(buffer[cursor_y].as_str(), cursor_x)
    } else {
        None
    };
    state.esc_consumed = false;
    let same = match &filter {
        Some(f) => state.suppress && *f == state.suppress_filter,
        None => false,
    };
    proof {
        if filter is Some {
            let f = filter->0;
            assert(f@ == state.suppress_filter@ <==> utf8(f@) == utf8(state.suppress_filter@)) by {
                if utf8(f@) == utf8(state.suppress_filter@) {
                    assert(decode_utf8(utf8(f@)) == f@);
                    assert(decode_utf8(utf8(state.suppress_filter@)) == state.suppress_filter@);
                }
            }
        }
    }
    if same {
        state.filter = match filter {
            Some(f) => f,
            None => String::new(),
        };
        state.active = false;
        state.matches = Vec::new();
        state.selected = 0;
        return ;
    }
    state.suppress = false;
    state.active = false;
    state.matches = Vec::new();
    state.selected = 0;
    if let Some(f) = filter {
        state.filter = f;
        let current: Option<&String> = match editing {
            Some(i) => if i < node_names.len() {
                Some(&node_names[i])
            } else {
                None
            },
            None => None,
        };
        let mut names: Vec<String> = Vec::new();
        let mut k: usize = 0;
        while k < node_names.len()
            invariant
                k <= node_names@.len(),
                match current {
                    Some(c) => current_name(node_names@, editing) == Some(*c),
                    None => current_name(node_names@, editing) is None,
                },
                names@ == node_names@.take(k as int).filter(
                    |n: String|
                        match current_name(node_names@, editing) {
                            Some(c) => n@ != c@,
                            None => true,
                        },
                ),
            decreases node_names.len() - k,
        {
            let keep = match current {
                Some(c) => !(node_names[k] == *c),
                None => true,
            };
            proof {
                assert(node_names@.take(k + 1).drop_last() =~= node_names@.take(k as int));
                reveal_with_fuel(Seq::<_>::filter, 1);
            }
            if keep {
                names.push(node_names[k].clone());
            }
            k = k + 1;
        }
        assert(node_names@.take(k as int) =~= node_names@);
        state.matches = match_names(names.as_slice(), state.filter.as_str());
        state.active = state.matches.len() > 0;
    }
}


/// No `[[` and no `]]` anywhere in `t`.
pub open spec fn no_link_marks(t: Seq<u8>) -> bool {
    forall|j: int|
        0 <= j < t.len() - 1 ==> !(#[trigger] t[j] == 0x5b && t[j + 1] == 0x5b) && !(t[j] == 0x5d
            && t[j + 1] == 0x5d)
}

proof fn lemma_open_link_inside(b: Seq<u8>, upto: int, i: int, p: int)
    requires
        0 <= p,
        p + 2 <= i <= upto <= b.len(),
        forall|j: int| i <= j && j + 1 < upto ==> !(#[trigger] b[j] == 0x5b && b[j + 1] == 0x5b) && !(
        b[j] == 0x5d && b[j + 1] == 0x5d),
    ensures
        open_link(b, upto, i, Some(p)) == Some(p),
    decreases upto - i,
{
    if i + 1 < upto {
        assert(!(b[i] == 0x5b && b[i + 1] == 0x5b) && !(b[i] == 0x5d && b[i + 1] == 0x5d));
        lemma_open_link_inside(b, upto, i + 1, p);
    }
}

proof fn lemma_open_link_before(b: Seq<u8>, n: int, upto: int, i: int, last: Option<int>)
    requires
        0 <= i <= n,
        n + 2 <= upto <= b.len(),
        b[n] == 0x5b && b[n + 1] == 0x5b,
        n == 0 || b[n - 1] != 0x5b,
        forall|j: int| n + 2 <= j && j + 1 < upto ==> !(#[trigger] b[j] == 0x5b && b[j + 1] == 0x5b)
            && !(b[j] == 0x5d && b[j + 1] == 0x5d),
    ensures
        open_link(b, upto, i, last) == Some(n),
    decreases upto - i,
{
    if i == n {
        lemma_open_link_inside(b, upto, n + 2, n);
    } else if b[i] == 0x5b && b[i + 1] == 0x5b {
        assert(i + 1 < n);
        lemma_open_link_before(b, n, upto, i + 2, Some(i));
    } else if b[i] == 0x5d && b[i + 1] == 0x5d {
        assert(i + 1 < n);
        lemma_open_link_before(b, n, upto, i + 2, None);
    } else {
        lemma_open_link_before(b, n, upto, i + 1, last);
    }
}

/// Inside an open `[[` the completion filter is everything typed since it,
/// spaces and any other characters included, as long as no `[[` or `]]`
/// comes between: a line `s [[ t ...` with the caret right after `t` (and
/// `s` not ending in `[`, which would pair with the first `[`) completes
/// `t`, whatever precedes it and whatever follows the caret.
pub proof fn lemma_detect_after_open(s: Seq<u8>, t: Seq<u8>, rest: Seq<u8>)
    requires
        s.len() == 0 || s.last() != 0x5b,
        no_link_marks(t),
    ensures
        detect_spec(s + seq![0x5bu8, 0x5bu8] + t + rest, (s.len() + 2 + t.len()) as int) == Some(t),
{
    let b = s + seq![0x5bu8, 0x5bu8] + t + rest;
    let n = s.len() as int;
    let upto = n + 2 + t.len();
    assert(clamp_cursor(b, upto) == upto);
    assert(b[n] == 0x5b && b[n + 1] == 0x5b);
    if n > 0 {
        assert(b[n - 1] == s.last());
    }
    assert forall|j: int| n + 2 <= j && j + 1 < upto implies !(#[trigger] b[j] == 0x5b && b[j + 1]
        == 0x5b) && !(b[j] == 0x5d && b[j + 1] == 0x5d) by {
        assert(b[j] == t[j - n - 2]);
        assert(b[j + 1] == t[j + 1 - n - 2]);
        assert(0 <= j - n - 2 < t.len() - 1);
    }
    lemma_open_link_before(b, n, upto, 0, None);
    assert(b.subrange(n + 2, upto) =~= t);
}

} // verus!
