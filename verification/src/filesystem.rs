//! The `[[wikilink]]` rules of the note files: which links a note holds, and
//! how its text changes when a linked note is renamed; and the names tried,
//! one after the other, when a new or copied file needs a free name.

use crate::editor::markdown::{closer2, find_closer_bytes, lemma_closer2};
use crate::strings::{
    bytes_eq, empty_string, lead_width, lemma_ascii_boundary, lemma_ends_boundary, lemma_next_boundary,
    push_ascii, push_str, sb, str_slice, to_string, trim, trim_bytes, utf8,
};
use vstd::prelude::*;
use vstd::utf8::*;

verus! {

broadcast use vstd::utf8::group_utf8_lib;

/// The trimmed targets of the non-empty closed `[[links]]` in `b[i..]`, in
/// order; an unclosed `[[` is skipped one byte at a time.
pub open spec fn links_from(b: Seq<u8>, i: int) -> Seq<Seq<u8>>
    decreases b.len() - i,
{
    if 0 <= i && i + 1 < b.len() {
        if b[i] == 0x5b && b[i + 1] == 0x5b {
            proof {
                lemma_closer2(b, i + 2, 0x5d, 0x5d);
            }
            match closer2(b, i + 2, 0x5d, 0x5d) {
                Some(k) => {
                    let inner = trim_bytes(b.subrange(i + 2, k - 2));
                    (if inner.len() > 0 {
                        seq![inner]
                    } else {
                        Seq::empty()
                    }) + links_from(b, k)
                },
                None => links_from(b, i + 1),
            }
        } else {
            links_from(b, i + 1)
        }
    } else {
        Seq::empty()
    }
}

/// Byte views of a list of strings.
pub open spec fn string_views(v: Seq<String>) -> Seq<Seq<u8>> {
    v.map_values(|s: String| utf8(s@))
}

/// The targets of every non-empty `[[wikilink]]` in the note, trimmed, in
/// order of appearance.
pub fn parse_links(content: &str) -> (r: Vec<String>)
    ensures
        string_views(r@) == links_from(sb(content), 0),
{
    let bytes = content.as_bytes();
    let n = bytes.len();
    let ghost b = bytes@;
    let mut links: Vec<String> = Vec::new();
    let mut i: usize = 0;
    assert(string_views(links@) =~= Seq::<Seq<u8>>::empty());
    while i < n && n - i > 1
        invariant
            b == bytes@,
            b == sb(content),
            n == b.len(),
            i <= n,
            string_views(links@) + links_from(b, i as int) == links_from(b, 0),
        decreases n - i,
    {
        if bytes[i] == 0x5b && bytes[i + 1] == 0x5b {
            proof {
                lemma_closer2(b, i + 2, 0x5d, 0x5d);
            }
            match find_closer_bytes(bytes, i + 2, 0x5d, 0x5d) {
                Some(k) => {
                    proof {
                        lemma_ascii_boundary(b, i + 1);
                        lemma_ascii_boundary(b, k - 2);
                    }
                    let inner = trim(str_slice(content, i + 2, k - 2));
                    let ghost before = links@;
                    if inner.as_bytes().len() > 0 {
                        let s = to_string(inner);
                        links.push(s);
                        assert(string_views(links@) =~= string_views(before) + seq![sb(inner)]);
                    } else {
                        assert(string_views(links@) =~= string_views(before) + Seq::<
                            Seq<u8>,
                        >::empty());
                    }
                    assert(string_views(links@) + links_from(b, k as int) =~= string_views(before)
                        + links_from(b, i as int));
                    i = k;
                    continue;
                },
                None => {},
            }
        }
        i = i + 1;
    }
    assert(links_from(b, i as int) =~= Seq::<Seq<u8>>::empty());
    assert(string_views(links@) =~= string_views(links@) + Seq::<Seq<u8>>::empty());
    links
}

/// `.md`.
pub open spec fn md_ext() -> Seq<u8> {
    seq![0x2eu8, 0x6du8, 0x64u8]
}

/// `[[target]]`.
pub open spec fn wikilink(target: Seq<u8>) -> Seq<u8> {
    seq![0x5bu8, 0x5bu8] + target + seq![0x5du8, 0x5du8]
}

/// A link's trimmed target names the note `old`, with or without `.md`.
pub open spec fn names_note(inner: Seq<u8>, old: Seq<u8>) -> bool {
    inner == old || inner == old + md_ext()
}

/// `b[i..]` with every closed `[[link]]` whose trimmed target names `old`
/// rewritten to `[[new]]`; everything else copied character by character.
pub open spec fn replaced_from(b: Seq<u8>, i: int, old: Seq<u8>, new: Seq<u8>) -> Seq<u8>
    decreases b.len() - i,
{
    if 0 <= i < b.len() {
        let w = lead_width(b[i]);
        let link = if i + 1 < b.len() && b[i] == 0x5b && b[i + 1] == 0x5b {
            closer2(b, i + 2, 0x5d, 0x5d)
        } else {
            None
        };
        proof {
            lemma_closer2(b, i + 2, 0x5d, 0x5d);
            assert(w >= 1);
        }
        match link {
            Some(k) => {
                let inner = trim_bytes(b.subrange(i + 2, k - 2));
                (if names_note(inner, old) {
                    wikilink(new)
                } else {
                    b.subrange(i, k)
                }) + replaced_from(b, k, old, new)
            },
            None => {
                let e = if i + w <= b.len() {
                    i + w
                } else {
                    b.len() as int
                };
                b.subrange(i, e) + replaced_from(b, e, old, new)
            },
        }
    } else {
        Seq::empty()
    }
}

/// Whether `inner` names the note `old` (see [`names_note`]).
fn names_note_exec(inner: &[u8], old: &[u8]) -> (r: bool)
    ensures
        r == names_note(inner@, old@),
{
    if bytes_eq(inner, old) {
        return true;
    }
    let n = old.len();
    if inner.len() < 3 || inner.len() - 3 != n {
        assert(inner@ != old@ + md_ext());
        return false;
    }
    let mut k: usize = 0;
    while k < n
        invariant
            n == old@.len(),
            inner@.len() == n + 3,
            k <= n,
            forall|t: int| 0 <= t < k ==> inner@[t] == old@[t],
        decreases n - k,
    {
        if inner[k] != old[k] {
            assert((old@ + md_ext())[k as int] == old@[k as int]);
            return false;
        }
        k = k + 1;
    }
    let r = inner[n] == 0x2e && inner[n + 1] == 0x6d && inner[n + 2] == 0x64;
    proof {
        if r {
            assert(inner@ =~= old@ + md_ext());
        } else {
            let full = old@ + md_ext();
            assert(full[n as int] == 0x2e && full[n + 1] == 0x6d && full[n + 2] == 0x64);
        }
    }
    r
}

/// Appends `[[target]]` to `s`.
fn push_wikilink(s: &mut String, target: &str)
    ensures
        utf8(final(s)@) == utf8(old(s)@) + wikilink(sb(target)),
{
    let ghost before = utf8(s@);
    push_ascii(s, 0x5b);
    push_ascii(s, 0x5b);
    push_str(s, target);
    push_ascii(s, 0x5d);
    push_ascii(s, 0x5d);
    assert(utf8(s@) =~= before + wikilink(sb(target)));
}

/// Width in bytes of the character whose leading byte is `x`.
fn lead_width_exec(x: u8) -> (r: usize)
    ensures
        r == lead_width(x),
{
    if x < 0x80 {
        1
    } else if x < 0xe0 {
        2
    } else if x < 0xf0 {
        3
    } else {
        4
    }
}

/// Rewrites every `[[wikilink]]` whose trimmed target is `old_stem`, with or
/// without `.md`, to `[[new_stem]]`. Other links and unclosed brackets pass
/// through unchanged.
pub fn replace_links(content: &str, old_stem: &str, new_stem: &str) -> (r: String)
    ensures
        utf8(r@) == replaced_from(sb(content), 0, sb(old_stem), sb(new_stem)),
{
    let bytes = content.as_bytes();
    let old = old_stem.as_bytes();
    let n = bytes.len();
    let ghost b = bytes@;
    let ghost ob = sb(old_stem);
    let ghost nb = sb(new_stem);
    let mut out = empty_string();
    let mut i: usize = 0;
    proof {
        lemma_ends_boundary(b);
    }
    while i < n
        invariant
            b == bytes@,
            b == sb(content),
            ob == old@,
            nb == sb(new_stem),
            n == b.len(),
            valid_utf8(b),
            i <= n,
            is_char_boundary(b, i as int),
            is_char_boundary(b, n as int),
            utf8(out@) + replaced_from(b, i as int, ob, nb) == replaced_from(b, 0, ob, nb),
        decreases n - i,
    {
        let ghost before = utf8(out@);
        proof {
            lemma_closer2(b, i + 2, 0x5d, 0x5d);
        }
        let link = if i + 1 < n && bytes[i] == 0x5b && bytes[i + 1] == 0x5b {
            find_closer_bytes(bytes, i + 2, 0x5d, 0x5d)
        } else {
            None
        };
        match link {
            Some(k) => {
                proof {
                    lemma_ascii_boundary(b, i + 1);
                    lemma_ascii_boundary(b, k - 2);
                    lemma_ascii_boundary(b, k - 1);
                }
                let inner = trim(str_slice(content, i + 2, k - 2));
                if names_note_exec(inner.as_bytes(), old) {
                    push_wikilink(&mut out, new_stem);
                } else {
                    push_str(&mut out, str_slice(content, i, k));
                }
                assert(utf8(out@) + replaced_from(b, k as int, ob, nb) =~= before + replaced_from(
                    b,
                    i as int,
                    ob,
                    nb,
                ));
                i = k;
            },
            None => {
                proof {
                    lemma_next_boundary(b, i as int);
                }
                let w = lead_width_exec(bytes[i]);
                push_str(&mut out, str_slice(content, i, i + w));
                assert(utf8(out@) + replaced_from(b, (i + w) as int, ob, nb) =~= before
                    + replaced_from(b, i as int, ob, nb));
                i = i + w;
            },
        }
    }
    assert(replaced_from(b, i as int, ob, nb) =~= Seq::<u8>::empty());
    assert(utf8(out@) =~= utf8(out@) + Seq::<u8>::empty());
    out
}


/// Some closed `[[link]]` met while scanning `b[i..]` names the note `old`.
pub open spec fn renames_from(b: Seq<u8>, i: int, old: Seq<u8>) -> bool
    decreases b.len() - i,
{
    if 0 <= i < b.len() {
        let w = lead_width(b[i]);
        let link = if i + 1 < b.len() && b[i] == 0x5b && b[i + 1] == 0x5b {
            closer2(b, i + 2, 0x5d, 0x5d)
        } else {
            None
        };
        proof {
            lemma_closer2(b, i + 2, 0x5d, 0x5d);
            assert(w >= 1);
        }
        match link {
            Some(k) => names_note(trim_bytes(b.subrange(i + 2, k - 2)), old) || renames_from(
                b,
                k,
                old,
            ),
            None => renames_from(
                b,
                if i + w <= b.len() {
                    i + w
                } else {
                    b.len() as int
                },
                old,
            ),
        }
    } else {
        false
    }
}

/// Renaming a note leaves a text in which no link names it exactly as it
/// was: other links and unclosed brackets pass through unchanged.
pub proof fn lemma_replace_without_match(b: Seq<u8>, i: int, old: Seq<u8>, new: Seq<u8>)
    requires
        0 <= i <= b.len(),
        !renames_from(b, i, old),
    ensures
        replaced_from(b, i, old, new) == b.subrange(i, b.len() as int),
    decreases b.len() - i,
{
    if i < b.len() {
        let w = lead_width(b[i]);
        lemma_closer2(b, i + 2, 0x5d, 0x5d);
        let link = if i + 1 < b.len() && b[i] == 0x5b && b[i + 1] == 0x5b {
            closer2(b, i + 2, 0x5d, 0x5d)
        } else {
            None
        };
        match link {
            Some(k) => {
                lemma_replace_without_match(b, k, old, new);
                assert(b.subrange(i, k) + b.subrange(k, b.len() as int) =~= b.subrange(
                    i,
                    b.len() as int,
                ));
            },
            None => {
                let e = if i + w <= b.len() {
                    i + w
                } else {
                    b.len() as int
                };
                lemma_replace_without_match(b, e, old, new);
                assert(b.subrange(i, e) + b.subrange(e, b.len() as int) =~= b.subrange(
                    i,
                    b.len() as int,
                ));
            },
        }
    } else {
        assert(b.subrange(i, b.len() as int) =~= Seq::<u8>::empty());
    }
}

/// The decimal digits of `n` as ASCII bytes, most significant first.
pub open spec fn decimal(n: nat) -> Seq<u8>
    decreases n,
{
    if n < 10 {
        seq![(0x30 + n) as u8]
    } else {
        decimal(n / 10).push((0x30 + n % 10) as u8)
    }
}

/// The suffix of step `attempt` of a search for a free file name: nothing
/// at step 0, then `_1`, `_2` and so on.
pub open spec fn step_suffix(attempt: nat) -> Seq<u8> {
    if attempt == 0 {
        Seq::empty()
    } else {
        seq![0x5fu8] + decimal(attempt)
    }
}

/// `stem` and `ext` with the suffix of step `attempt` between them.
pub open spec fn numbered(stem: Seq<u8>, ext: Seq<u8>, attempt: nat) -> Seq<u8> {
    stem + step_suffix(attempt) + ext
}

/// The file name tried at step `attempt` of the search for a free note
/// name: `stem.md` first, then `stem_1.md`, `stem_2.md` and so on.
pub open spec fn candidate_name(stem: Seq<u8>, attempt: nat) -> Seq<u8> {
    numbered(stem, md_ext(), attempt)
}

/// Index of the last `.` in `b[..n]`.
pub open spec fn last_dot(b: Seq<u8>, n: int) -> Option<int>
    decreases n,
{
    if n <= 0 {
        None
    } else if b[n - 1] == 0x2e {
        Some(n - 1)
    } else {
        last_dot(b, n - 1)
    }
}

/// The name tried at step `attempt` when a file called `name` is copied into
/// a folder: the suffix goes before the last `.`, or at the end when there
/// is none.
pub open spec fn copy_name(name: Seq<u8>, attempt: nat) -> Seq<u8> {
    match last_dot(name, name.len() as int) {
        Some(i) => numbered(name.take(i), name.skip(i), attempt),
        None => numbered(name, Seq::empty(), attempt),
    }
}

/// Appends the decimal digits of `n`.
pub(crate) fn push_decimal(s: &mut String, n: usize)
    ensures
        utf8(final(s)@) == utf8(old(s)@) + decimal(n as nat),
    decreases n,
{
    let ghost before = utf8(s@);
    if n >= 10 {
        push_decimal(s, n / 10);
    }
    let d: u8 = (n % 10) as u8;
    push_ascii(s, 0x30 + d);
    assert(utf8(s@) =~= before + decimal(n as nat));
}

/// Appends the suffix of step `attempt`.
fn push_suffix(r: &mut String, attempt: usize)
    ensures
        utf8(final(r)@) == utf8(old(r)@) + step_suffix(attempt as nat),
{
    let ghost before = utf8(r@);
    if attempt > 0 {
        push_ascii(r, 0x5f);
        push_decimal(r, attempt);
    }
    assert(utf8(r@) =~= before + step_suffix(attempt as nat));
}

/// The name to try at step `attempt` of the search for a free note file in a
/// folder; the caller asks the file system whether it is taken and moves on
/// to the next step while it is.
pub fn candidate_filename(stem: &str, attempt: usize) -> (r: String)
    ensures
        utf8(r@) == candidate_name(sb(stem), attempt as nat),
{
    let mut r = to_string(stem);
    push_suffix(&mut r, attempt);
    push_ascii(&mut r, 0x2e);
    push_ascii(&mut r, 0x6d);
    push_ascii(&mut r, 0x64);
    assert(utf8(r@) =~= candidate_name(sb(stem), attempt as nat));
    r
}

/// The name to try at step `attempt` when the file `name` is copied into a
/// folder, searched the same way as [`candidate_filename`].
pub fn copy_candidate(name: &str, attempt: usize) -> (r: String)
    ensures
        utf8(r@) == copy_name(sb(name), attempt as nat),
{
    let b = name.as_bytes();
    let n = b.len();
    let mut k: usize = n;
    while k > 0 && b[k - 1] != 0x2e
        invariant
            k <= n == b@.len(),
            b@ == sb(name),
            last_dot(b@, k as int) == last_dot(b@, n as int),
        decreases k,
    {
        k = k - 1;
    }
    proof {
        lemma_ends_boundary(b@);
    }
    if k == 0 {
        assert(last_dot(b@, n as int) is None);
        let mut r = to_string(name);
        push_suffix(&mut r, attempt);
        assert(utf8(r@) =~= copy_name(sb(name), attempt as nat));
        r
    } else {
        proof {
            lemma_ascii_boundary(b@, k as int - 1);
        }
        let stem = str_slice(name, 0, k - 1);
        let ext = str_slice(name, k - 1, n);
        assert(sb(stem) =~= b@.take(k - 1));
        assert(sb(ext) =~= b@.skip(k - 1));
        let mut r = to_string(stem);
        push_suffix(&mut r, attempt);
        push_str(&mut r, ext);
        assert(utf8(r@) =~= copy_name(sb(name), attempt as nat));
        r
    }
}


/// No `[[` anywhere in `t`, and `t` does not end in a `[` that could pair
/// with a `[` after it: no link opens in `t`.
pub open spec fn opens_no_link(t: Seq<u8>) -> bool {
    &&& forall|j: int| 0 <= j < t.len() - 1 ==> !(#[trigger] t[j] == 0x5b && t[j + 1] == 0x5b)
    &&& (t.len() == 0 || t.last() != 0x5b)
}

/// No `]]` anywhere in `t`, and `t` does not end in `]`: a link around `t`
/// closes right after it.
pub open spec fn closes_no_link(t: Seq<u8>) -> bool {
    &&& forall|j: int| 0 <= j < t.len() - 1 ==> !(#[trigger] t[j] == 0x5d && t[j + 1] == 0x5d)
    &&& (t.len() == 0 || t.last() != 0x5d)
}

proof fn lemma_rename_prefix(t: Seq<u8>, x: Seq<u8>, i: int, old: Seq<u8>, new: Seq<u8>)
    requires
        valid_utf8(t),
        0 <= i <= t.len(),
        is_char_boundary(t, i),
        opens_no_link(t),
    ensures
        replaced_from(t + x, i, old, new) == replaced_from(t, i, old, new) + replaced_from(
            t + x,
            t.len() as int,
            old,
            new,
        ),
    decreases t.len() - i,
{
    let b = t + x;
    if i < t.len() {
        lemma_next_boundary(t, i);
        let w = lead_width(t[i]);
        assert(b[i] == t[i]);
        if i + 1 < t.len() {
            assert(b[i + 1] == t[i + 1]);
            assert(!(t[i] == 0x5b && t[i + 1] == 0x5b));
        } else {
            assert(t.last() == t[i]);
        }
        lemma_rename_prefix(t, x, i + w, old, new);
        assert(b.subrange(i, i + w) =~= t.subrange(i, i + w));
        assert(replaced_from(t, i, old, new) == t.subrange(i, i + w) + replaced_from(t, i + w, old, new));
        assert(replaced_from(b, i, old, new) == b.subrange(i, i + w) + replaced_from(b, i + w, old, new));
    } else {
        assert(replaced_from(t, i, old, new) =~= Seq::<u8>::empty());
        assert(Seq::<u8>::empty() + replaced_from(b, i, old, new) =~= replaced_from(b, i, old, new));
    }
}

proof fn lemma_closer2_at(b: Seq<u8>, j: int, k: int)
    requires
        0 <= j <= k,
        k + 1 < b.len(),
        b[k] == 0x5d && b[k + 1] == 0x5d,
        forall|m: int| j <= m < k ==> !(#[trigger] b[m] == 0x5d && b[m + 1] == 0x5d),
    ensures
        closer2(b, j, 0x5d, 0x5d) == Some(k + 2),
    decreases k - j,
{
    if j < k {
        assert(!(b[j] == 0x5d && b[j + 1] == 0x5d));
        lemma_closer2_at(b, j + 1, k);
    }
}

/// Renaming a note rewrites a link to it wherever the link stands, the very
/// end of the text included: a text `t` in which no link opens, followed by
/// `[[target]]` whose trimmed target names `old` (with or without `.md`),
/// renames to the renamed `t` followed by `[[new]]`.
pub proof fn lemma_rename_trailing_link(t: Seq<u8>, target: Seq<u8>, old: Seq<u8>, new: Seq<u8>)
    requires
        valid_utf8(t),
        opens_no_link(t),
        closes_no_link(target),
        names_note(trim_bytes(target), old),
    ensures
        replaced_from(t + wikilink(target), 0, old, new) == replaced_from(t, 0, old, new) + wikilink(
            new,
        ),
{
    let x = wikilink(target);
    let b = t + x;
    let n = t.len() as int;
    lemma_ends_boundary(t);
    lemma_rename_prefix(t, x, 0, old, new);
    assert(b[n] == 0x5b && b[n + 1] == 0x5b);
    let k = n + 2 + target.len();
    assert(b.len() == k + 2);
    assert(b[k] == 0x5d && b[k + 1] == 0x5d);
    assert forall|m: int| n + 2 <= m < k implies !(#[trigger] b[m] == 0x5d && b[m + 1] == 0x5d) by {
        assert(b[m] == target[m - n - 2]);
        if m + 1 < k {
            assert(b[m + 1] == target[m + 1 - n - 2]);
        } else {
            assert(target.last() == target[m - n - 2]);
        }
    }
    lemma_closer2_at(b, n + 2, k);
    assert(b.subrange(n + 2, k) =~= target);
    assert(replaced_from(b, b.len() as int, old, new) =~= Seq::<u8>::empty());
    assert(replaced_from(b, n, old, new) =~= wikilink(new));
}


proof fn lemma_closer2_shift(p: Seq<u8>, t: Seq<u8>, j: int)
    requires
        0 <= j,
    ensures
        closer2(p + t, p.len() + j, 0x5d, 0x5d) == (match closer2(t, j, 0x5d, 0x5d) {
            Some(k) => Some(p.len() + k),
            None => None,
        }),
    decreases t.len() - j,
{
    let b = p + t;
    if j + 1 < t.len() {
        assert(b[p.len() + j] == t[j]);
        assert(b[p.len() + j + 1] == t[j + 1]);
        if !(t[j] == 0x5d && t[j + 1] == 0x5d) {
            lemma_closer2_shift(p, t, j + 1);
        }
    }
}

proof fn lemma_rename_shift(p: Seq<u8>, t: Seq<u8>, i: int, old: Seq<u8>, new: Seq<u8>)
    requires
        0 <= i <= t.len(),
    ensures
        replaced_from(p + t, p.len() + i, old, new) == replaced_from(t, i, old, new),
    decreases t.len() - i,
{
    let b = p + t;
    let q = p.len() + i;
    if i < t.len() {
        assert(b[q] == t[i]);
        if i + 1 < t.len() {
            assert(b[q + 1] == t[i + 1]);
        }
        lemma_closer2(t, i + 2, 0x5d, 0x5d);
        lemma_closer2_shift(p, t, i + 2);
        let w = lead_width(t[i]);
        let link = if i + 1 < t.len() && t[i] == 0x5b && t[i + 1] == 0x5b {
            closer2(t, i + 2, 0x5d, 0x5d)
        } else {
            None
        };
        match link {
            Some(k) => {
                lemma_rename_shift(p, t, k, old, new);
                assert(b.subrange(q + 2, p.len() + k - 2) =~= t.subrange(i + 2, k - 2));
                assert(b.subrange(q, p.len() + k) =~= t.subrange(i, k));
            },
            None => {
                let e = if i + w <= t.len() {
                    i + w
                } else {
                    t.len() as int
                };
                lemma_rename_shift(p, t, e, old, new);
                assert(b.subrange(q, p.len() + e) =~= t.subrange(i, e));
            },
        }
    }
}

/// Renaming a note rewrites a link to it that opens the text, whatever
/// follows: `[[target]]` whose trimmed target names `old` (with or without
/// `.md`), followed by any text `t`, renames to `[[new]]` followed by the
/// renamed `t`.
pub proof fn lemma_rename_leading_link(target: Seq<u8>, t: Seq<u8>, old: Seq<u8>, new: Seq<u8>)
    requires
        closes_no_link(target),
        names_note(trim_bytes(target), old),
    ensures
        replaced_from(wikilink(target) + t, 0, old, new) == wikilink(new) + replaced_from(
            t,
            0,
            old,
            new,
        ),
{
    let x = wikilink(target);
    let b = x + t;
    let k: int = 2 + target.len() as int;
    assert(b[0] == 0x5b && b[1] == 0x5b);
    assert(b[k] == 0x5d && b[k + 1] == 0x5d);
    assert forall|m: int| 2 <= m < k implies !(#[trigger] b[m] == 0x5d && b[m + 1] == 0x5d) by {
        assert(b[m] == target[m - 2]);
        if m + 1 < k {
            assert(b[m + 1] == target[m - 1]);
        } else {
            assert(target.last() == target[m - 2]);
        }
    }
    lemma_closer2_at(b, 2, k);
    assert(b.subrange(2, k) =~= target);
    lemma_rename_shift(x, t, 0, old, new);
    assert(x.len() == k + 2);
}

} // verus!
