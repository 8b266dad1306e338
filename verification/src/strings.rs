//! UTF-8 text model shared by every parser in the crate.
//!
//! A `&str` or `String` is modelled by its UTF-8 bytes (`encode_utf8` of its
//! character view). Parsers scan those bytes and cut the text only at
//! character boundaries; the lemmas here show that the cut points they use
//! (ASCII markers, Unicode whitespace) are boundaries.

use crate::frontmatter::join_lines;
use vstd::prelude::*;
use vstd::std_specs::iter::IteratorSpec;
use vstd::string::*;
use vstd::utf8::*;

verus! {

broadcast use vstd::utf8::group_utf8_lib;

/// UTF-8 bytes of a character sequence (the model of a `String`'s text).
pub open spec fn utf8(chars: Seq<char>) -> Seq<u8> {
    encode_utf8(chars)
}

/// Width in bytes of the character whose leading byte is `x`.
pub open spec fn lead_width(x: u8) -> int {
    if x < 0x80 {
        1
    } else if x < 0xe0 {
        2
    } else if x < 0xf0 {
        3
    } else {
        4
    }
}

/// The encoding of a concatenation is the concatenation of the encodings.
pub proof fn lemma_utf8_concat(a: Seq<char>, b: Seq<char>)
    ensures
        encode_utf8(a + b) == encode_utf8(a) + encode_utf8(b),
    decreases a.len(),
{
    if a.len() == 0 {
        assert(a + b =~= b);
        assert(encode_utf8(a) =~= Seq::<u8>::empty());
        assert(encode_utf8(a) + encode_utf8(b) =~= encode_utf8(b));
    } else {
        lemma_utf8_concat(a.drop_first(), b);
        assert((a + b).drop_first() =~= a.drop_first() + b);
        assert((a + b)[0] == a[0]);
        assert(encode_utf8(a + b) =~= encode_scalar(a[0] as u32) + encode_utf8(a.drop_first() + b));
        assert(encode_utf8(a) =~= encode_scalar(a[0] as u32) + encode_utf8(a.drop_first()));
        assert(encode_utf8(a + b) =~= encode_utf8(a) + encode_utf8(b));
    }
}

/// An ASCII character encodes as the single byte with its value.
pub proof fn lemma_utf8_ascii_char(c: char)
    requires
        (c as u32) < 0x80,
    ensures
        encode_utf8(seq![c]) == seq![c as u8],
{
    let s = seq![c];
    assert(is_ascii_chars(s));
    is_ascii_chars_encode_utf8(s);
    assert(encode_utf8(s) =~= seq![c as u8]);
}

/// From a character boundary, the next boundary lies `lead_width` bytes on.
pub proof fn lemma_next_boundary(bytes: Seq<u8>, i: int)
    requires
        valid_utf8(bytes),
        is_char_boundary(bytes, i),
        0 <= i < bytes.len(),
    ensures
        i + lead_width(bytes[i]) <= bytes.len(),
        is_char_boundary(bytes, i + lead_width(bytes[i])),
    decreases bytes.len(),
{
    let l = length_of_first_scalar(bytes);
    let pop = pop_first_scalar(bytes);
    assert(valid_first_scalar(bytes));
    assert(valid_utf8(pop));
    assert(1 <= l <= bytes.len());
    assert(pop.len() == bytes.len() - l);
    if i == 0 {
        assert(lead_width(bytes[0]) == l);
        assert(is_char_boundary(pop, 0));
        assert(is_char_boundary(bytes, l));
    } else {
        assert(is_char_boundary(pop, i - l));
        assert(i - l >= 0);
        assert(pop[i - l] == bytes[i]);
        lemma_next_boundary(pop, i - l);
        let w = lead_width(bytes[i]);
        assert(is_char_boundary(pop, i + w - l));
        assert(is_char_boundary(bytes, i + w));
    }
}

/// A byte that is not a continuation byte starts a character.
pub proof fn lemma_lead_boundary(bytes: Seq<u8>, i: int)
    requires
        valid_utf8(bytes),
        0 <= i < bytes.len(),
        !is_continuation_byte(bytes[i]),
    ensures
        is_char_boundary(bytes, i),
{
    is_char_boundary_iff_not_is_continuation_byte(bytes, i);
}

/// An ASCII byte is a whole character: there are boundaries on both sides.
pub proof fn lemma_ascii_boundary(bytes: Seq<u8>, i: int)
    requires
        valid_utf8(bytes),
        0 <= i < bytes.len(),
        bytes[i] < 0x80,
    ensures
        is_char_boundary(bytes, i),
        is_char_boundary(bytes, i + 1),
{
    lemma_lead_boundary(bytes, i);
    lemma_next_boundary(bytes, i);
}

/// The ends of valid text are boundaries.
pub proof fn lemma_ends_boundary(bytes: Seq<u8>)
    requires
        valid_utf8(bytes),
    ensures
        is_char_boundary(bytes, 0),
        is_char_boundary(bytes, bytes.len() as int),
{
    is_char_boundary_start_end_of_seq(bytes);
}

/// Cutting valid text at boundary `a` leaves a suffix in which `b` keeps
/// being a boundary (shifted by `a`).
pub proof fn lemma_boundary_in_suffix(bytes: Seq<u8>, a: int, b: int)
    requires
        valid_utf8(bytes),
        0 <= a <= b <= bytes.len(),
        is_char_boundary(bytes, a),
        is_char_boundary(bytes, b),
    ensures
        valid_utf8(bytes.subrange(a, bytes.len() as int)),
        is_char_boundary(bytes.subrange(a, bytes.len() as int), b - a),
{
    let sub = bytes.subrange(a, bytes.len() as int);
    valid_utf8_split(bytes, a);
    if b == bytes.len() {
        is_char_boundary_start_end_of_seq(sub);
    } else {
        is_char_boundary_iff_not_is_continuation_byte(bytes, b);
        assert(sub[b - a] == bytes[b]);
        is_char_boundary_iff_not_is_continuation_byte(sub, b - a);
    }
}

/// Byte view of a string slice.
pub open spec fn sb(s: &str) -> Seq<u8> {
    s.spec_bytes()
}

/// A sub-slice of `s` between two character boundaries.
pub fn str_slice<'a>(s: &'a str, a: usize, b: usize) -> (r: &'a str)
    requires
        a <= b <= sb(s).len(),
        is_char_boundary(sb(s), a as int),
        is_char_boundary(sb(s), b as int),
    ensures
        sb(r) == sb(s).subrange(a as int, b as int),
{
    let ghost bytes = sb(s);
    proof {
        lemma_boundary_in_suffix(bytes, a as int, b as int);
    }
    let (_, rest) = s.split_at(a);
    assert(sb(rest) =~= bytes.subrange(a as int, bytes.len() as int));
    let (mid, _) = rest.split_at(b - a);
    assert(sb(mid) =~= bytes.subrange(a as int, b as int));
    mid
}

/// An owned copy of a string slice.
pub fn to_string(s: &str) -> (r: String)
    ensures
        utf8(r@) == sb(s),
        r@ == s@,
{
    s.to_owned()
}

/// Appends `t` to `s`.
pub fn push_str(s: &mut String, t: &str)
    ensures
        utf8(final(s)@) == utf8(old(s)@) + sb(t),
{
    let ghost before = s@;
    s.append(t);
    proof {
        lemma_utf8_concat(before, t@);
    }
}

/// An empty string.
pub fn empty_string() -> (r: String)
    ensures
        utf8(r@) == Seq::<u8>::empty(),
        r@ == Seq::<char>::empty(),
{
    let r = String::new();
    assert(utf8(r@) =~= Seq::<u8>::empty());
    r
}

/// `String::push`: appends one character at the end.
#[verifier::external_body]
pub(crate) fn string_push(s: &mut String, c: char)
    ensures
        final(s)@ == old(s)@.push(c),
{
    s.push(c);
}

/// Appends an ASCII byte, as a character, to `s`.
pub fn push_ascii(s: &mut String, x: u8)
    requires
        x < 0x80,
    ensures
        utf8(final(s)@) == utf8(old(s)@).push(x),
{
    let ghost before = s@;
    let c = x as char;
    assert((c as u32) < 0x80);
    string_push(s, c);
    proof {
        lemma_utf8_concat(before, seq![c]);
        lemma_utf8_ascii_char(c);
        assert(before.push(c) =~= before + seq![c]);
        assert(c as u8 == x);
        assert(utf8(before) + seq![x] =~= utf8(before).push(x));
    }
}


/// ASCII whitespace in the Unicode `White_Space` sense: tab, line feed,
/// vertical tab, form feed, carriage return and space.
pub open spec fn ascii_ws(x: u8) -> bool {
    x == 0x20 || (0x09 <= x && x <= 0x0d)
}

/// Two-byte encodings of `White_Space` characters: U+0085 and U+00A0.
pub open spec fn ws2(x: u8, y: u8) -> bool {
    x == 0xc2 && (y == 0x85 || y == 0xa0)
}

/// Three-byte encodings of `White_Space` characters: U+1680, U+2000..=U+200A,
/// U+2028, U+2029, U+202F, U+205F and U+3000.
pub open spec fn ws3(x: u8, y: u8, z: u8) -> bool {
    ||| (x == 0xe1 && y == 0x9a && z == 0x80)
    ||| (x == 0xe2 && y == 0x80 && ((0x80 <= z && z <= 0x8a) || z == 0xa8 || z == 0xa9 || z
        == 0xaf))
    ||| (x == 0xe2 && y == 0x81 && z == 0x9f)
    ||| (x == 0xe3 && y == 0x80 && z == 0x80)
}

/// Byte length of the whitespace character starting at byte `i`, or 0 when
/// the character there is not whitespace (what `char::is_whitespace` says).
pub open spec fn ws_len_at(b: Seq<u8>, i: int) -> int {
    if 0 <= i < b.len() && ascii_ws(b[i]) {
        1
    } else if 0 <= i && i + 1 < b.len() && ws2(b[i], b[i + 1]) {
        2
    } else if 0 <= i && i + 2 < b.len() && ws3(b[i], b[i + 1], b[i + 2]) {
        3
    } else {
        0
    }
}

/// Byte length of the whitespace character ending just before byte `j`,
/// not reaching below `lo`; 0 when there is none.
pub open spec fn ws_len_before(b: Seq<u8>, lo: int, j: int) -> int {
    if lo <= j - 1 && j <= b.len() && 0 <= lo && ascii_ws(b[j - 1]) {
        1
    } else if lo <= j - 2 && j <= b.len() && 0 <= lo && ws2(b[j - 2], b[j - 1]) {
        2
    } else if lo <= j - 3 && j <= b.len() && 0 <= lo && ws3(b[j - 3], b[j - 2], b[j - 1]) {
        3
    } else {
        0
    }
}

/// First byte at or after `i` that does not start a whitespace character.
pub open spec fn skip_ws(b: Seq<u8>, i: int) -> int
    decreases b.len() - i,
{
    if 0 <= i < b.len() && ws_len_at(b, i) > 0 {
        skip_ws(b, i + ws_len_at(b, i))
    } else {
        i
    }
}

/// End of `b[lo..j]` once trailing whitespace characters are dropped.
pub open spec fn skip_ws_back(b: Seq<u8>, lo: int, j: int) -> int
    decreases j - lo,
{
    if ws_len_before(b, lo, j) > 0 {
        skip_ws_back(b, lo, j - ws_len_before(b, lo, j))
    } else {
        j
    }
}

/// `str::trim_start`: the text without its leading whitespace.
pub open spec fn trim_start_bytes(b: Seq<u8>) -> Seq<u8> {
    b.subrange(skip_ws(b, 0), b.len() as int)
}

/// `str::trim_end`: the text without its trailing whitespace.
pub open spec fn trim_end_bytes(b: Seq<u8>) -> Seq<u8> {
    b.subrange(0, skip_ws_back(b, 0, b.len() as int))
}

/// `str::trim`: the text without leading and trailing whitespace.
pub open spec fn trim_bytes(b: Seq<u8>) -> Seq<u8> {
    trim_end_bytes(trim_start_bytes(b))
}

/// Every whitespace test on valid text only looks at whole characters.
pub proof fn lemma_skip_ws_bounds(b: Seq<u8>, i: int)
    requires
        0 <= i <= b.len(),
    ensures
        i <= skip_ws(b, i) <= b.len(),
    decreases b.len() - i,
{
    if 0 <= i < b.len() && ws_len_at(b, i) > 0 {
        lemma_skip_ws_bounds(b, i + ws_len_at(b, i));
    }
}

pub proof fn lemma_skip_ws_back_bounds(b: Seq<u8>, lo: int, j: int)
    requires
        0 <= lo <= j <= b.len(),
    ensures
        lo <= skip_ws_back(b, lo, j) <= j,
    decreases j - lo,
{
    if ws_len_before(b, lo, j) > 0 {
        lemma_skip_ws_back_bounds(b, lo, j - ws_len_before(b, lo, j));
    }
}

/// Skipping whitespace from a boundary lands on a boundary.
pub proof fn lemma_skip_ws_boundary(b: Seq<u8>, i: int)
    requires
        valid_utf8(b),
        0 <= i <= b.len(),
        is_char_boundary(b, i),
    ensures
        is_char_boundary(b, skip_ws(b, i)),
    decreases b.len() - i,
{
    if 0 <= i < b.len() && ws_len_at(b, i) > 0 {
        lemma_next_boundary(b, i);
        assert(ws_len_at(b, i) == lead_width(b[i]));
        lemma_skip_ws_boundary(b, i + ws_len_at(b, i));
    }
}

/// Dropping trailing whitespace from a boundary lands on a boundary.
pub proof fn lemma_skip_ws_back_boundary(b: Seq<u8>, lo: int, j: int)
    requires
        valid_utf8(b),
        0 <= lo <= j <= b.len(),
        is_char_boundary(b, j),
    ensures
        is_char_boundary(b, skip_ws_back(b, lo, j)),
    decreases j - lo,
{
    let w = ws_len_before(b, lo, j);
    if w > 0 {
        lemma_lead_boundary(b, j - w);
        lemma_skip_ws_back_boundary(b, lo, j - w);
    }
}

/// Byte length of the whitespace character at `i` (see [`ws_len_at`]).
pub fn ws_len_at_exec(b: &[u8], i: usize) -> (w: usize)
    ensures
        w == ws_len_at(b@, i as int),
{
    let n = b.len();
    if i < n && (b[i] == 0x20 || (0x09 <= b[i] && b[i] <= 0x0d)) {
        1
    } else if i < n && n - i > 1 && b[i] == 0xc2 && (b[i + 1] == 0x85 || b[i + 1] == 0xa0) {
        2
    } else if i < n && n - i > 2 && is_ws3(b[i], b[i + 1], b[i + 2]) {
        3
    } else {
        0
    }
}

fn is_ws3(x: u8, y: u8, z: u8) -> (r: bool)
    ensures
        r == ws3(x, y, z),
{
    (x == 0xe1 && y == 0x9a && z == 0x80) || (x == 0xe2 && y == 0x80 && ((0x80 <= z && z <= 0x8a)
        || z == 0xa8 || z == 0xa9 || z == 0xaf)) || (x == 0xe2 && y == 0x81 && z == 0x9f) || (x
        == 0xe3 && y == 0x80 && z == 0x80)
}

/// Byte length of the whitespace character ending at `j` (see
/// [`ws_len_before`]).
pub fn ws_len_before_exec(b: &[u8], lo: usize, j: usize) -> (w: usize)
    requires
        lo <= j <= b.len(),
    ensures
        w == ws_len_before(b@, lo as int, j as int),
{
    if j - lo >= 1 && (b[j - 1] == 0x20 || (0x09 <= b[j - 1] && b[j - 1] <= 0x0d)) {
        1
    } else if j - lo >= 2 && b[j - 2] == 0xc2 && (b[j - 1] == 0x85 || b[j - 1] == 0xa0) {
        2
    } else if j - lo >= 3 && is_ws3(b[j - 3], b[j - 2], b[j - 1]) {
        3
    } else {
        0
    }
}

/// Position of the first non-whitespace character at or after `i`.
pub fn skip_ws_exec(b: &[u8], i: usize) -> (r: usize)
    requires
        i <= b.len(),
    ensures
        r == skip_ws(b@, i as int),
        i <= r <= b.len(),
{
    let mut k = i;
    loop
        invariant
            i <= k <= b.len(),
            skip_ws(b@, i as int) == skip_ws(b@, k as int),
        decreases b.len() - k,
    {
        let w = ws_len_at_exec(b, k);
        if w == 0 {
            return k;
        }
        k = k + w;
    }
}

/// End of `b[lo..j]` without its trailing whitespace.
pub fn skip_ws_back_exec(b: &[u8], lo: usize, j: usize) -> (r: usize)
    requires
        lo <= j <= b.len(),
    ensures
        r == skip_ws_back(b@, lo as int, j as int),
        lo <= r <= j,
{
    let mut k = j;
    loop
        invariant
            lo <= k <= j <= b.len(),
            skip_ws_back(b@, lo as int, j as int) == skip_ws_back(b@, lo as int, k as int),
        decreases k - lo,
    {
        let w = ws_len_before_exec(b, lo, k);
        if w == 0 {
            return k;
        }
        k = k - w;
    }
}

/// `str::trim_start`.
pub fn trim_start(s: &str) -> (r: &str)
    ensures
        sb(r) == trim_start_bytes(sb(s)),
{
    let b = s.as_bytes();
    let a = skip_ws_exec(b, 0);
    proof {
        lemma_ends_boundary(b@);
        lemma_skip_ws_boundary(b@, 0);
    }
    str_slice(s, a, b.len())
}

/// `str::trim_end`.
pub fn trim_end(s: &str) -> (r: &str)
    ensures
        sb(r) == trim_end_bytes(sb(s)),
{
    let b = s.as_bytes();
    let e = skip_ws_back_exec(b, 0, b.len());
    proof {
        lemma_ends_boundary(b@);
        lemma_skip_ws_back_boundary(b@, 0, b@.len() as int);
    }
    str_slice(s, 0, e)
}

/// `str::trim`.
pub fn trim(s: &str) -> (r: &str)
    ensures
        sb(r) == trim_bytes(sb(s)),
{
    trim_end(trim_start(s))
}

/// Index of the first line feed at or after `i` (or the length).
pub open spec fn next_nl(b: Seq<u8>, i: int) -> int
    decreases b.len() - i,
{
    if 0 <= i < b.len() {
        if b[i] == 0x0a {
            i
        } else {
            next_nl(b, i + 1)
        }
    } else {
        b.len() as int
    }
}

pub proof fn lemma_next_nl(b: Seq<u8>, i: int)
    requires
        0 <= i <= b.len(),
    ensures
        i <= next_nl(b, i) <= b.len(),
        next_nl(b, i) < b.len() ==> b[next_nl(b, i)] == 0x0a,
    decreases b.len() - i,
{
    if 0 <= i < b.len() && b[i] != 0x0a {
        lemma_next_nl(b, i + 1);
    }
}

/// The lines of `b[start..]`, as `str::lines` splits them: at each line
/// feed, dropping a carriage return that sits right before it; a final line
/// feed ends the last line instead of starting an empty one.
pub open spec fn lines_from(b: Seq<u8>, start: int) -> Seq<Seq<u8>>
    decreases b.len() - start,
{
    if start < 0 || start >= b.len() {
        Seq::empty()
    } else {
        let e = next_nl(b, start);
        proof {
            lemma_next_nl(b, start);
        }
        if e >= b.len() {
            seq![b.subrange(start, b.len() as int)]
        } else {
            let le = if e > start && b[e - 1] == 0x0d {
                e - 1
            } else {
                e
            };
            seq![b.subrange(start, le)] + lines_from(b, e + 1)
        }
    }
}

/// The lines of a text (see [`lines_from`]).
pub open spec fn text_lines(b: Seq<u8>) -> Seq<Seq<u8>> {
    lines_from(b, 0)
}

/// Byte views of a sequence of string slices.
pub open spec fn views_of(v: Seq<&str>) -> Seq<Seq<u8>> {
    v.map_values(|x: &str| sb(x))
}

/// Splits `s` into its lines (see [`text_lines`]).
pub fn split_lines<'a>(s: &'a str) -> (r: Vec<&'a str>)
    ensures
        views_of(r@) == text_lines(sb(s)),
{
    let b = s.as_bytes();
    let n = b.len();
    let mut out: Vec<&'a str> = Vec::new();
    let mut start: usize = 0;
    proof {
        lemma_ends_boundary(b@);
        assert(views_of(out@) =~= Seq::<Seq<u8>>::empty());
    }
    while start < n
        invariant
            start <= n == b@.len(),
            b@ == sb(s),
            valid_utf8(b@),
            is_char_boundary(b@, start as int),
            is_char_boundary(b@, n as int),
            views_of(out@) + lines_from(b@, start as int) == text_lines(b@),
        decreases n - start,
    {
        let mut e = start;
        while e < n && b[e] != 0x0a
            invariant
                start <= e <= n == b@.len(),
                next_nl(b@, start as int) == next_nl(b@, e as int),
            decreases n - e,
        {
            e = e + 1;
        }
        proof {
            lemma_next_nl(b@, start as int);
        }
        let ghost before = out@;
        if e == n {
            let piece = str_slice(s, start, n);
            out.push(piece);
            proof {
                assert(lines_from(b@, start as int) =~= seq![b@.subrange(start as int, n as int)]);
                assert(lines_from(b@, n as int) =~= Seq::<Seq<u8>>::empty());
                assert(views_of(out@) =~= views_of(before) + seq![sb(piece)]);
            }
            start = n;
        } else {
            proof {
                lemma_ascii_boundary(b@, e as int);
            }
            let le = if e > start && b[e - 1] == 0x0d {
                proof {
                    lemma_ascii_boundary(b@, e - 1);
                }
                e - 1
            } else {
                e
            };
            let piece = str_slice(s, start, le);
            out.push(piece);
            proof {
                assert(views_of(out@) =~= views_of(before) + seq![sb(piece)]);
                assert(lines_from(b@, start as int) =~= seq![sb(piece)] + lines_from(
                    b@,
                    e + 1,
                ));
            }
            start = e + 1;
        }
    }
    proof {
        assert(lines_from(b@, start as int) =~= Seq::<Seq<u8>>::empty());
        assert(views_of(out@) + Seq::<Seq<u8>>::empty() =~= views_of(out@));
    }
    out
}

/// The text that `str::to_lowercase` gives for a character sequence
/// (Unicode lower-case mapping, which depends on the characters alone).
pub uninterp spec fn lowercase(s: Seq<char>) -> Seq<char>;

/// `str::to_lowercase`.
#[verifier::external_body]
pub(crate) fn to_lowercase(s: &str) -> (r: String)
    ensures
        r@ == lowercase(s@),
{
    s.to_lowercase()
}

/// `pat` occurs in `b` at byte `p`.
pub open spec fn occurs_at(b: Seq<u8>, p: int, pat: Seq<u8>) -> bool {
    0 <= p && p + pat.len() <= b.len() && b.subrange(p, p + pat.len()) == pat
}

/// `pat` occurs somewhere in `b` (byte-substring search, as `str::contains`).
pub open spec fn contains_bytes(b: Seq<u8>, pat: Seq<u8>) -> bool {
    exists|p: int| occurs_at(b, p, pat)
}

/// Whether `pat` occurs in `b` at byte `p`.
pub fn occurs_at_exec(b: &[u8], p: usize, pat: &[u8]) -> (r: bool)
    ensures
        r == occurs_at(b@, p as int, pat@),
{
    if p > b.len() || pat.len() > b.len() - p {
        return false;
    }
    let mut k: usize = 0;
    while k < pat.len()
        invariant
            p + pat@.len() <= b@.len(),
            b@.len() == b.len(),
            pat@.len() == pat.len(),
            k <= pat@.len(),
            forall|t: int| 0 <= t < k ==> b@[p + t] == pat@[t],
        decreases pat.len() - k,
    {
        if b[p + k] != pat[k] {
            assert(b@.subrange(p as int, p + pat@.len())[k as int] != pat@[k as int]);
            return false;
        }
        k = k + 1;
    }
    assert(b@.subrange(p as int, p + pat@.len()) =~= pat@);
    true
}

/// Whether `pat` occurs anywhere in `b`.
pub fn contains_exec(b: &[u8], pat: &[u8]) -> (r: bool)
    ensures
        r == contains_bytes(b@, pat@),
{
    if pat.len() > b.len() {
        assert forall|p: int| !occurs_at(b@, p, pat@) by {}
        return false;
    }
    let last = b.len() - pat.len();
    let mut p: usize = 0;
    loop
        invariant
            pat@.len() <= b@.len(),
            last == b@.len() - pat@.len(),
            p <= last,
            forall|q: int| 0 <= q < p ==> !occurs_at(b@, q, pat@),
        decreases last - p,
    {
        if occurs_at_exec(b, p, pat) {
            return true;
        }
        if p == last {
            assert forall|q: int| !occurs_at(b@, q, pat@) by {
                if 0 <= q <= p {
                }
            }
            return false;
        }
        p = p + 1;
    }
}

/// `pat` is a prefix of `b` (`str::starts_with` on the byte encodings).
pub open spec fn is_prefix_bytes(pat: Seq<u8>, b: Seq<u8>) -> bool {
    pat.len() <= b.len() && b.subrange(0, pat.len() as int) == pat
}

/// Whether `b` starts with `pat`.
pub fn starts_with_bytes(b: &[u8], pat: &[u8]) -> (r: bool)
    ensures
        r == is_prefix_bytes(pat@, b@),
{
    occurs_at_exec(b, 0, pat)
}

/// A copy of a list of lines.
pub fn copy_lines(lines: &[String]) -> (r: Vec<String>)
    ensures
        r@ == lines@,
{
    let mut out: Vec<String> = Vec::new();
    let mut k: usize = 0;
    while k < lines.len()
        invariant
            k <= lines@.len(),
            out@ == lines@.take(k as int),
        decreases lines.len() - k,
    {
        out.push(lines[k].clone());
        assert(lines@.take(k + 1) =~= lines@.take(k as int).push(lines@[k as int]));
        k = k + 1;
    }
    assert(lines@.take(k as int) =~= lines@);
    out
}

/// First index at or after `i` holding byte `x`, or the length.
pub open spec fn byte_pos(b: Seq<u8>, x: u8, i: int) -> int
    decreases b.len() - i,
{
    if 0 <= i < b.len() {
        if b[i] == x {
            i
        } else {
            byte_pos(b, x, i + 1)
        }
    } else {
        b.len() as int
    }
}

pub proof fn lemma_byte_pos(b: Seq<u8>, x: u8, i: int)
    requires
        0 <= i <= b.len(),
    ensures
        i <= byte_pos(b, x, i) <= b.len(),
        byte_pos(b, x, i) < b.len() ==> b[byte_pos(b, x, i)] == x,
        forall|j: int| i <= j < byte_pos(b, x, i) ==> b[j] != x,
    decreases b.len() - i,
{
    if 0 <= i < b.len() && b[i] != x {
        lemma_byte_pos(b, x, i + 1);
    }
}

/// Index of the first byte `x` at or after `i` (see [`byte_pos`]).
pub fn find_byte(b: &[u8], x: u8, i: usize) -> (r: usize)
    requires
        i <= b@.len(),
    ensures
        r == byte_pos(b@, x, i as int),
{
    let mut k = i;
    while k < b.len() && b[k] != x
        invariant
            i <= k <= b@.len(),
            byte_pos(b@, x, i as int) == byte_pos(b@, x, k as int),
        decreases b@.len() - k,
    {
        k = k + 1;
    }
    k
}

/// Whether `a` and `b` hold the same bytes.
pub fn bytes_eq(a: &[u8], b: &[u8]) -> (r: bool)
    ensures
        r == (a@ == b@),
{
    if a.len() != b.len() {
        return false;
    }
    let mut k: usize = 0;
    while k < a.len()
        invariant
            a@.len() == b@.len(),
            k <= a@.len(),
            forall|t: int| 0 <= t < k ==> a@[t] == b@[t],
        decreases a@.len() - k,
    {
        if a[k] != b[k] {
            return false;
        }
        k = k + 1;
    }
    assert(a@ =~= b@);
    true
}

/// Whitespace tests look only at the bytes from `i` on: prefixing text
/// shifts them.
pub proof fn lemma_ws_len_at_shift(p: Seq<u8>, b: Seq<u8>, i: int)
    requires
        0 <= i <= b.len(),
    ensures
        ws_len_at(p + b, p.len() + i) == ws_len_at(b, i),
{
    let x = p + b;
    if i < b.len() {
        assert(x[p.len() + i] == b[i]);
    }
    if i + 1 < b.len() {
        assert(x[p.len() + i + 1] == b[i + 1]);
    }
    if i + 2 < b.len() {
        assert(x[p.len() + i + 2] == b[i + 2]);
    }
}

/// Skipping whitespace in `p + b` past `p` is skipping it in `b`.
pub proof fn lemma_skip_ws_shift(p: Seq<u8>, b: Seq<u8>, i: int)
    requires
        0 <= i <= b.len(),
    ensures
        skip_ws(p + b, p.len() + i) == p.len() + skip_ws(b, i),
    decreases b.len() - i,
{
    lemma_ws_len_at_shift(p, b, i);
    let w = ws_len_at(b, i);
    if i < b.len() && w > 0 {
        assert(i + w <= b.len());
        lemma_skip_ws_shift(p, b, i + w);
    }
}

/// Trimming a text with a space in front trims the text.
pub proof fn lemma_trim_leading_space(v: Seq<u8>)
    ensures
        trim_bytes(seq![0x20u8] + v) == trim_bytes(v),
{
    let x = seq![0x20u8] + v;
    assert(ws_len_at(x, 0) == 1);
    lemma_skip_ws_shift(seq![0x20u8], v, 0);
    lemma_skip_ws_bounds(v, 0);
    assert(trim_start_bytes(x) =~= trim_start_bytes(v));
}

/// A whitespace match in a prefix of a text is a match in the text.
pub proof fn lemma_ws_len_at_prefix(t: Seq<u8>, x: Seq<u8>)
    requires
        t.len() <= x.len(),
        t == x.subrange(0, t.len() as int),
    ensures
        ws_len_at(t, 0) > 0 ==> ws_len_at(x, 0) > 0,
{
    if t.len() > 0 {
        assert(t[0] == x[0]);
    }
    if t.len() > 1 {
        assert(t[1] == x[1]);
    }
    if t.len() > 2 {
        assert(t[2] == x[2]);
    }
}

/// Skipping whitespace stops at the end or at a byte starting no whitespace.
pub proof fn lemma_skip_ws_stops(b: Seq<u8>, i: int)
    requires
        0 <= i <= b.len(),
    ensures
        skip_ws(b, i) == b.len() || ws_len_at(b, skip_ws(b, i)) == 0,
    decreases b.len() - i,
{
    if i < b.len() && ws_len_at(b, i) > 0 {
        lemma_skip_ws_stops(b, i + ws_len_at(b, i));
    }
}

/// Dropping trailing whitespace stops where no whitespace ends.
pub proof fn lemma_skip_ws_back_stops(b: Seq<u8>, lo: int, j: int)
    requires
        0 <= lo <= j <= b.len(),
    ensures
        ws_len_before(b, lo, skip_ws_back(b, lo, j)) == 0,
    decreases j - lo,
{
    let w = ws_len_before(b, lo, j);
    if w > 0 {
        lemma_skip_ws_back_stops(b, lo, j - w);
    }
}

/// Trimming is idempotent.
pub proof fn lemma_trim_idempotent(x: Seq<u8>)
    ensures
        trim_bytes(trim_bytes(x)) == trim_bytes(x),
{
    let s = skip_ws(x, 0);
    lemma_skip_ws_bounds(x, 0);
    lemma_skip_ws_stops(x, 0);
    let y = x.subrange(s, x.len() as int);
    let e = skip_ws_back(y, 0, y.len() as int);
    lemma_skip_ws_back_bounds(y, 0, y.len() as int);
    lemma_skip_ws_back_stops(y, 0, y.len() as int);
    let t = y.subrange(0, e);
    assert(trim_bytes(x) == t);
    // The trimmed text starts with no whitespace ...
    if t.len() > 0 {
        lemma_ws_len_at_prefix(t, y);
        assert(ws_len_at(y, 0) == ws_len_at(x, s)) by {
            lemma_ws_len_at_shift(x.subrange(0, s), y, 0);
            assert(x.subrange(0, s) + y =~= x);
        }
    }
    assert(skip_ws(t, 0) == 0);
    assert(trim_start_bytes(t) =~= t);
    // ... and ends with none.
    assert(ws_len_before(t, 0, t.len() as int) == ws_len_before(y, 0, e)) by {
        if e >= 1 {
            assert(t[e - 1] == y[e - 1]);
        }
        if e >= 2 {
            assert(t[e - 2] == y[e - 2]);
        }
        if e >= 3 {
            assert(t[e - 3] == y[e - 3]);
        }
    }
    assert(skip_ws_back(t, 0, t.len() as int) == t.len());
    assert(trim_end_bytes(t) =~= t);
}

/// The first line feed at or after `i` in `p + b`, past `p`.
pub proof fn lemma_next_nl_shift(p: Seq<u8>, b: Seq<u8>, i: int)
    requires
        0 <= i <= b.len(),
    ensures
        next_nl(p + b, p.len() + i) == p.len() + next_nl(b, i),
    decreases b.len() - i,
{
    if i < b.len() {
        assert((p + b)[p.len() + i] == b[i]);
        if b[i] != 0x0a {
            lemma_next_nl_shift(p, b, i + 1);
        }
    }
}

/// The lines of `p + b` from a point past `p` are those of `b`.
pub proof fn lemma_lines_from_shift(p: Seq<u8>, b: Seq<u8>, k: int)
    requires
        0 <= k,
    ensures
        lines_from(p + b, p.len() + k) == lines_from(b, k),
    decreases b.len() - k,
{
    let x = p + b;
    if k < b.len() {
        lemma_next_nl_shift(p, b, k);
        lemma_next_nl(b, k);
        let e = next_nl(b, k);
        if e < b.len() {
            lemma_lines_from_shift(p, b, e + 1);
            if e > k {
                assert(x[p.len() + e - 1] == b[e - 1]);
            }
            let le = if e > k && b[e - 1] == 0x0d {
                e - 1
            } else {
                e
            };
            assert(x.subrange(p.len() + k, p.len() + le) =~= b.subrange(k, le));
        } else {
            assert(x.subrange(p.len() + k, x.len() as int) =~= b.subrange(k, b.len() as int));
        }
    }
}

/// A first line free of line feeds and carriage returns, ended by a line
/// feed, is the first of the text's lines.
pub proof fn lemma_lines_first(a: Seq<u8>, b: Seq<u8>)
    requires
        forall|i: int| 0 <= i < a.len() ==> a[i] != 0x0a && a[i] != 0x0d,
    ensures
        text_lines(a + seq![0x0au8] + b) == seq![a] + text_lines(b),
{
    let p = a + seq![0x0au8];
    let x = p + b;
    assert(a + seq![0x0au8] + b == x);
    assert forall|i: int| 0 <= i < a.len() implies x[i] == a[i] by {}
    assert(x[a.len() as int] == 0x0a);
    assert(next_nl(x, 0) == a.len()) by {
        lemma_next_nl_prefix(x, a.len() as int, 0);
    }
    lemma_lines_from_shift(p, b, 0);
    if a.len() > 0 {
        assert(x[a.len() - 1] != 0x0d);
    }
    assert(x.subrange(0, a.len() as int) =~= a);
}

proof fn lemma_next_nl_prefix(x: Seq<u8>, n: int, i: int)
    requires
        0 <= i <= n < x.len(),
        x[n] == 0x0a,
        forall|j: int| 0 <= j < n ==> x[j] != 0x0a,
    ensures
        next_nl(x, i) == n,
    decreases n - i,
{
    if i < n {
        lemma_next_nl_prefix(x, n, i + 1);
    }
}

/// The pieces of `b[start..]` between line feeds, as `str::split('\n')`
/// gives them: `k` line feeds make `k + 1` pieces, empty ones included.
pub open spec fn pieces_from(b: Seq<u8>, start: int) -> Seq<Seq<u8>>
    decreases b.len() - start,
{
    if start < 0 || start >= b.len() {
        seq![Seq::<u8>::empty()]
    } else {
        let e = next_nl(b, start);
        proof {
            lemma_next_nl(b, start);
        }
        if e >= b.len() {
            seq![b.subrange(start, b.len() as int)]
        } else {
            seq![b.subrange(start, e)] + pieces_from(b, e + 1)
        }
    }
}

/// The pieces of a text between its line feeds (see [`pieces_from`]).
pub open spec fn split_nl(b: Seq<u8>) -> Seq<Seq<u8>> {
    pieces_from(b, 0)
}

pub proof fn lemma_pieces_bounds(b: Seq<u8>, s: int)
    requires
        0 <= s <= b.len(),
    ensures
        1 <= pieces_from(b, s).len() <= b.len() - s + 1,
        forall|i: int|
            0 <= i < pieces_from(b, s).len() ==> #[trigger] pieces_from(b, s)[i].len() <= b.len()
                - s,
    decreases b.len() - s,
{
    if s < b.len() {
        lemma_next_nl(b, s);
        let e = next_nl(b, s);
        if e < b.len() {
            lemma_pieces_bounds(b, e + 1);
            let rest = pieces_from(b, e + 1);
            assert forall|i: int|
                0 <= i < pieces_from(b, s).len() implies #[trigger] pieces_from(b, s)[i].len()
                <= b.len() - s by {
                if i > 0 {
                    assert(pieces_from(b, s)[i] == rest[i - 1]);
                }
            }
        }
    }
}

/// Splits `s` at its line feeds (see [`split_nl`]).
pub fn split_newlines<'a>(s: &'a str) -> (r: Vec<&'a str>)
    ensures
        views_of(r@) == split_nl(sb(s)),
{
    let b = s.as_bytes();
    let n = b.len();
    let mut out: Vec<&'a str> = Vec::new();
    let mut start: usize = 0;
    proof {
        lemma_ends_boundary(b@);
        assert(views_of(out@) =~= Seq::<Seq<u8>>::empty());
        assert(Seq::<Seq<u8>>::empty() + pieces_from(b@, 0) =~= pieces_from(b@, 0));
    }
    loop
        invariant_except_break
            views_of(out@) + pieces_from(b@, start as int) == split_nl(b@),
        invariant
            start <= n == b@.len(),
            b@ == sb(s),
            valid_utf8(b@),
            is_char_boundary(b@, start as int),
            is_char_boundary(b@, n as int),
        ensures
            views_of(out@) == split_nl(b@),
        decreases n - start,
    {
        let mut e = start;
        while e < n && b[e] != 0x0a
            invariant
                start <= e <= n == b@.len(),
                next_nl(b@, start as int) == next_nl(b@, e as int),
            decreases n - e,
        {
            e = e + 1;
        }
        proof {
            lemma_next_nl(b@, start as int);
        }
        let ghost before = out@;
        if e == n {
            let piece = str_slice(s, start, n);
            out.push(piece);
            proof {
                assert(pieces_from(b@, start as int) =~= seq![b@.subrange(start as int, n as int)]);
                assert(views_of(out@) =~= views_of(before) + seq![sb(piece)]);
            }
            break;
        }
        proof {
            lemma_ascii_boundary(b@, e as int);
        }
        let piece = str_slice(s, start, e);
        out.push(piece);
        proof {
            assert(views_of(out@) =~= views_of(before) + seq![sb(piece)]);
            assert(pieces_from(b@, start as int) =~= seq![sb(piece)] + pieces_from(b@, e + 1));
            assert(views_of(out@) + pieces_from(b@, e + 1) =~= views_of(before) + pieces_from(
                b@,
                start as int,
            ));
        }
        start = e + 1;
    }
    out
}

/// No line feed in `b[i..]`: the search runs to the end.
pub proof fn lemma_next_nl_none(b: Seq<u8>, i: int)
    requires
        0 <= i <= b.len(),
        forall|j: int| i <= j < b.len() ==> b[j] != 0x0a,
    ensures
        next_nl(b, i) == b.len(),
    decreases b.len() - i,
{
    if i < b.len() {
        lemma_next_nl_none(b, i + 1);
    }
}

/// The pieces of `p + b` from a point past `p` are those of `b`.
pub proof fn lemma_pieces_shift(p: Seq<u8>, b: Seq<u8>, k: int)
    requires
        0 <= k <= b.len(),
    ensures
        pieces_from(p + b, p.len() + k) == pieces_from(b, k),
    decreases b.len() - k,
{
    let x = p + b;
    if k < b.len() {
        lemma_next_nl_shift(p, b, k);
        lemma_next_nl(b, k);
        let e = next_nl(b, k);
        if e < b.len() {
            lemma_pieces_shift(p, b, e + 1);
            assert(x.subrange(p.len() + k, p.len() + e) =~= b.subrange(k, e));
        } else {
            assert(x.subrange(p.len() + k, x.len() as int) =~= b.subrange(k, b.len() as int));
        }
    }
}

/// Whether `b` holds no line feed.
pub open spec fn no_nl(b: Seq<u8>) -> bool {
    forall|j: int| 0 <= j < b.len() ==> b[j] != 0x0a
}

/// Splitting at the line feeds undoes joining with line feeds, for pieces
/// that hold none.
pub proof fn lemma_split_join(parts: Seq<Seq<u8>>)
    requires
        parts.len() >= 1,
        forall|i: int| 0 <= i < parts.len() ==> no_nl(#[trigger] parts[i]),
    ensures
        split_nl(join_lines(parts)) == parts,
    decreases parts.len(),
{
    let a = parts[0];
    assert(no_nl(a));
    if parts.len() == 1 {
        assert(join_lines(parts) == a);
        lemma_next_nl_none(a, 0);
        assert(a.subrange(0, a.len() as int) =~= a);
        if a.len() == 0 {
            assert(a =~= Seq::<u8>::empty());
            assert(seq![Seq::<u8>::empty()] =~= parts);
        } else {
            assert(seq![a] =~= parts);
        }
    } else {
        let rest = parts.skip(1);
        assert(parts =~= seq![a] + rest);
        assert forall|i: int| 0 <= i < rest.len() implies no_nl(#[trigger] rest[i]) by {
            assert(rest[i] == parts[i + 1]);
        }
        lemma_split_join(rest);
        crate::frontmatter::lemma_join_prepend_pub(a, rest);
        let p = a + seq![0x0au8];
        let j = join_lines(rest);
        let x = p + j;
        assert(a + seq![0x0au8] + j == x);
        assert forall|i: int| 0 <= i < a.len() implies x[i] != 0x0a by {
            assert(x[i] == a[i]);
        }
        assert(x[a.len() as int] == 0x0a);
        lemma_next_nl_prefix(x, a.len() as int, 0);
        lemma_pieces_shift(p, j, 0);
        assert(x.subrange(0, a.len() as int) =~= a);
        assert(pieces_from(x, 0) == seq![a] + pieces_from(x, (a.len() + 1) as int));
    }
}

/// The characters of `s`, in order.
pub fn chars_of(s: &str) -> (r: Vec<char>)
    ensures
        r@ == s@,
{
    broadcast use vstd::string::axiom_spec_iter, vstd::string::next_postcondition;

    let mut it = s.chars();
    let mut out: Vec<char> = Vec::new();
    loop
        invariant
            out@ + it.remaining() == s@,
            it.obeys_prophetic_iter_laws(),
            it.decrease() is Some,
        ensures
            out@ == s@,
        decreases it.decrease()->0,
    {
        let ghost before = it.remaining();
        match it.next() {
            Some(c) => {
                out.push(c);
                assert(before =~= seq![c] + it.remaining());
            },
            None => {
                assert(out@ =~= s@);
                break;
            },
        }
    }
    out
}

} // verus!
