//! Leading frontmatter block of a note: `---`, lines of `key: value`, `---`
//! at the very start of the file. It holds note-level metadata as plain text
//! inside the note, so it round-trips through the editor untouched. The one
//! key with a meaning today is `header`, which names the note's header image
//! or note.
//!
//! `---` opens a block only on the first line and only when a later line
//! closes it; anywhere else it stays a horizontal rule.

use crate::strings::{
    ascii_ws, skip_ws_back, trim_end_bytes, trim_start_bytes, ws_len_at, ws_len_before, byte_pos, find_byte, lemma_byte_pos, empty_string, lemma_next_nl, lines_from, next_nl, is_prefix_bytes, lead_width, lemma_ascii_boundary, lemma_ends_boundary,
    lemma_next_boundary, lemma_utf8_concat, push_ascii, push_str, sb, split_lines, str_slice,
    text_lines, to_string, trim, trim_bytes, utf8, views_of,
};
use crate::editor::buffer::buffer_text;
use vstd::prelude::*;
use vstd::utf8::*;

verus! {

broadcast use vstd::utf8::group_utf8_lib;

/// A parsed frontmatter block.
#[derive(Debug, Clone)]
pub struct Frontmatter {
    /// Line index of the closing `---`; the block spans lines `0..=end_line`.
    pub end_line: usize,
    /// Byte offset just past the closing delimiter and its line break (the
    /// end of the text when it has none); only [`parse`] fills it in,
    /// [`parse_lines`] leaves it 0.
    pub end_byte: usize,
    /// Every `key: value` pair in order (both trimmed, brackets kept).
    pub fields: Vec<(String, String)>,
    /// The `header` target: a `[[wikilink]]` unwrapped to its inner path,
    /// otherwise the value as written.
    pub header: Option<String>,
}

/// A key/value pair as the bytes of its two texts.
pub type FieldView = (Seq<u8>, Seq<u8>);

/// Model of a [`Frontmatter`]: closing line, end byte, fields, header.
pub type FmView = (int, int, Seq<FieldView>, Option<Seq<u8>>);

pub open spec fn field_views(fields: Seq<(String, String)>) -> Seq<FieldView> {
    fields.map_values(|p: (String, String)| (utf8(p.0@), utf8(p.1@)))
}

impl View for Frontmatter {
    type V = FmView;

    open spec fn view(&self) -> FmView {
        (
            self.end_line as int,
            self.end_byte as int,
            field_views(self.fields@),
            match self.header {
                Some(h) => Some(utf8(h@)),
                None => None,
            },
        )
    }
}

/// The encoding of U+FEFF, the byte order mark.
pub open spec fn bom() -> Seq<u8> {
    seq![0xefu8, 0xbbu8, 0xbfu8]
}

/// `---`.
pub open spec fn dashes() -> Seq<u8> {
    seq![0x2du8, 0x2du8, 0x2du8]
}

/// The text without the byte order marks it starts with.
pub open spec fn strip_boms(b: Seq<u8>) -> Seq<u8>
    decreases b.len(),
{
    if is_prefix_bytes(bom(), b) {
        strip_boms(b.subrange(3, b.len() as int))
    } else {
        b
    }
}

/// A delimiter line: `---`, whitespace around it allowed, and byte order
/// marks before it.
pub open spec fn is_delimiter(b: Seq<u8>) -> bool {
    trim_bytes(strip_boms(trim_bytes(b))) == dashes()
}

/// A `[[wikilink]]` value unwrapped to its trimmed inner path; any other
/// value trimmed.
pub open spec fn unwrap_spec(v: Seq<u8>) -> Seq<u8> {
    let t = trim_bytes(v);
    if t.len() >= 4 && t[0] == 0x5b && t[1] == 0x5b && t[t.len() - 2] == 0x5d && t[t.len() - 1]
        == 0x5d {
        trim_bytes(t.subrange(2, t.len() - 2))
    } else {
        t
    }
}

/// The `key: value` pair a line inside the block holds: none for a blank
/// line, a `#` comment, a line without `:` or one with an empty key.
pub open spec fn field_of(l: Seq<u8>) -> Option<FieldView> {
    let t = trim_bytes(l);
    let c = byte_pos(l, 0x3a, 0);
    if t.len() == 0 || t[0] == 0x23 || c >= l.len() {
        None
    } else {
        let key = trim_bytes(l.subrange(0, c));
        if key.len() == 0 {
            None
        } else {
            Some((key, trim_bytes(l.subrange(c + 1, l.len() as int))))
        }
    }
}

/// The fields of the lines inside a block, in order.
pub open spec fn fields_of(ls: Seq<Seq<u8>>) -> Seq<FieldView>
    decreases ls.len(),
{
    if ls.len() == 0 {
        Seq::empty()
    } else {
        let before = fields_of(ls.drop_last());
        match field_of(ls.last()) {
            Some(f) => before.push(f),
            None => before,
        }
    }
}

/// `header`.
pub open spec fn header_word() -> Seq<u8> {
    seq![0x68u8, 0x65u8, 0x61u8, 0x64u8, 0x65u8, 0x72u8]
}

/// The unwrapped value of the first `header` field at or after `i`.
pub open spec fn header_from(fields: Seq<FieldView>, i: int) -> Option<Seq<u8>>
    decreases fields.len() - i,
{
    if 0 <= i < fields.len() {
        if fields[i].0 == header_word() {
            Some(unwrap_spec(fields[i].1))
        } else {
            header_from(fields, i + 1)
        }
    } else {
        None
    }
}

/// Index of the first delimiter line at or after `i`.
pub open spec fn delim_from(ls: Seq<Seq<u8>>, i: int) -> Option<int>
    decreases ls.len() - i,
{
    if 0 <= i < ls.len() {
        if is_delimiter(ls[i]) {
            Some(i)
        } else {
            delim_from(ls, i + 1)
        }
    } else {
        None
    }
}

pub proof fn lemma_delim_from(ls: Seq<Seq<u8>>, i: int)
    requires
        0 <= i,
    ensures
        delim_from(ls, i) matches Some(e) ==> i <= e < ls.len() && is_delimiter(ls[e]),
    decreases ls.len() - i,
{
    if 0 <= i < ls.len() && !is_delimiter(ls[i]) {
        lemma_delim_from(ls, i + 1);
    }
}

/// The block the lines start with: closing line, fields and header; none
/// when the first line is no delimiter or no later line closes the block.
pub open spec fn parse_spec(ls: Seq<Seq<u8>>) -> Option<(int, Seq<FieldView>, Option<Seq<u8>>)> {
    if ls.len() == 0 || !is_delimiter(ls[0]) {
        None
    } else {
        match delim_from(ls, 1) {
            Some(e) => {
                let fields = fields_of(ls.subrange(1, e));
                Some((e, fields, header_from(fields, 0)))
            },
            None => None,
        }
    }
}

/// Byte views of a list of lines.
pub open spec fn line_views(lines: Seq<String>) -> Seq<Seq<u8>> {
    lines.map_values(|s: String| utf8(s@))
}

/// Whether the first bytes of `b` are a byte order mark.
fn starts_with_bom(b: &[u8]) -> (r: bool)
    ensures
        r == is_prefix_bytes(bom(), b@),
{
    let r = b.len() >= 3 && b[0] == 0xef && b[1] == 0xbb && b[2] == 0xbf;
    proof {
        if b@.len() >= 3 {
            assert(r == (b@.subrange(0, 3) =~= bom()));
        }
    }
    r
}

/// `s` without the byte order marks it starts with.
fn strip_boms_str(s: &str) -> (r: &str)
    ensures
        sb(r) == strip_boms(sb(s)),
{
    let mut t = s;
    while starts_with_bom(t.as_bytes())
        invariant
            strip_boms(sb(s)) == strip_boms(sb(t)),
        decreases sb(t).len(),
    {
        let ghost tb = sb(t);
        proof {
            lemma_ends_boundary(tb);
            assert(!is_continuation_byte(tb[0]));
            is_char_boundary_iff_not_is_continuation_byte(tb, 0);
            lemma_next_boundary(tb, 0);
            assert(lead_width(tb[0]) == 3);
        }
        t = str_slice(t, 3, t.as_bytes().len());
    }
    t
}

/// Whether `line` is a frontmatter delimiter (see [`is_delimiter`]).
fn delimiter(line: &str) -> (r: bool)
    ensures
        r == is_delimiter(sb(line)),
{
    let u = trim(strip_boms_str(trim(line))).as_bytes();
    let r = u.len() == 3 && u[0] == 0x2d && u[1] == 0x2d && u[2] == 0x2d;
    proof {
        if u@.len() == 3 {
            assert(r == (u@ =~= dashes()));
        }
    }
    r
}

/// Unwraps a `[[wikilink]]` value to its inner path (see [`unwrap_spec`]).
fn unwrap_link(value: &str) -> (r: String)
    ensures
        utf8(r@) == unwrap_spec(sb(value)),
{
    let t = trim(value);
    let b = t.as_bytes();
    let n = b.len();
    if n >= 4 && b[0] == 0x5b && b[1] == 0x5b && b[n - 2] == 0x5d && b[n - 1] == 0x5d {
        proof {
            lemma_ascii_boundary(b@, 1);
            lemma_ascii_boundary(b@, n - 2);
        }
        return to_string(trim(str_slice(t, 2, n - 2)));
    }
    to_string(t)
}

/// The `key: value` pair of one line inside the block (see [`field_of`]).
fn field_of_line(line: &str) -> (r: Option<(String, String)>)
    ensures
        match r {
            Some(p) => field_of(sb(line)) == Some((utf8(p.0@), utf8(p.1@))),
            None => field_of(sb(line)) is None,
        },
{
    let t = trim(line);
    let tb = t.as_bytes();
    if tb.len() == 0 || tb[0] == 0x23 {
        return None;
    }
    let b = line.as_bytes();
    let n = b.len();
    let c = find_byte(b, 0x3a, 0);
    if c >= n {
        return None;
    }
    proof {
        lemma_byte_pos(b@, 0x3a, 0);
        lemma_ascii_boundary(b@, c as int);
        lemma_ends_boundary(b@);
    }
    let key = trim(str_slice(line, 0, c));
    if key.as_bytes().len() == 0 {
        return None;
    }
    let value = trim(str_slice(line, c + 1, n));
    Some((to_string(key), to_string(value)))
}

/// Whether `b` is the word `header`.
fn is_header_word(b: &[u8]) -> (r: bool)
    ensures
        r == (b@ == header_word()),
{
    let r = b.len() == 6 && b[0] == 0x68 && b[1] == 0x65 && b[2] == 0x61 && b[3] == 0x64 && b[4]
        == 0x65 && b[5] == 0x72;
    proof {
        if b@.len() == 6 {
            assert(r == (b@ =~= header_word()));
        }
    }
    r
}

/// Parses the block the lines start with (see [`parse_spec`]).
fn parse_slice(lines: &[&str]) -> (r: Option<Frontmatter>)
    ensures
        match r {
            Some(fm) => parse_spec(views_of(lines@)) == Some((fm@.0, fm@.2, fm@.3)) && fm.end_byte
                == 0,
            None => parse_spec(views_of(lines@)) is None,
        },
{
    let ghost ls = views_of(lines@);
    if lines.len() == 0 {
        return None;
    }
    if !delimiter(lines[0]) {
        return None;
    }
    let mut e: usize = 1;
    loop
        invariant
            ls == views_of(lines@),
            1 <= e <= lines@.len(),
            delim_from(ls, 1) == delim_from(ls, e as int),
        ensures
            1 <= e < lines@.len(),
            delim_from(ls, 1) == Some(e as int),
        decreases lines@.len() - e,
    {
        if e == lines.len() {
            return None;
        }
        if delimiter(lines[e]) {
            break;
        }
        e = e + 1;
    }
    let mut fields: Vec<(String, String)> = Vec::new();
    let mut k: usize = 1;
    proof {
        assert(field_views(fields@) =~= fields_of(ls.subrange(1, 1)));
    }
    while k < e
        invariant
            ls == views_of(lines@),
            1 <= k <= e < lines@.len(),
            field_views(fields@) == fields_of(ls.subrange(1, k as int)),
        decreases e - k,
    {
        let ghost before = fields@;
        proof {
            assert(ls.subrange(1, k + 1).drop_last() =~= ls.subrange(1, k as int));
            assert(ls.subrange(1, k + 1).last() == sb(lines@[k as int]));
        }
        match field_of_line(lines[k]) {
            Some(p) => {
                fields.push(p);
                assert(field_views(fields@) =~= field_views(before).push(
                    (utf8(p.0@), utf8(p.1@)),
                ));
            },
            None => {},
        }
        k = k + 1;
    }
    let ghost fv = field_views(fields@);
    let mut header: Option<String> = None;
    let mut i: usize = 0;
    while i < fields.len()
        invariant_except_break
            header is None,
        invariant
            fv == field_views(fields@),
            i <= fields@.len(),
            header_from(fv, 0) == header_from(fv, i as int),
        ensures
            match header {
                Some(h) => header_from(fv, 0) == Some(utf8(h@)),
                None => header_from(fv, 0) is None,
            },
        decreases fields@.len() - i,
    {
        if is_header_word(fields[i].0.as_str().as_bytes()) {
            header = Some(unwrap_link(fields[i].1.as_str()));
            break;
        }
        i = i + 1;
    }
    Some(Frontmatter { end_line: e, end_byte: 0, fields, header })
}


/// The string views of a list of lines.
fn line_refs(lines: &[String]) -> (r: Vec<&str>)
    ensures
        views_of(r@) == line_views(lines@),
{
    let mut refs: Vec<&str> = Vec::new();
    let mut k: usize = 0;
    while k < lines.len()
        invariant
            k <= lines@.len(),
            views_of(refs@) == line_views(lines@).take(k as int),
        decreases lines@.len() - k,
    {
        let ghost before = refs@;
        let x = lines[k].as_str();
        refs.push(x);
        assert(sb(x) == utf8(lines@[k as int]@));
        assert(views_of(refs@) =~= views_of(before).push(sb(x)));
        assert(line_views(lines@).take(k + 1) =~= line_views(lines@).take(k as int).push(
            utf8(lines@[k as int]@),
        ));
        k = k + 1;
    }
    assert(line_views(lines@).take(k as int) =~= line_views(lines@));
    refs
}

/// Parses the frontmatter block the editor's lines start with; `None` when
/// they do not start with a closed block. `end_byte` is left 0.
pub fn parse_lines(lines: &[String]) -> (r: Option<Frontmatter>)
    ensures
        match r {
            Some(fm) => parse_spec(line_views(lines@)) == Some((fm@.0, fm@.2, fm@.3)) && fm.end_byte
                == 0,
            None => parse_spec(line_views(lines@)) is None,
        },
{
    let refs = line_refs(lines);
    parse_slice(&refs)
}

/// The byte offset just past the line break that ends the `k`-th line
/// counted from byte `start`; the end of the text when the text ends first.
pub open spec fn after_lines(b: Seq<u8>, start: int, k: int) -> int
    decreases k,
{
    if k <= 0 {
        start
    } else {
        let e = next_nl(b, start);
        if e >= b.len() {
            b.len() as int
        } else {
            after_lines(b, e + 1, k - 1)
        }
    }
}

/// Byte offset just past the closing delimiter on line `e` and its line
/// break (the end of the text when it has none): where the body starts.
pub open spec fn end_byte_spec(b: Seq<u8>, e: int) -> int {
    after_lines(b, 0, e + 1)
}

/// Counting lines never leaves the text, and stops at its end or just past
/// a line feed.
pub proof fn lemma_after_lines(b: Seq<u8>, start: int, k: int)
    requires
        0 <= start <= b.len(),
        k >= 1,
    ensures
        start < after_lines(b, start, k) <= b.len() || after_lines(b, start, k) == b.len(),
        after_lines(b, start, k) == b.len() || b[after_lines(b, start, k) - 1] == 0x0a,
    decreases k,
{
    lemma_next_nl(b, start);
    let e = next_nl(b, start);
    if e < b.len() {
        if k > 1 {
            lemma_after_lines(b, e + 1, k - 1);
        } else {
            assert(after_lines(b, e + 1, 0) == e + 1);
        }
    }
}

proof fn lemma_byte_pos_nl(b: Seq<u8>, i: int)
    requires
        0 <= i <= b.len(),
    ensures
        byte_pos(b, 0x0a, i) == next_nl(b, i),
    decreases b.len() - i,
{
    if i < b.len() && b[i] != 0x0a {
        lemma_byte_pos_nl(b, i + 1);
    }
}

/// Parses the frontmatter block a note's text starts with; `None` when it
/// does not start with a closed block. `end_byte` is where the body starts:
/// the note's text after it is the content without the block.
pub fn parse(content: &str) -> (r: Option<Frontmatter>)
    ensures
        ({
            let ls = text_lines(sb(content));
            match r {
                Some(fm) => parse_spec(ls) == Some((fm@.0, fm@.2, fm@.3)) && fm@.1 == end_byte_spec(
                    sb(content),
                    fm@.0,
                ),
                None => parse_spec(ls) is None,
            }
        }),
{
    let refs = split_lines(content);
    let mut fm = match parse_slice(&refs) {
        Some(f) => f,
        None => return None,
    };
    let e = fm.end_line;
    let bytes = content.as_bytes();
    let n = bytes.len();
    let mut pos: usize = 0;
    let mut k: usize = 0;
    loop
        invariant_except_break
            end_byte_spec(bytes@, e as int) == after_lines(bytes@, pos as int, e + 1 - k),
        invariant
            bytes@ == sb(content),
            n == bytes@.len(),
            pos <= n,
            k <= e,
        ensures
            end_byte_spec(bytes@, e as int) == pos,
        decreases e - k,
    {
        let nl = find_byte(bytes, 0x0a, pos);
        proof {
            lemma_byte_pos_nl(bytes@, pos as int);
            lemma_next_nl(bytes@, pos as int);
        }
        if nl >= n {
            pos = n;
            break;
        }
        pos = nl + 1;
        if k == e {
            assert(after_lines(bytes@, pos as int, 0) == pos);
            break;
        }
        k = k + 1;
    }
    fm.end_byte = pos;
    Some(fm)
}

/// The inclusive range of line indices the frontmatter block occupies, when
/// the lines start with a closed block: exactly the lines [`parse_lines`]
/// reads the block from.
pub fn line_range(lines: &[String]) -> (r: Option<(usize, usize)>)
    ensures
        r == match parse_spec(line_views(lines@)) {
            Some(p) => Some((0usize, p.0 as usize)),
            None => None::<(usize, usize)>,
        },
        r matches Some(p) ==> p.1 < lines@.len(),
{
    let ghost ls = line_views(lines@);
    if lines.len() == 0 {
        return None;
    }
    if !delimiter(lines[0].as_str()) {
        return None;
    }
    let mut i: usize = 1;
    while i < lines.len()
        invariant
            ls == line_views(lines@),
            1 <= i <= lines@.len(),
            is_delimiter(ls[0]),
            delim_from(ls, 1) == delim_from(ls, i as int),
        decreases lines@.len() - i,
    {
        if delimiter(lines[i].as_str()) {
            return Some((0, i));
        }
        i = i + 1;
    }
    None
}


/// Lines joined with a line feed between each two.
pub open spec fn join_lines(ls: Seq<Seq<u8>>) -> Seq<u8>
    decreases ls.len(),
{
    if ls.len() == 0 {
        Seq::empty()
    } else if ls.len() == 1 {
        ls[0]
    } else {
        join_lines(ls.drop_last()).push(0x0a) + ls.last()
    }
}

/// The text ends with a line feed.
pub open spec fn ends_with_nl(b: Seq<u8>) -> bool {
    b.len() > 0 && b.last() == 0x0a
}

/// The lines joined back into a note, ending in a line feed when the note
/// they came from did.
fn join_frontmatter(lines: &[String], content: &str) -> (r: String)
    ensures
        utf8(r@) == join_lines(line_views(lines@)) + (if ends_with_nl(sb(content)) {
            seq![0x0au8]
        } else {
            Seq::<u8>::empty()
        }),
{
    let ghost ls = line_views(lines@);
    let mut out = buffer_text(lines);
    let b = content.as_bytes();
    if b.len() > 0 && b[b.len() - 1] == 0x0a {
        push_ascii(&mut out, 0x0a);
        assert(utf8(out@) =~= join_lines(ls) + seq![0x0au8]);
    } else {
        assert(utf8(out@) =~= join_lines(ls) + Seq::<u8>::empty());
    }
    out
}

/// `header:`.
pub open spec fn header_colon() -> Seq<u8> {
    seq![0x68u8, 0x65u8, 0x61u8, 0x64u8, 0x65u8, 0x72u8, 0x3au8]
}

/// The frontmatter line `header: <value>`.
pub open spec fn header_line(v: Seq<u8>) -> Seq<u8> {
    header_colon().push(0x20) + v
}

/// Index of the first line in `[i, end)` that, trimmed, starts with `header:`.
pub open spec fn header_line_from(ls: Seq<Seq<u8>>, i: int, end: int) -> Option<int>
    decreases end - i,
{
    if 0 <= i < end && i < ls.len() {
        if is_prefix_bytes(header_colon(), trim_bytes(ls[i])) {
            Some(i)
        } else {
            header_line_from(ls, i + 1, end)
        }
    } else {
        None
    }
}

/// The lines a note starts with form a block, its first line allowed
/// leading byte order marks.
pub open spec fn opens_block(ls: Seq<Seq<u8>>) -> bool {
    ls.len() > 0 && is_delimiter(strip_boms(ls[0]))
}

/// The note with its `header` set to `v`: inside an existing closed block
/// the first `header:` line is replaced, or a new one goes just before the
/// closing delimiter; a note without a block gets one in front.
pub open spec fn upsert_spec(b: Seq<u8>, v: Seq<u8>) -> Seq<u8> {
    let ls = text_lines(b);
    let fresh = dashes().push(0x0a) + header_line(v) + seq![0x0au8] + dashes().push(0x0a) + b;
    if opens_block(ls) {
        match delim_from(ls, 1) {
            Some(end) => {
                let updated = match header_line_from(ls, 1, end) {
                    Some(p) => ls.update(p, header_line(v)),
                    None => ls.insert(end, header_line(v)),
                };
                join_lines(updated) + (if ends_with_nl(b) {
                    seq![0x0au8]
                } else {
                    Seq::<u8>::empty()
                })
            },
            None => fresh,
        }
    } else {
        fresh
    }
}

/// Appends `header: ` to `s`.
#[verifier::spinoff_prover]
fn push_header_key(s: &mut String)
    ensures
        utf8(final(s)@) == utf8(old(s)@) + header_colon().push(0x20),
{
    let ghost before = utf8(s@);
    push_ascii(s, 0x68);
    push_ascii(s, 0x65);
    push_ascii(s, 0x61);
    push_ascii(s, 0x64);
    assert(utf8(s@) =~= before + seq![0x68u8, 0x65u8, 0x61u8, 0x64u8]);
    let ghost mid = utf8(s@);
    push_ascii(s, 0x65);
    push_ascii(s, 0x72);
    push_ascii(s, 0x3a);
    push_ascii(s, 0x20);
    assert(utf8(s@) =~= mid + seq![0x65u8, 0x72u8, 0x3au8, 0x20u8]);
    assert(utf8(s@) =~= before + header_colon().push(0x20));
}

/// Appends `---` and a line feed to `s`.
fn push_delimiter_line(s: &mut String)
    ensures
        utf8(final(s)@) == utf8(old(s)@) + dashes().push(0x0a),
{
    let ghost before = utf8(s@);
    push_ascii(s, 0x2d);
    push_ascii(s, 0x2d);
    push_ascii(s, 0x2d);
    push_ascii(s, 0x0a);
    assert(utf8(s@) =~= before + dashes().push(0x0a));
}

/// Whether `b`, trimmed, starts with `header:`.
fn starts_with_header_key(line: &str) -> (r: bool)
    ensures
        r == is_prefix_bytes(header_colon(), trim_bytes(sb(line))),
{
    let b = trim(line).as_bytes();
    let r = b.len() >= 7 && b[0] == 0x68 && b[1] == 0x65 && b[2] == 0x61 && b[3] == 0x64 && b[4]
        == 0x65 && b[5] == 0x72 && b[6] == 0x3a;
    proof {
        if b@.len() >= 7 {
            assert(r == (b@.subrange(0, 7) =~= header_colon()));
        }
    }
    r
}

/// Sets (or adds) the `header:` field of the note's frontmatter, creating a
/// block when the note has none. `raw_value` is stored as given; callers
/// usually pass a `[[wikilink]]`.
pub fn upsert_header(content: &str, raw_value: &str) -> (r: String)
    ensures
        utf8(r@) == upsert_spec(sb(content), sb(raw_value)),
{
    let ghost b = sb(content);
    let refs = split_lines(content);
    let ghost ls = views_of(refs@);
    let has_fm = refs.len() > 0 && delimiter(strip_boms_str(refs[0]));
    if has_fm {
        let mut lines: Vec<String> = Vec::new();
        let mut k: usize = 0;
        while k < refs.len()
            invariant
                ls == views_of(refs@),
                k <= refs@.len(),
                line_views(lines@) == ls.take(k as int),
            decreases refs@.len() - k,
        {
            let ghost before = lines@;
            let x = to_string(refs[k]);
            lines.push(x);
            assert(line_views(lines@) =~= line_views(before).push(utf8(x@)));
            assert(ls.take(k + 1) =~= ls.take(k as int).push(ls[k as int]));
            k = k + 1;
        }
        assert(ls.take(k as int) =~= ls);
        let mut end: usize = 1;
        let mut found = false;
        while end < lines.len()
            invariant_except_break
                !found,
            invariant
                ls == views_of(refs@),
                line_views(lines@) == ls,
                1 <= end <= lines@.len(),
                delim_from(ls, 1) == delim_from(ls, end as int),
            ensures
                found ==> end < lines@.len() && delim_from(ls, 1) == Some(end as int),
                !found ==> delim_from(ls, 1) is None,
            decreases lines@.len() - end,
        {
            if delimiter(lines[end].as_str()) {
                found = true;
                break;
            }
            end = end + 1;
        }
        if found {
            let mut pos: usize = 1;
            let mut hit = false;
            while pos < end
                invariant_except_break
                    !hit,
                invariant
                    line_views(lines@) == ls,
                    1 <= pos <= end < lines@.len(),
                    header_line_from(ls, 1, end as int) == header_line_from(ls, pos as int, end as int),
                ensures
                    hit ==> pos < end && header_line_from(ls, 1, end as int) == Some(pos as int),
                    !hit ==> header_line_from(ls, 1, end as int) is None,
                decreases end - pos,
            {
                assert(utf8(lines@[pos as int]@) == ls[pos as int]);
                if starts_with_header_key(lines[pos].as_str()) {
                    hit = true;
                    break;
                }
                pos = pos + 1;
            }
            let mut new_line = empty_string();
            push_header_key(&mut new_line);
            push_str(&mut new_line, raw_value);
            assert(utf8(new_line@) =~= header_line(sb(raw_value)));
            let ghost nl = utf8(new_line@);
            if hit {
                lines.set(pos, new_line);
                assert(line_views(lines@) =~= ls.update(pos as int, nl));
            } else {
                lines.insert(end, new_line);
                assert(line_views(lines@) =~= ls.insert(end as int, nl));
            }
            return join_frontmatter(&lines, content);
        }
    }
    let mut out = empty_string();
    push_delimiter_line(&mut out);
    push_header_key(&mut out);
    push_str(&mut out, raw_value);
    push_ascii(&mut out, 0x0a);
    push_delimiter_line(&mut out);
    push_str(&mut out, content);
    assert(utf8(out@) =~= dashes().push(0x0a) + header_line(sb(raw_value)) + seq![0x0au8]
        + dashes().push(0x0a) + b);
    out
}

/// Trailing whitespace is never dropped past a first byte that starts no
/// whitespace character.
proof fn lemma_skip_ws_back_keeps_first(b: Seq<u8>, j: int)
    requires
        1 <= j <= b.len(),
        !ascii_ws(b[0]),
        b[0] != 0xc2 && b[0] != 0xe1 && b[0] != 0xe2 && b[0] != 0xe3,
    ensures
        skip_ws_back(b, 0, j) >= 1,
    decreases j,
{
    let w = ws_len_before(b, 0, j);
    if w > 0 {
        lemma_skip_ws_back_keeps_first(b, j - w);
    }
}

/// A line starting with a plain ASCII letter or sign trims to a text
/// starting with that byte.
proof fn lemma_trim_keeps_first(b: Seq<u8>)
    requires
        b.len() >= 1,
        0x21 <= b[0] < 0x80,
    ensures
        trim_bytes(b).len() >= 1,
        trim_bytes(b)[0] == b[0],
{
    assert(ws_len_at(b, 0) == 0);
    assert(trim_start_bytes(b) =~= b);
    lemma_skip_ws_back_keeps_first(b, b.len() as int);
    crate::strings::lemma_skip_ws_back_bounds(b, 0, b.len() as int);
}

/// `---` is a delimiter line.
proof fn lemma_dashes_delimiter()
    ensures
        is_delimiter(dashes()),
{
    let d = dashes();
    assert(ws_len_at(d, 0) == 0);
    assert(trim_start_bytes(d) =~= d);
    assert(ws_len_before(d, 0, 3) == 0);
    assert(trim_end_bytes(d) =~= d);
    assert(trim_bytes(d) == d);
    assert(!is_prefix_bytes(bom(), d)) by {
        assert(d.subrange(0, 3)[0] != bom()[0]);
    }
    assert(strip_boms(d) == d);
}

/// A text starting with a plain ASCII letter is no delimiter.
proof fn lemma_letter_line_not_delimiter(b: Seq<u8>)
    requires
        b.len() >= 1,
        0x61 <= b[0] <= 0x7a,
    ensures
        !is_delimiter(b),
{
    lemma_trim_keeps_first(b);
    let t = trim_bytes(b);
    assert(!is_prefix_bytes(bom(), t)) by {
        if t.len() >= 3 {
            assert(t.subrange(0, 3)[0] == t[0]);
        }
    }
    assert(strip_boms(t) == t);
    crate::strings::lemma_trim_idempotent(b);
    assert(trim_bytes(strip_boms(trim_bytes(b)))[0] == 0x61 || trim_bytes(strip_boms(trim_bytes(b)))[0] != 0x2d);
}

/// The `header: v` line holds the field `header` with the trimmed value.
proof fn lemma_header_line_field(v: Seq<u8>)
    ensures
        field_of(header_line(v)) == Some((header_word(), trim_bytes(v))),
{
    let h = header_line(v);
    assert(h[0] == 0x68);
    lemma_trim_keeps_first(h);
    assert(trim_bytes(h)[0] != 0x23);
    crate::strings::lemma_byte_pos(h, 0x3a, 0);
    let c = byte_pos(h, 0x3a, 0);
    assert(h[6] == 0x3a);
    assert(forall|j: int| 0 <= j < 6 ==> h[j] != 0x3a);
    assert(c == 6);
    let k = h.subrange(0, 6);
    assert(k =~= header_word());
    assert(ws_len_at(k, 0) == 0);
    assert(trim_start_bytes(k) =~= k);
    assert(ws_len_before(k, 0, 6) == 0);
    assert(trim_end_bytes(k) =~= k);
    assert(h.subrange(7, h.len() as int) =~= seq![0x20u8] + v);
    crate::strings::lemma_trim_leading_space(v);
}

/// Setting the header of a note without a closed frontmatter block, to a
/// value on one line, gives a note whose frontmatter reads back as one
/// `header` field holding the value: what is written is what is read.
pub proof fn lemma_upsert_then_parse_fresh(c: Seq<u8>, v: Seq<u8>)
    requires
        forall|i: int| 0 <= i < v.len() ==> v[i] != 0x0a && v[i] != 0x0d,
        !opens_block(text_lines(c)) || delim_from(text_lines(c), 1) is None,
    ensures
        parse_spec(text_lines(upsert_spec(c, v))) == Some(
            (2int, seq![(header_word(), trim_bytes(v))], Some(unwrap_spec(v))),
        ),
{
    let d = dashes();
    let h = header_line(v);
    let out = upsert_spec(c, v);
    assert(out == d.push(0x0a) + h + seq![0x0au8] + d.push(0x0a) + c);
    assert forall|i: int| 0 <= i < d.len() implies d[i] != 0x0a && d[i] != 0x0d by {}
    assert forall|i: int| 0 <= i < h.len() implies h[i] != 0x0a && h[i] != 0x0d by {
        if i >= 8 {
            assert(h[i] == v[i - 8]);
        }
    }
    let tail = d + seq![0x0au8] + c;
    crate::strings::lemma_lines_first(d, c);
    let mid = h + seq![0x0au8] + tail;
    crate::strings::lemma_lines_first(h, tail);
    crate::strings::lemma_lines_first(d, mid);
    assert(out =~= d + seq![0x0au8] + mid);
    let ls = text_lines(out);
    assert(ls =~= seq![d, h, d] + text_lines(c));
    lemma_dashes_delimiter();
    assert(h[0] == 0x68);
    lemma_letter_line_not_delimiter(h);
    assert(ls[0] == d && ls[1] == h && ls[2] == d);
    assert(delim_from(ls, 2) == Some(2int));
    assert(delim_from(ls, 1) == Some(2int));
    let inside = ls.subrange(1, 2);
    assert(inside =~= seq![h]);
    lemma_header_line_field(v);
    assert(inside.drop_last() =~= Seq::<Seq<u8>>::empty());
    assert(inside.last() == h);
    assert(fields_of(inside.drop_last()) =~= Seq::<FieldView>::empty());
    assert(fields_of(inside) =~= seq![(header_word(), trim_bytes(v))]);
    let fields = fields_of(inside);
    crate::strings::lemma_trim_idempotent(v);
    assert(header_from(fields, 0) == Some(unwrap_spec(trim_bytes(v))));
    assert(unwrap_spec(trim_bytes(v)) == unwrap_spec(v));
}

/// A text holds neither line feeds nor carriage returns.
pub open spec fn one_line(a: Seq<u8>) -> bool {
    forall|i: int| 0 <= i < a.len() ==> a[i] != 0x0a && a[i] != 0x0d
}

proof fn lemma_join_prepend(a: Seq<u8>, rest: Seq<Seq<u8>>)
    requires
        rest.len() >= 1,
    ensures
        join_lines(seq![a] + rest) == a + seq![0x0au8] + join_lines(rest),
    decreases rest.len(),
{
    let l = seq![a] + rest;
    if rest.len() == 1 {
        assert(l.drop_last() =~= seq![a]);
        assert(join_lines(seq![a]) == a);
        assert(join_lines(rest) == rest[0]);
        assert(join_lines(l) =~= a.push(0x0a) + rest[0]);
        assert(a.push(0x0a) + rest[0] =~= a + seq![0x0au8] + rest[0]);
    } else {
        lemma_join_prepend(a, rest.drop_last());
        assert(l.drop_last() =~= seq![a] + rest.drop_last());
        assert(l.last() == rest.last());
        assert(join_lines(l) == join_lines(l.drop_last()).push(0x0a) + l.last());
        assert(join_lines(rest) == join_lines(rest.drop_last()).push(0x0a) + rest.last());
        assert(join_lines(l) =~= a + seq![0x0au8] + join_lines(rest));
    }
}

/// Joining a first line in front of at least one more line puts a line
/// feed between them.
pub proof fn lemma_join_prepend_pub(a: Seq<u8>, rest: Seq<Seq<u8>>)
    requires
        rest.len() >= 1,
    ensures
        join_lines(seq![a] + rest) == a + seq![0x0au8] + join_lines(rest),
{
    lemma_join_prepend(a, rest);
}

proof fn lemma_text_lines_single(a: Seq<u8>)
    requires
        a.len() > 0,
        one_line(a),
    ensures
        text_lines(a) == seq![a],
{
    crate::strings::lemma_next_nl(a, 0);
    assert(next_nl(a, 0) == a.len()) by {
        lemma_next_nl_none(a, 0);
    }
    assert(a.subrange(0, a.len() as int) =~= a);
}

proof fn lemma_next_nl_none(a: Seq<u8>, i: int)
    requires
        0 <= i <= a.len(),
        one_line(a),
    ensures
        next_nl(a, i) == a.len(),
    decreases a.len() - i,
{
    if i < a.len() {
        lemma_next_nl_none(a, i + 1);
    }
}

/// Lines free of line breaks, joined with line feeds (and one more line feed
/// when `nl`), split back into the same lines, provided the text does not
/// end in an empty line without its line feed.
pub proof fn lemma_lines_of_join(l: Seq<Seq<u8>>, nl: bool)
    requires
        l.len() >= 1,
        forall|k: int| 0 <= k < l.len() ==> one_line(#[trigger] l[k]),
        nl || l.last().len() > 0,
    ensures
        text_lines(join_lines(l) + (if nl {
            seq![0x0au8]
        } else {
            Seq::<u8>::empty()
        })) == l,
    decreases l.len(),
{
    let tail = if nl {
        seq![0x0au8]
    } else {
        Seq::<u8>::empty()
    };
    let a = l[0];
    assert(one_line(a));
    if l.len() == 1 {
        assert(join_lines(l) == a);
        if nl {
            crate::strings::lemma_lines_first(a, Seq::empty());
            assert(a + seq![0x0au8] + Seq::<u8>::empty() =~= a + tail);
            assert(text_lines(Seq::<u8>::empty()) =~= Seq::<Seq<u8>>::empty());
            assert(seq![a] + Seq::<Seq<u8>>::empty() =~= l);
        } else {
            assert(a + tail =~= a);
            lemma_text_lines_single(a);
            assert(seq![a] =~= l);
        }
    } else {
        let rest = l.drop_first();
        assert(l =~= seq![a] + rest);
        lemma_join_prepend(a, rest);
        assert(rest.last() == l.last());
        lemma_lines_of_join(rest, nl);
        crate::strings::lemma_lines_first(a, join_lines(rest) + tail);
        assert(join_lines(l) + tail =~= a + seq![0x0au8] + (join_lines(rest) + tail));
    }
}

/// Every line of a text is free of line feeds, and of carriage returns when
/// the text has none.
pub proof fn lemma_lines_clean(b: Seq<u8>, start: int)
    requires
        0 <= start,
        forall|i: int| 0 <= i < b.len() ==> b[i] != 0x0d,
    ensures
        forall|k: int| 0 <= k < lines_from(b, start).len() ==> one_line(#[trigger] lines_from(b, start)[k]),
    decreases b.len() - start,
{
    if start < b.len() {
        crate::strings::lemma_next_nl(b, start);
        let e = next_nl(b, start);
        lemma_next_nl_before(b, start);
        if e < b.len() {
            lemma_lines_clean(b, e + 1);
            let rest = lines_from(b, e + 1);
            let piece = b.subrange(start, e);
            assert(lines_from(b, start) == seq![piece] + rest);
            assert(one_line(piece));
        } else {
            assert(one_line(b.subrange(start, b.len() as int)));
        }
    }
}

proof fn lemma_next_nl_before(b: Seq<u8>, i: int)
    requires
        0 <= i <= b.len(),
    ensures
        forall|j: int| i <= j < next_nl(b, i) ==> b[j] != 0x0a,
    decreases b.len() - i,
{
    if i < b.len() && b[i] != 0x0a {
        lemma_next_nl_before(b, i + 1);
    }
}

/// A text not ending in a line feed ends with a non-empty line.
pub proof fn lemma_last_line_nonempty(b: Seq<u8>, start: int)
    requires
        0 <= start < b.len(),
        b.last() != 0x0a,
    ensures
        lines_from(b, start).len() > 0,
        lines_from(b, start).last().len() > 0,
    decreases b.len() - start,
{
    crate::strings::lemma_next_nl(b, start);
    let e = next_nl(b, start);
    if e < b.len() {
        assert(e + 1 < b.len());
        lemma_last_line_nonempty(b, e + 1);
    }
}

proof fn lemma_delim_from_found(ls: Seq<Seq<u8>>, i: int, e: int)
    requires
        0 <= i <= e < ls.len(),
        is_delimiter(ls[e]),
        forall|j: int| i <= j < e ==> !is_delimiter(#[trigger] ls[j]),
    ensures
        delim_from(ls, i) == Some(e),
    decreases e - i,
{
    if i < e {
        lemma_delim_from_found(ls, i + 1, e);
    }
}

proof fn lemma_delim_from_before(ls: Seq<Seq<u8>>, i: int)
    requires
        0 <= i,
    ensures
        delim_from(ls, i) matches Some(e) ==> forall|j: int| i <= j < e ==> !is_delimiter(#[trigger] ls[j]),
    decreases ls.len() - i,
{
    if 0 <= i < ls.len() && !is_delimiter(ls[i]) {
        lemma_delim_from_before(ls, i + 1);
    }
}

proof fn lemma_fields_concat(a: Seq<Seq<u8>>, b: Seq<Seq<u8>>)
    ensures
        fields_of(a + b) == fields_of(a) + fields_of(b),
    decreases b.len(),
{
    if b.len() == 0 {
        assert(a + b =~= a);
        assert(fields_of(b) =~= Seq::<FieldView>::empty());
        assert(fields_of(a) + fields_of(b) =~= fields_of(a));
    } else {
        lemma_fields_concat(a, b.drop_last());
        assert((a + b).drop_last() =~= a + b.drop_last());
        assert((a + b).last() == b.last());
        match field_of(b.last()) {
            Some(f) => {
                assert(fields_of(a) + fields_of(b.drop_last()).push(f) =~= (fields_of(a)
                    + fields_of(b.drop_last())).push(f));
            },
            None => {},
        }
    }
}

/// No line of `ls` sets the `header` key.
pub open spec fn no_header_field(ls: Seq<Seq<u8>>) -> bool {
    forall|k: int|
        0 <= k < ls.len() ==> !(field_of(#[trigger] ls[k]) matches Some(f) && f.0 == header_word())
}

proof fn lemma_no_header_fields(ls: Seq<Seq<u8>>)
    requires
        no_header_field(ls),
    ensures
        forall|k: int| 0 <= k < fields_of(ls).len() ==> (#[trigger] fields_of(ls)[k]).0 != header_word(),
    decreases ls.len(),
{
    if ls.len() > 0 {
        assert(no_header_field(ls.drop_last())) by {
            assert forall|k: int| 0 <= k < ls.drop_last().len() implies !(field_of(
                #[trigger] ls.drop_last()[k],
            ) matches Some(f) && f.0 == header_word()) by {
                assert(ls.drop_last()[k] == ls[k]);
            }
        }
        lemma_no_header_fields(ls.drop_last());
        assert(!(field_of(ls[ls.len() - 1]) matches Some(f) && f.0 == header_word()));
        let prev = fields_of(ls.drop_last());
        assert(ls.last() == ls[ls.len() - 1]);
        match field_of(ls.last()) {
            Some(f) => {
                assert(fields_of(ls) == prev.push(f));
                assert forall|k: int| 0 <= k < fields_of(ls).len() implies (#[trigger] fields_of(ls)[k]).0
                    != header_word() by {
                    if k < prev.len() {
                        assert(fields_of(ls)[k] == prev[k]);
                    }
                }
            },
            None => {
                assert(fields_of(ls) == prev);
            },
        }
    }
}

proof fn lemma_header_from_skip(f1: Seq<FieldView>, f2: Seq<FieldView>, i: int)
    requires
        0 <= i <= f1.len(),
        forall|k: int| 0 <= k < f1.len() ==> (#[trigger] f1[k]).0 != header_word(),
    ensures
        header_from(f1 + f2, i) == header_from(f2, 0),
    decreases f1.len() + f2.len() - i,
{
    if i < f1.len() {
        assert((f1 + f2)[i] == f1[i]);
        lemma_header_from_skip(f1, f2, i + 1);
    } else {
        lemma_header_from_shift(f1, f2, 0);
    }
}

proof fn lemma_header_from_shift(f1: Seq<FieldView>, f2: Seq<FieldView>, j: int)
    requires
        0 <= j <= f2.len(),
    ensures
        header_from(f1 + f2, f1.len() + j) == header_from(f2, j),
    decreases f2.len() - j,
{
    if j < f2.len() {
        assert((f1 + f2)[f1.len() + j] == f2[j]);
        lemma_header_from_shift(f1, f2, j + 1);
    }
}

proof fn lemma_header_line_from(ls: Seq<Seq<u8>>, i: int, end: int)
    requires
        0 <= i,
    ensures
        match header_line_from(ls, i, end) {
            Some(p) => i <= p < end && p < ls.len() && is_prefix_bytes(header_colon(), trim_bytes(ls[p]))
                && forall|j: int| i <= j < p ==> !is_prefix_bytes(header_colon(), trim_bytes(#[trigger] ls[j])),
            None => forall|j: int|
                i <= j < end && j < ls.len() ==> !is_prefix_bytes(header_colon(), trim_bytes(#[trigger] ls[j])),
        },
    decreases end - i,
{
    if 0 <= i < end && i < ls.len() && !is_prefix_bytes(header_colon(), trim_bytes(ls[i])) {
        lemma_header_line_from(ls, i + 1, end);
    }
}

/// Setting the header of a note whose frontmatter block parses, to a value
/// on one line, gives a note whose frontmatter reads back that value, when
/// every line of the block that sets `header` is spelled `header:` and the
/// note has no carriage returns (its lines then round-trip through joining).
pub proof fn lemma_upsert_then_parse_block(c: Seq<u8>, v: Seq<u8>)
    requires
        one_line(v),
        forall|i: int| 0 <= i < c.len() ==> c[i] != 0x0d,
        opens_block(text_lines(c)),
        parse_spec(text_lines(c)) is Some,
        forall|i: int|
            1 <= i < parse_spec(text_lines(c)).unwrap().0 ==> (field_of(#[trigger] text_lines(c)[i]) matches Some(f)
                && f.0 == header_word() ==> is_prefix_bytes(header_colon(), trim_bytes(text_lines(c)[i]))),
    ensures
        parse_spec(text_lines(upsert_spec(c, v))) matches Some(p) && p.2 == Some(unwrap_spec(v)),
{
    let ls = text_lines(c);
    let end = parse_spec(ls).unwrap().0;
    lemma_delim_from(ls, 1);
    lemma_delim_from_before(ls, 1);
    assert(delim_from(ls, 1) == Some(end));
    let h = header_line(v);
    assert(one_line(h)) by {
        assert forall|i: int| 0 <= i < h.len() implies h[i] != 0x0a && h[i] != 0x0d by {
            if i >= 8 {
                assert(h[i] == v[i - 8]);
            }
        }
    }
    assert(h[0] == 0x68);
    lemma_letter_line_not_delimiter(h);
    lemma_header_line_field(v);
    lemma_header_line_from(ls, 1, end);
    lemma_lines_clean(c, 0);
    if !ends_with_nl(c) {
        lemma_last_line_nonempty(c, 0);
    }
    let nl = ends_with_nl(c);
    let tail = if nl {
        seq![0x0au8]
    } else {
        Seq::<u8>::empty()
    };
    let updated = match header_line_from(ls, 1, end) {
        Some(p) => ls.update(p, h),
        None => ls.insert(end, h),
    };
    assert(upsert_spec(c, v) == join_lines(updated) + tail);
    assert forall|k: int| 0 <= k < updated.len() implies one_line(#[trigger] updated[k]) by {
        match header_line_from(ls, 1, end) {
            Some(p) => {
                if k != p {
                    assert(updated[k] == ls[k]);
                }
            },
            None => {
                if k < end {
                    assert(updated[k] == ls[k]);
                } else if k > end {
                    assert(updated[k] == ls[k - 1]);
                }
            },
        }
    }
    assert(updated.last() == ls.last());
    lemma_lines_of_join(updated, nl);
    let ups = text_lines(upsert_spec(c, v));
    assert(ups == updated);
    assert(updated[0] == ls[0]);
    match header_line_from(ls, 1, end) {
        Some(p) => {
            assert forall|j: int| 1 <= j < end implies !is_delimiter(#[trigger] updated[j]) by {
                if j != p {
                    assert(updated[j] == ls[j]);
                }
            }
            lemma_delim_from_found(updated, 1, end);
            let before = updated.subrange(1, p);
            let after = updated.subrange(p + 1, end);
            assert(updated.subrange(1, end) =~= before + seq![h] + after);
            assert(no_header_field(before)) by {
                assert forall|k: int| 0 <= k < before.len() implies !(field_of(#[trigger] before[k]) matches Some(
                    f,
                ) && f.0 == header_word()) by {
                    assert(before[k] == ls[k + 1]);
                }
            }
            lemma_no_header_fields(before);
            lemma_fields_concat(before + seq![h], after);
            lemma_fields_concat(before, seq![h]);
            assert(seq![h].drop_last() =~= Seq::<Seq<u8>>::empty());
            assert(seq![h].last() == h);
            assert(fields_of(seq![h].drop_last()) =~= Seq::<FieldView>::empty());
            assert(fields_of(seq![h]) =~= seq![(header_word(), trim_bytes(v))]);
            let fb = fields_of(before);
            let rest = seq![(header_word(), trim_bytes(v))] + fields_of(after);
            assert(fields_of(updated.subrange(1, end)) =~= fb + rest);
            lemma_header_from_skip(fb, rest, 0);
            assert(header_from(rest, 0) == Some(unwrap_spec(trim_bytes(v))));
        },
        None => {
            assert forall|j: int| 1 <= j < end + 1 implies !is_delimiter(#[trigger] updated[j]) by {
                if j < end {
                    assert(updated[j] == ls[j]);
                }
            }
            assert(updated[end + 1] == ls[end]);
            lemma_delim_from_found(updated, 1, end + 1);
            let before = updated.subrange(1, end);
            assert(updated.subrange(1, end + 1) =~= before + seq![h]);
            assert(no_header_field(before)) by {
                assert forall|k: int| 0 <= k < before.len() implies !(field_of(#[trigger] before[k]) matches Some(
                    f,
                ) && f.0 == header_word()) by {
                    assert(before[k] == ls[k + 1]);
                }
            }
            lemma_no_header_fields(before);
            lemma_fields_concat(before, seq![h]);
            assert(seq![h].drop_last() =~= Seq::<Seq<u8>>::empty());
            assert(seq![h].last() == h);
            assert(fields_of(seq![h].drop_last()) =~= Seq::<FieldView>::empty());
            assert(fields_of(seq![h]) =~= seq![(header_word(), trim_bytes(v))]);
            let fb = fields_of(before);
            let rest = seq![(header_word(), trim_bytes(v))];
            lemma_header_from_skip(fb, rest, 0);
            assert(header_from(rest, 0) == Some(unwrap_spec(trim_bytes(v))));
        },
    }
    crate::strings::lemma_trim_idempotent(v);
    assert(unwrap_spec(trim_bytes(v)) == unwrap_spec(v));
}

} // verus!
