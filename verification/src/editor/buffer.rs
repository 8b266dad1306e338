//! The editor's text buffer as a list of lines: selections, deletion, the
//! trailing empty line, the text a note is loaded from and saved as, and
//! the outline folds of indented blocks.

use crate::editor::blocks::{classify, kind_at, lb, lines_ok, LineKind};
use crate::editor::markdown::{
    first_heading, hash_run, heading_after_markers, heading_at_spec, heading_info,
    heading_info_spec, is_hr_line, marker_units, parse_prefix, prefix_spec, prefix_units,
    render_line, seg_views, segments, units_len, PrefixUnit, SegView, Segment, SegmentStyle,
    blockquote_marker_len, has_quote_unit, image_link_spec, image_link_target, lead_quote_len,
};
use crate::frontmatter::{join_lines, line_views};
use crate::strings::{
    chars_of, empty_string, lemma_ends_boundary, lemma_next_nl, lines_from, next_nl, push_ascii,
    push_str, sb, split_lines, str_slice, string_push, text_lines, to_string, utf8, views_of,
};
use vstd::prelude::*;
use vstd::utf8::*;

verus! {

broadcast use vstd::utf8::group_utf8_lib;

/// One visual (wrapped) line: the range `[start, end)` of buffer line
/// `line` it shows, and its indentation in pixels.
#[derive(Debug, Clone, Copy, PartialEq, Eq, Structural)]
pub struct VisualLine {
    pub start: usize,
    pub end: usize,
    pub line: usize,
    pub indent: i32,
}

/// The selection between anchor `(ax, ay)` and caret `(cx, cy)` as
/// `(start_y, start_x, end_y, end_x)` in reading order; none when they meet.
pub fn selection_range(ax: i32, ay: i32, cx: i32, cy: i32) -> (r: Option<(usize, usize, usize, usize)>)
    ensures
        r == (if ax == cx && ay == cy {
            None
        } else if ay < cy || (ay == cy && ax <= cx) {
            Some((ay as usize, ax as usize, cy as usize, cx as usize))
        } else {
            Some((cy as usize, cx as usize, ay as usize, ax as usize))
        }),
{
    if ax == cx && ay == cy {
        return None;
    }
    if ay < cy || (ay == cy && ax <= cx) {
        Some((ay as usize, ax as usize, cy as usize, cx as usize))
    } else {
        Some((cy as usize, cx as usize, ay as usize, ax as usize))
    }
}

/// An inclusive line range clamped to a buffer of `len` lines; none for an
/// empty buffer or a range that ends before it starts.
pub fn clamp_line_range(start: usize, end: usize, len: usize) -> (r: Option<(usize, usize)>)
    ensures
        ({
            let s = if start < len {
                start as int
            } else {
                len - 1
            };
            let e = if end < len {
                end as int
            } else {
                len - 1
            };
            r == (if len == 0 || s > e {
                None
            } else {
                Some((s as usize, e as usize))
            })
        }),
        r matches Some(p) ==> p.0 <= p.1 < len,
{
    if len == 0 {
        return None;
    }
    let s = if start < len {
        start
    } else {
        len - 1
    };
    let e = if end < len {
        end
    } else {
        len - 1
    };
    if s > e {
        return None;
    }
    Some((s, e))
}

/// Makes the buffer end with an empty line to move down into: appends one
/// when the buffer is empty or its last line holds text.
pub fn ensure_trailing_newline(buffer: &mut Vec<String>)
    ensures
        ({
            let before = line_views(old(buffer)@);
            line_views(final(buffer)@) == (if before.len() == 0 || before.last().len() > 0 {
                before.push(Seq::<u8>::empty())
            } else {
                before
            })
        }),
        final(buffer)@.len() > 0,
        utf8(final(buffer)@.last()@).len() == 0,
{
    let ghost before = line_views(buffer@);
    let n = buffer.len();
    if n == 0 || buffer[n - 1].as_str().as_bytes().len() > 0 {
        let e = empty_string();
        buffer.push(e);
        assert(line_views(buffer@) =~= before.push(Seq::<u8>::empty()));
    }
}

/// The lines after deleting the selection from `(sy, sx)` to `(ey, ex)`:
/// the first line keeps its text before `sx` (all of it when `sx` lies
/// past its end), followed by the last line's text from `ex`; the lines in
/// between go.
pub open spec fn deleted_spec(ls: Seq<Seq<u8>>, sy: int, sx: int, ey: int, ex: int) -> Seq<Seq<u8>> {
    let first = ls[sy];
    let head = first.subrange(0, if sx < first.len() { sx } else { first.len() as int });
    let tail = ls[ey].subrange(ex, ls[ey].len() as int);
    ls.take(sy) + seq![head + tail] + ls.skip(ey + 1)
}

/// Deletes the selection from `(start_y, start_x)` to `(end_y, end_x)` and
/// returns the caret `(start_x, start_y)` (see [`deleted_spec`]).
pub fn delete_selection(
    buffer: &mut Vec<String>,
    start_y: usize,
    start_x: usize,
    end_y: usize,
    end_x: usize,
) -> (r: (i32, i32))
    requires
        start_y <= end_y < old(buffer)@.len(),
        end_x <= utf8(old(buffer)@[end_y as int]@).len(),
        is_char_boundary(utf8(old(buffer)@[end_y as int]@), end_x as int),
        start_x < utf8(old(buffer)@[start_y as int]@).len() ==> is_char_boundary(
            utf8(old(buffer)@[start_y as int]@),
            start_x as int,
        ),
        start_y == end_y ==> start_x <= end_x,
        start_x <= i32::MAX,
        start_y <= i32::MAX,
    ensures
        line_views(final(buffer)@) == deleted_spec(
            line_views(old(buffer)@),
            start_y as int,
            start_x as int,
            end_y as int,
            end_x as int,
        ),
        r == (start_x as i32, start_y as i32),
{
    let ghost ls = line_views(buffer@);
    let first = buffer[start_y].as_str();
    let first_len = first.as_bytes().len();
    let head_end = if start_x < first_len {
        start_x
    } else {
        first_len
    };
    proof {
        lemma_ends_boundary(sb(first));
    }
    let mut joined = empty_string();
    push_str(&mut joined, str_slice(first, 0, head_end));
    let last = buffer[end_y].as_str();
    proof {
        lemma_ends_boundary(sb(last));
    }
    push_str(&mut joined, str_slice(last, end_x, last.as_bytes().len()));
    let ghost nl = utf8(joined@);
    buffer.set(start_y, joined);
    let mut k: usize = 0;
    while k < end_y - start_y
        invariant
            start_y <= end_y < ls.len(),
            k <= end_y - start_y,
            buffer@.len() == ls.len() - k,
            line_views(buffer@) == ls.take(start_y as int) + seq![nl] + ls.skip(start_y + 1 + k),
        decreases end_y - start_y - k,
    {
        let ghost before = line_views(buffer@);
        let ghost bv = buffer@;
        buffer.remove(start_y + 1);
        assert(line_views(buffer@) =~= before.remove(start_y + 1));
        assert(line_views(buffer@) =~= ls.take(start_y as int) + seq![nl] + ls.skip(
            start_y + 1 + k + 1,
        ));
        k = k + 1;
    }
    (start_x as i32, start_y as i32)
}

/// The lines a note's text loads as: its lines (one empty line for an empty
/// text), then an empty line appended when the last one holds text.
pub open spec fn loaded_spec(b: Seq<u8>) -> Seq<Seq<u8>> {
    let ls = if b.len() == 0 {
        seq![Seq::<u8>::empty()]
    } else {
        text_lines(b)
    };
    if ls.len() == 0 || ls.last().len() > 0 {
        ls.push(Seq::<u8>::empty())
    } else {
        ls
    }
}

/// Splits a note's text into the editor's lines and places the caret at the
/// end of its last line, before the trailing empty line is added. Returns
/// the lines, the caret column and the caret line.
pub fn load_lines(content: &str) -> (r: (Vec<String>, i32, i32))
    ensures
        line_views(r.0@) == loaded_spec(sb(content)),
        ({
            let ls = if sb(content).len() == 0 {
                seq![Seq::<u8>::empty()]
            } else {
                text_lines(sb(content))
            };
            ls.len() > 0 && r.1 == ls.last().len() as i32 && r.2 == (ls.len() - 1) as i32
        }),
{
    let mut lines: Vec<String> = Vec::new();
    if content.as_bytes().len() == 0 {
        lines.push(empty_string());
        assert(line_views(lines@) =~= seq![Seq::<u8>::empty()]);
    } else {
        let parts = split_lines(content);
        let ghost ps = views_of(parts@);
        let mut k: usize = 0;
        while k < parts.len()
            invariant
                ps == views_of(parts@),
                k <= parts@.len(),
                line_views(lines@) == ps.take(k as int),
            decreases parts@.len() - k,
        {
            let ghost before = lines@;
            let x = to_string(parts[k]);
            lines.push(x);
            assert(line_views(lines@) =~= line_views(before).push(utf8(x@)));
            assert(ps.take(k + 1) =~= ps.take(k as int).push(ps[k as int]));
            k = k + 1;
        }
        assert(ps.take(k as int) =~= ps);
        proof {
            lemma_lines_nonempty(sb(content));
        }
    }
    let n = lines.len();
    let cy = (n - 1) as i32;
    let cx = lines[n - 1].as_str().as_bytes().len() as i32;
    assert(line_views(lines@)[n - 1] == utf8(lines@[n - 1]@));
    ensure_trailing_newline(&mut lines);
    (lines, cx, cy)
}

/// A non-empty text has at least one line.
pub proof fn lemma_lines_nonempty(b: Seq<u8>)
    requires
        b.len() > 0,
    ensures
        text_lines(b).len() > 0,
{
    crate::strings::lemma_next_nl(b, 0);
}

/// The buffer's text: its lines joined with line feeds.
pub fn buffer_text(buffer: &[String]) -> (r: String)
    ensures
        utf8(r@) == join_lines(line_views(buffer@)),
{
    let ghost ls = line_views(buffer@);
    let mut out = empty_string();
    let mut k: usize = 0;
    while k < buffer.len()
        invariant
            ls == line_views(buffer@),
            k <= buffer@.len(),
            utf8(out@) == join_lines(ls.take(k as int)),
        decreases buffer@.len() - k,
    {
        proof {
            assert(ls.take(k + 1).drop_last() =~= ls.take(k as int));
            assert(ls.take(k + 1).last() == ls[k as int]);
        }
        if k > 0 {
            push_ascii(&mut out, 0x0a);
        }
        push_str(&mut out, buffer[k].as_str());
        proof {
            if k == 0 {
                assert(ls.take(1) =~= seq![ls[0]]);
                assert(utf8(out@) =~= ls[0]);
            }
        }
        k = k + 1;
    }
    assert(ls.take(k as int) =~= ls);
    out
}

/// The lines of a text with no carriage returns, joined back with line
/// feeds (and the final line feed when the text had one), give the text.
proof fn lemma_join_of_lines(b: Seq<u8>, start: int)
    requires
        0 <= start < b.len(),
        forall|i: int| 0 <= i < b.len() ==> b[i] != 0x0d,
    ensures
        join_lines(lines_from(b, start)) + (if b.last() == 0x0a {
            seq![0x0au8]
        } else {
            Seq::<u8>::empty()
        }) == b.subrange(start, b.len() as int),
    decreases b.len() - start,
{
    let tail = if b.last() == 0x0a {
        seq![0x0au8]
    } else {
        Seq::<u8>::empty()
    };
    lemma_next_nl(b, start);
    let e = next_nl(b, start);
    if e >= b.len() {
        let piece = b.subrange(start, b.len() as int);
        assert(lines_from(b, start) == seq![piece]);
        assert(join_lines(seq![piece]) == piece);
        assert(b.last() != 0x0a) by {
            lemma_no_nl_before(b, start);
            assert(b[b.len() - 1] != 0x0a);
        }
        assert(piece + tail =~= piece);
    } else {
        let piece = b.subrange(start, e);
        let rest = lines_from(b, e + 1);
        assert(lines_from(b, start) == seq![piece] + rest);
        if e + 1 == b.len() {
            assert(rest =~= Seq::<Seq<u8>>::empty());
            assert(seq![piece] + rest =~= seq![piece]);
            assert(join_lines(seq![piece]) == piece);
            assert(b.last() == 0x0a);
            assert(piece + tail =~= b.subrange(start, b.len() as int));
        } else {
            lemma_join_of_lines(b, e + 1);
            lemma_lines_nonempty_from(b, e + 1);
            crate::frontmatter::lemma_join_prepend_pub(piece, rest);
            assert(join_lines(seq![piece] + rest) + tail =~= piece + seq![0x0au8] + (join_lines(rest) + tail));
            assert(piece + seq![0x0au8] + b.subrange(e + 1, b.len() as int) =~= b.subrange(start, b.len() as int));
        }
    }
}

proof fn lemma_no_nl_before(b: Seq<u8>, i: int)
    requires
        0 <= i <= b.len(),
        next_nl(b, i) >= b.len(),
    ensures
        forall|j: int| i <= j < b.len() ==> b[j] != 0x0a,
    decreases b.len() - i,
{
    if i < b.len() {
        lemma_no_nl_before(b, i + 1);
    }
}

proof fn lemma_lines_nonempty_from(b: Seq<u8>, start: int)
    requires
        0 <= start < b.len(),
    ensures
        lines_from(b, start).len() >= 1,
{
    lemma_next_nl(b, start);
}

proof fn lemma_next_nl_le(b: Seq<u8>, i: int, j: int)
    requires
        0 <= i <= j < b.len(),
        b[j] == 0x0a,
    ensures
        next_nl(b, i) <= j,
    decreases j - i,
{
    if i < j && b[i] != 0x0a {
        lemma_next_nl_le(b, i + 1, j);
    }
}

/// In a text ending with a line feed after a non-empty line, the last line
/// is not empty.
proof fn lemma_last_line_before_nl(b: Seq<u8>, start: int)
    requires
        0 <= start < b.len() - 1,
        b.last() == 0x0a,
        b[b.len() - 2] != 0x0a,
        forall|i: int| 0 <= i < b.len() ==> b[i] != 0x0d,
    ensures
        lines_from(b, start).len() >= 1,
        lines_from(b, start).last().len() > 0,
    decreases b.len() - start,
{
    lemma_next_nl(b, start);
    lemma_next_nl_le(b, start, b.len() - 1);
    let e = next_nl(b, start);
    let rest = lines_from(b, e + 1);
    if e < b.len() - 1 {
        assert(e != b.len() - 2);
        lemma_last_line_before_nl(b, e + 1);
        assert(lines_from(b, start) == seq![b.subrange(start, e)] + rest);
        assert(lines_from(b, start).last() == rest.last());
    } else {
        assert(e == b.len() - 1);
        assert(rest =~= Seq::<Seq<u8>>::empty());
        assert(lines_from(b, start) =~= seq![b.subrange(start, e)]);
    }
}

/// Saving a note loaded into the editor gives back its text, for a text
/// without carriage returns that ends with a line feed after a non-empty
/// last line: loading adds exactly the empty line that saving turns back
/// into the final line feed.
pub proof fn lemma_load_then_save(c: Seq<u8>)
    requires
        c.len() >= 2,
        c.last() == 0x0a,
        c[c.len() - 2] != 0x0a,
        forall|i: int| 0 <= i < c.len() ==> c[i] != 0x0d,
    ensures
        join_lines(loaded_spec(c)) == c,
{
    let ls = text_lines(c);
    lemma_last_line_before_nl(c, 0);
    lemma_join_of_lines(c, 0);
    assert(c.subrange(0, c.len() as int) =~= c);
    assert(loaded_spec(c) == ls.push(Seq::<u8>::empty()));
    let l2 = ls.push(Seq::<u8>::empty());
    assert(l2.drop_last() =~= ls);
    assert(join_lines(l2) == join_lines(ls).push(0x0a) + Seq::<u8>::empty());
    assert(join_lines(l2) =~= join_lines(ls) + seq![0x0au8]);
}

/// Columns of indentation from byte `i` of a line on: one per leading
/// space, four per leading tab.
pub open spec fn indent_cols_from(b: Seq<u8>, i: int) -> int
    decreases b.len() - i,
{
    if 0 <= i < b.len() && (b[i] == 0x20 || b[i] == 0x09) {
        (if b[i] == 0x09 {
            4int
        } else {
            1int
        }) + indent_cols_from(b, i + 1)
    } else {
        0
    }
}

/// Columns of a line's leading indentation (see [`indent_cols_from`]).
pub open spec fn indent_cols(b: Seq<u8>) -> int {
    indent_cols_from(b, 0)
}

proof fn lemma_indent_cols_bound(b: Seq<u8>, i: int)
    requires
        0 <= i <= b.len(),
    ensures
        0 <= indent_cols_from(b, i) <= 4 * (b.len() - i),
    decreases b.len() - i,
{
    if i < b.len() {
        lemma_indent_cols_bound(b, i + 1);
    }
}

/// Columns of a line's leading indentation.
fn indent_cols_exec(line: &str) -> (r: u64)
    requires
        sb(line).len() < 0x8000_0000,
    ensures
        r == indent_cols(sb(line)),
{
    let b = line.as_bytes();
    let mut i = b.len();
    let mut n: u64 = 0;
    let mut k: usize = 0;
    while k < b.len() && (b[k] == 0x20 || b[k] == 0x09)
        invariant
            k <= b@.len() < 0x8000_0000,
            i == b@.len(),
            n == indent_cols(b@) - indent_cols_from(b@, k as int),
            n <= 4 * k,
        decreases b@.len() - k,
    {
        n = n + if b[k] == 0x09 {
            4
        } else {
            1
        };
        k = k + 1;
    }
    proof {
        lemma_indent_cols_bound(b@, 0);
    }
    n
}

/// Whether the line is a heading, after any leading list or quote markers.
pub open spec fn is_heading_line(b: Seq<u8>) -> bool {
    first_heading(prefix_units(b)) is Some
}

/// The end of the run of lines from `j` on that are indented deeper than
/// `cols` columns: the first line that is not, or the line count.
pub open spec fn run_end(ls: Seq<Seq<u8>>, j: int, cols: int) -> int
    decreases ls.len() - j,
{
    if 0 <= j < ls.len() && indent_cols(ls[j]) > cols {
        run_end(ls, j + 1, cols)
    } else {
        j
    }
}

/// The folds from line `i` on, `heading` holding the indentation of the
/// heading whose block the walk is inside. A line opens a fold when the
/// next line is indented deeper than it: the fold runs to the end of that
/// deeper run. A heading opens a block of its own instead, in which nothing
/// folds, left when a line is indented no deeper than the heading.
pub open spec fn folds_from(ls: Seq<Seq<u8>>, i: int, heading: Option<int>) -> Seq<(int, int)>
    decreases ls.len() - i,
{
    if i < 0 || i + 1 >= ls.len() {
        Seq::empty()
    } else {
        let cols = indent_cols(ls[i]);
        let h = match heading {
            Some(x) => if cols <= x {
                None
            } else {
                heading
            },
            None => None,
        };
        if is_heading_line(ls[i]) {
            folds_from(ls, i + 1, Some(cols))
        } else if h is Some {
            folds_from(ls, i + 1, h)
        } else if indent_cols(ls[i + 1]) > cols {
            seq![(i, run_end(ls, i + 1, cols))] + folds_from(ls, i + 1, h)
        } else {
            folds_from(ls, i + 1, h)
        }
    }
}

/// The folds of a buffer as `(head, end)` pairs: the head line stays
/// visible and lines `head + 1 .. end` fold away (see [`folds_from`]).
pub open spec fn fold_ranges_spec(ls: Seq<Seq<u8>>) -> Seq<(int, int)> {
    folds_from(ls, 0, None)
}

/// Integer view of a list of line pairs.
pub open spec fn pairs_view(v: Seq<(usize, usize)>) -> Seq<(int, int)> {
    v.map_values(|p: (usize, usize)| (p.0 as int, p.1 as int))
}

/// The end of the run of lines from `j` on indented deeper than `cols`.
fn run_end_exec(buf: &[String], j: usize, cols: u64) -> (r: usize)
    requires
        j <= buf@.len(),
        forall|k: int| 0 <= k < buf@.len() ==> utf8(#[trigger] buf@[k]@).len() < 0x8000_0000,
    ensures
        r == run_end(line_views(buf@), j as int, cols as int),
        j <= r <= buf@.len(),
{
    let ghost ls = line_views(buf@);
    let mut k = j;
    while k < buf.len() && indent_cols_exec(buf[k].as_str()) > cols
        invariant
            j <= k <= buf@.len(),
            ls == line_views(buf@),
            forall|q: int| 0 <= q < buf@.len() ==> utf8(#[trigger] buf@[q]@).len() < 0x8000_0000,
            run_end(ls, j as int, cols as int) == run_end(ls, k as int, cols as int),
        decreases buf@.len() - k,
    {
        k = k + 1;
    }
    k
}

/// The outline folds of a buffer (see [`fold_ranges_spec`]).
pub fn fold_ranges(buf: &[String]) -> (r: Vec<(usize, usize)>)
    requires
        forall|k: int| 0 <= k < buf@.len() ==> utf8(#[trigger] buf@[k]@).len() < 0x8000_0000,
    ensures
        pairs_view(r@) == fold_ranges_spec(line_views(buf@)),
{
    let ghost ls = line_views(buf@);
    let mut out: Vec<(usize, usize)> = Vec::new();
    let mut heading: Option<u64> = None;
    if buf.len() < 2 {
        assert(pairs_view(out@) =~= fold_ranges_spec(ls));
        return out;
    }
    let mut i: usize = 0;
    proof {
        assert(pairs_view(out@) + folds_from(ls, 0, None) =~= fold_ranges_spec(ls));
    }
    while i < buf.len() - 1
        invariant
            i + 1 <= buf@.len(),
            buf@.len() >= 2,
            ls == line_views(buf@),
            forall|k: int| 0 <= k < buf@.len() ==> utf8(#[trigger] buf@[k]@).len() < 0x8000_0000,
            pairs_view(out@) + folds_from(
                ls,
                i as int,
                match heading {
                    Some(x) => Some(x as int),
                    None => None,
                },
            ) == fold_ranges_spec(ls),
        decreases buf@.len() - i,
    {
        let ghost hv = match heading {
            Some(x) => Some(x as int),
            None => None::<int>,
        };
        let ghost before = out@;
        let line = buf[i].as_str();
        assert(sb(line) == ls[i as int]);
        let cols = indent_cols_exec(line);
        match heading {
            Some(h) => {
                if cols <= h {
                    heading = None;
                }
            },
            None => {},
        }
        let ghost hn = match heading {
            Some(x) => Some(x as int),
            None => None::<int>,
        };
        if heading_after_markers(line).is_some() {
            heading = Some(cols);
        } else if heading.is_none() {
            let next = buf[i + 1].as_str();
            assert(sb(next) == ls[i + 1]);
            if indent_cols_exec(next) > cols {
                let j = run_end_exec(buf, i + 1, cols);
                out.push((i, j));
                proof {
                    assert(pairs_view(out@) =~= pairs_view(before) + seq![(i as int, j as int)]);
                }
            }
        }
        proof {
            assert(folds_from(ls, i as int, hv) == pairs_view(out@).subrange(
                pairs_view(before).len() as int,
                pairs_view(out@).len() as int,
            ) + folds_from(
                ls,
                i + 1,
                match heading {
                    Some(x) => Some(x as int),
                    None => None,
                },
            ));
            assert(pairs_view(out@) =~= pairs_view(before) + pairs_view(out@).subrange(
                pairs_view(before).len() as int,
                pairs_view(out@).len() as int,
            ));
        }
        i = i + 1;
    }
    proof {
        assert(folds_from(
            ls,
            i as int,
            match heading {
                Some(x) => Some(x as int),
                None => None,
            },
        ) =~= Seq::<(int, int)>::empty());
        assert(pairs_view(out@) + Seq::<(int, int)>::empty() =~= pairs_view(out@));
    }
    out
}

/// The extent of a run of deeper lines: it starts at `j`, every line in it
/// is indented deeper than `cols`, and the line after it (if any) is not.
pub proof fn lemma_run_end(ls: Seq<Seq<u8>>, j: int, cols: int)
    requires
        0 <= j <= ls.len(),
    ensures
        j <= run_end(ls, j, cols) <= ls.len(),
        forall|q: int| j <= q < run_end(ls, j, cols) ==> indent_cols(#[trigger] ls[q]) > cols,
        run_end(ls, j, cols) < ls.len() ==> indent_cols(ls[run_end(ls, j, cols)]) <= cols,
    decreases ls.len() - j,
{
    if j < ls.len() && indent_cols(ls[j]) > cols {
        lemma_run_end(ls, j + 1, cols);
    }
}

/// Whether `(h, e)` is a fold of `ls`: its head is no heading, the lines
/// after it up to `e` are indented deeper than it (at least one of them),
/// and line `e`, if any, is not.
pub open spec fn is_fold(ls: Seq<Seq<u8>>, h: int, e: int) -> bool {
    &&& 0 <= h
    &&& h + 1 < e <= ls.len()
    &&& !is_heading_line(ls[h])
    &&& forall|q: int| h < q < e ==> indent_cols(#[trigger] ls[q]) > indent_cols(ls[h])
    &&& e < ls.len() ==> indent_cols(ls[e]) <= indent_cols(ls[h])
}

proof fn lemma_folds_from_shape(ls: Seq<Seq<u8>>, i: int, heading: Option<int>)
    requires
        0 <= i,
    ensures
        forall|k: int|
            0 <= k < folds_from(ls, i, heading).len() ==> {
                &&& is_fold(ls, (#[trigger] folds_from(ls, i, heading)[k]).0, folds_from(
                    ls,
                    i,
                    heading,
                )[k].1)
                &&& folds_from(ls, i, heading)[k].0 >= i
            },
        forall|k1: int, k2: int|
            0 <= k1 < k2 < folds_from(ls, i, heading).len() ==> (#[trigger] folds_from(
                ls,
                i,
                heading,
            )[k1]).0 < (#[trigger] folds_from(ls, i, heading)[k2]).0,
    decreases ls.len() - i,
{
    if i + 1 < ls.len() {
        let cols = indent_cols(ls[i]);
        let h = match heading {
            Some(x) => if cols <= x {
                None
            } else {
                heading
            },
            None => None,
        };
        lemma_folds_from_shape(ls, i + 1, Some(cols));
        lemma_folds_from_shape(ls, i + 1, h);
        if is_heading_line(ls[i]) {
            assert(folds_from(ls, i, heading) == folds_from(ls, i + 1, Some(cols)));
        } else if h is Some {
            assert(folds_from(ls, i, heading) == folds_from(ls, i + 1, h));
        } else if indent_cols(ls[i + 1]) <= cols {
            assert(folds_from(ls, i, heading) == folds_from(ls, i + 1, h));
        }
        if !is_heading_line(ls[i]) && h is None && indent_cols(ls[i + 1]) > cols {
            lemma_run_end(ls, i + 1, cols);
            let rest = folds_from(ls, i + 1, h);
            let all = folds_from(ls, i, heading);
            assert(all == seq![(i, run_end(ls, i + 1, cols))] + rest);
            assert forall|k: int| 0 <= k < all.len() implies {
                &&& is_fold(ls, (#[trigger] all[k]).0, all[k].1)
                &&& all[k].0 >= i
            } by {
                if k > 0 {
                    assert(all[k] == rest[k - 1]);
                }
            }
            assert forall|k1: int, k2: int| 0 <= k1 < k2 < all.len() implies (#[trigger] all[k1]).0
                < (#[trigger] all[k2]).0 by {
                assert(all[k2] == rest[k2 - 1]);
                if k1 > 0 {
                    assert(all[k1] == rest[k1 - 1]);
                }
            }
        }
    }
}

/// Every outline fold hides exactly the run of deeper-indented lines under
/// a line that is no heading, and the folds come in order of their heads.
pub proof fn lemma_fold_ranges_shape(ls: Seq<Seq<u8>>)
    ensures
        forall|k: int|
            0 <= k < fold_ranges_spec(ls).len() ==> is_fold(
                ls,
                (#[trigger] fold_ranges_spec(ls)[k]).0,
                fold_ranges_spec(ls)[k].1,
            ),
        forall|k1: int, k2: int|
            0 <= k1 < k2 < fold_ranges_spec(ls).len() ==> (#[trigger] fold_ranges_spec(ls)[k1]).0
                < (#[trigger] fold_ranges_spec(ls)[k2]).0,
{
    lemma_folds_from_shape(ls, 0, None);
}

/// The line a caret on line `idx` of `n` lines moves to when a fold hides
/// it: the first fold from the `k`-th on that is folded (its head is in
/// `folded`) and hides `idx` sends it to the line just past the fold, kept
/// within the last line; with no such fold it stays.
pub open spec fn snap_from(rs: Seq<(int, int)>, k: int, folded: Seq<usize>, idx: int, n: int) -> int
    decreases rs.len() - k,
{
    if k < 0 || k >= rs.len() {
        idx
    } else if rs[k].0 < idx < rs[k].1 && folded.contains(rs[k].0 as usize) {
        let last = if n > 0 {
            n - 1
        } else {
            0
        };
        if rs[k].1 < last {
            rs[k].1
        } else {
            last
        }
    } else {
        snap_from(rs, k + 1, folded, idx, n)
    }
}

/// Whether `x` is in `v`.
fn holds(v: &[usize], x: usize) -> (r: bool)
    ensures
        r == v@.contains(x),
{
    let mut i: usize = 0;
    while i < v.len()
        invariant
            i <= v@.len(),
            forall|k: int| 0 <= k < i ==> v@[k] != x,
        decreases v@.len() - i,
    {
        if v[i] == x {
            assert(v@[i as int] == x);
            return true;
        }
        i = i + 1;
    }
    false
}

/// Moves a caret line out of any folded fold hiding it (see
/// [`snap_from`]).
pub fn snap_out_of_fold(buf: &[String], folded: &[usize], idx: usize) -> (r: usize)
    requires
        forall|k: int| 0 <= k < buf@.len() ==> utf8(#[trigger] buf@[k]@).len() < 0x8000_0000,
    ensures
        r == snap_from(fold_ranges_spec(line_views(buf@)), 0, folded@, idx as int, buf@.len() as int),
{
    let ranges = fold_ranges(buf);
    let ghost rs = fold_ranges_spec(line_views(buf@));
    proof {
        lemma_fold_ranges_shape(line_views(buf@));
    }
    let mut k: usize = 0;
    while k < ranges.len()
        invariant
            k <= ranges@.len(),
            pairs_view(ranges@) == rs,
            rs == fold_ranges_spec(line_views(buf@)),
            forall|q: int| 0 <= q < rs.len() ==> #[trigger] rs[q].1 <= buf@.len(),
            snap_from(rs, 0, folded@, idx as int, buf@.len() as int) == snap_from(
                rs,
                k as int,
                folded@,
                idx as int,
                buf@.len() as int,
            ),
        decreases ranges@.len() - k,
    {
        let (head, end) = ranges[k];
        assert(rs[k as int] == (head as int, end as int));
        if head < idx && idx < end && holds(folded, head) {
            let last = if buf.len() > 0 {
                buf.len() - 1
            } else {
                0
            };
            return if end < last {
                end
            } else {
                last
            };
        }
        k = k + 1;
    }
    idx
}

/// The folded heads after toggling `head`: its first entry goes when it is
/// folded; otherwise it is added at the end.
pub open spec fn toggled(folded: Seq<usize>, head: usize) -> Seq<usize> {
    match folded.index_of_first(head) {
        Some(p) => folded.remove(p),
        None => folded.push(head),
    }
}

/// Folds or unfolds the fold whose head is line `head` (see [`toggled`]).
pub fn toggle_fold(folded: &mut Vec<usize>, head: usize)
    ensures
        final(folded)@ == toggled(old(folded)@, head),
{
    let ghost f = folded@;
    let mut i: usize = 0;
    while i < folded.len() && folded[i] != head
        invariant
            i <= folded@.len(),
            folded@ == f,
            forall|k: int| 0 <= k < i ==> folded@[k] != head,
        decreases folded@.len() - i,
    {
        i = i + 1;
    }
    proof {
        f.index_of_first_ensures(head);
    }
    if i < folded.len() {
        proof {
            assert(f[i as int] == head);
            let p = f.index_of_first(head).unwrap();
            assert(p == i) by {
                if p < i {
                    assert(f[p] != head);
                }
                if p > i {
                    assert(f[i as int] == head);
                }
            }
        }
        folded.remove(i);
    } else {
        folded.push(head);
    }
}

/// Toggling a fold twice leaves the same heads folded, and toggling keeps
/// the folded heads free of repeats.
pub proof fn lemma_toggle_twice(folded: Seq<usize>, head: usize)
    requires
        folded.no_duplicates(),
    ensures
        toggled(folded, head).no_duplicates(),
        forall|x: usize| #[trigger] toggled(toggled(folded, head), head).contains(x) == folded.contains(x),
{
    folded.index_of_first_ensures(head);
    if folded.contains(head) {
        let p = folded.index_of_first(head).unwrap();
        let once = folded.remove(p);
        assert(!once.contains(head)) by {
            if once.contains(head) {
                let q = choose|q: int| 0 <= q < once.len() && once[q] == head;
                if q < p {
                    assert(folded[q] == head);
                } else {
                    assert(folded[q + 1] == head);
                }
            }
        }
        assert(once.no_duplicates()) by {
            assert forall|a: int, b: int| 0 <= a < b < once.len() implies once[a] != once[b] by {
                let fa = if a < p { a } else { a + 1 };
                let fb = if b < p { b } else { b + 1 };
                assert(once[a] == folded[fa]);
                assert(once[b] == folded[fb]);
            }
        }
        once.index_of_first_ensures(head);
        assert forall|x: usize| #[trigger] toggled(once, head).contains(x) == folded.contains(x) by {
            let twice = once.push(head);
            assert(toggled(once, head) == twice);
            if folded.contains(x) {
                let q = choose|q: int| 0 <= q < folded.len() && folded[q] == x;
                if x == head {
                    assert(twice[once.len() as int] == x);
                } else if q < p {
                    assert(twice[q] == x);
                } else {
                    assert(q != p);
                    assert(twice[q - 1] == x);
                }
            }
            if twice.contains(x) {
                let q = choose|q: int| 0 <= q < twice.len() && twice[q] == x;
                if q < once.len() {
                    if q < p {
                        assert(folded[q] == x);
                    } else {
                        assert(folded[q + 1] == x);
                    }
                } else {
                    assert(folded[p] == x);
                }
            }
        }
    } else {
        let once = folded.push(head);
        assert(once.contains(head)) by {
            assert(once[folded.len() as int] == head);
        }
        once.index_of_first_ensures(head);
        let p = once.index_of_first(head).unwrap();
        assert(p == folded.len()) by {
            if p < folded.len() {
                assert(folded[p] == head);
            }
        }
        assert(once.remove(p) =~= folded);
        assert(once.no_duplicates()) by {
            assert forall|a: int, b: int| 0 <= a < b < once.len() implies once[a] != once[b] by {
                if b == folded.len() {
                    assert(once[a] == folded[a]);
                }
            }
        }
    }
}

/// A fold never reaches an empty last line.
proof fn lemma_fold_ends_before_empty_last(ls: Seq<Seq<u8>>, h: int, e: int)
    requires
        ls.len() > 0,
        ls.last().len() == 0,
        is_fold(ls, h, e),
    ensures
        e <= ls.len() - 1,
{
    if e == ls.len() {
        let q = ls.len() - 1;
        assert(indent_cols(ls[q]) > indent_cols(ls[h]));
        assert(indent_cols(ls[q]) == 0);
        lemma_indent_cols_bound(ls[h], 0);
    }
}

proof fn lemma_snap_visible(ls: Seq<Seq<u8>>, folded: Seq<usize>, idx: int, k0: int)
    requires
        ls.len() > 0,
        ls.last().len() == 0,
        0 <= k0,
        forall|k: int|
            0 <= k < k0 && k < fold_ranges_spec(ls).len() && folded.contains(
                (#[trigger] fold_ranges_spec(ls)[k]).0 as usize,
            ) ==> !(fold_ranges_spec(ls)[k].0 < idx < fold_ranges_spec(ls)[k].1),
    ensures
        ({
            let rs = fold_ranges_spec(ls);
            let r = snap_from(rs, k0, folded, idx, ls.len() as int);
            forall|k: int|
                0 <= k < rs.len() && folded.contains((#[trigger] rs[k]).0 as usize) ==> !(rs[k].0 < r
                    < rs[k].1)
        }),
    decreases fold_ranges_spec(ls).len() - k0,
{
    let rs = fold_ranges_spec(ls);
    lemma_fold_ranges_shape(ls);
    if k0 < rs.len() {
        let (h, e) = rs[k0];
        if h < idx < e && folded.contains(h as usize) {
            lemma_fold_ends_before_empty_last(ls, h, e);
            assert(snap_from(rs, k0, folded, idx, ls.len() as int) == e);
            assert forall|k: int|
                0 <= k < rs.len() && folded.contains((#[trigger] rs[k]).0 as usize) implies !(rs[k].0
                < e < rs[k].1) by {
                let (h2, e2) = rs[k];
                if h2 < e && e < e2 {
                    assert(is_fold(ls, h2, e2));
                    assert(is_fold(ls, h, e));
                    if k < k0 {
                        assert(h2 < h);
                        assert(h2 < idx < e2);
                    } else if k == k0 {
                    } else {
                        assert(h < h2);
                        assert(indent_cols(ls[h2]) > indent_cols(ls[h]));
                        assert(indent_cols(ls[e]) > indent_cols(ls[h2]));
                    }
                }
            }
        } else {
            lemma_snap_visible(ls, folded, idx, k0 + 1);
        }
    }
}

/// A caret moved out of the folds is hidden by none of the folded ones,
/// in a buffer that ends in its empty line.
pub proof fn lemma_snap_leaves_caret_visible(ls: Seq<Seq<u8>>, folded: Seq<usize>, idx: int)
    requires
        ls.len() > 0,
        ls.last().len() == 0,
    ensures
        ({
            let rs = fold_ranges_spec(ls);
            let r = snap_from(rs, 0, folded, idx, ls.len() as int);
            forall|k: int|
                0 <= k < rs.len() && folded.contains((#[trigger] rs[k]).0 as usize) ==> !(rs[k].0 < r
                    < rs[k].1)
        }),
{
    lemma_snap_visible(ls, folded, idx, 0);
}

proof fn lemma_hash_run_nonneg(b: Seq<u8>, p: int)
    ensures
        hash_run(b, p) >= 0,
    decreases b.len() - p,
{
    if 0 <= p < b.len() && b[p] == 0x23 {
        lemma_hash_run_nonneg(b, p + 1);
    }
}

proof fn lemma_first_heading_push(u: Seq<PrefixUnit>, x: PrefixUnit)
    requires
        forall|k: int| 0 <= k < u.len() ==> !(#[trigger] u[k] is Heading),
    ensures
        first_heading(u.push(x)) == (match x {
            PrefixUnit::Heading { level, .. } => Some(level),
            _ => None,
        }),
    decreases u.len(),
{
    if u.len() > 0 {
        assert(u.push(x).drop_first() =~= u.drop_first().push(x));
        assert forall|k: int| 0 <= k < u.drop_first().len() implies !(#[trigger] u.drop_first()[k] is Heading) by {
            assert(u.drop_first()[k] == u[k + 1]);
        }
        lemma_first_heading_push(u.drop_first(), x);
        assert(u.push(x)[0] == u[0]);
        assert(!(u[0] is Heading));
    } else {
        assert(u.push(x).drop_first() =~= Seq::<PrefixUnit>::empty());
        assert(first_heading(Seq::<PrefixUnit>::empty()) is None);
        assert(u.push(x)[0] == x);
    }
}

proof fn lemma_first_heading_none(u: Seq<PrefixUnit>)
    requires
        forall|k: int| 0 <= k < u.len() ==> !(#[trigger] u[k] is Heading),
    ensures
        first_heading(u) is None,
    decreases u.len(),
{
    if u.len() > 0 {
        assert forall|k: int| 0 <= k < u.drop_first().len() implies !(#[trigger] u.drop_first()[k] is Heading) by {
            assert(u.drop_first()[k] == u[k + 1]);
        }
        lemma_first_heading_none(u.drop_first());
    }
}

/// A heading found in a line's prefix has a level from 1 to 6.
pub proof fn lemma_heading_level(b: Seq<u8>)
    ensures
        first_heading(prefix_units(b)) matches Some(l) ==> 1 <= l <= 6,
{
    if !is_hr_line(b) {
        let (u2, q) = marker_units(b);
        assert forall|k: int| 0 <= k < u2.len() implies !(#[trigger] u2[k] is Heading) by {}
        let il = crate::editor::markdown::blank_end(b, 0);
        let ic = crate::editor::markdown::cols(b, il);
        match heading_at_spec(b, q) {
            Some((lv, hl)) => {
                lemma_hash_run_nonneg(b, q + 1);
                assert(1 <= lv <= 6);
                if u2.len() > 0 || ic <= 3 {
                    let base = if u2.len() == 0 && il > 0 {
                        u2.push(PrefixUnit::Indent { cols: ic as u32, len: il as usize })
                    } else {
                        u2
                    };
                    assert forall|k: int| 0 <= k < base.len() implies !(#[trigger] base[k] is Heading) by {}
                    let h = PrefixUnit::Heading { level: lv as u32, len: hl as usize };
                    lemma_first_heading_push(base, h);
                    let u3 = base.push(h);
                    if u3.len() > 0 && il > 0 && !(u3[0] is Indent) {
                        let u4 = seq![PrefixUnit::Indent { cols: ic as u32, len: il as usize }] + u3;
                        assert(u4.drop_first() =~= u3);
                    }
                } else {
                    lemma_first_heading_none(u2);
                    if u2.len() > 0 && il > 0 && !(u2[0] is Indent) {
                        let u4 = seq![PrefixUnit::Indent { cols: ic as u32, len: il as usize }] + u2;
                        assert(u4.drop_first() =~= u2);
                    }
                }
            },
            None => {
                lemma_first_heading_none(u2);
                if u2.len() > 0 && il > 0 && !(u2[0] is Indent) {
                    let u4 = seq![PrefixUnit::Indent { cols: ic as u32, len: il as usize }] + u2;
                    assert(u4.drop_first() =~= u2);
                }
            },
        }
    }
}

/// The segments a text is drawn as: formatted, or as one plain segment.
pub open spec fn render_spec(t: Seq<u8>, format: bool) -> Seq<SegView> {
    if format {
        segments(t)
    } else {
        seq![(t, SegmentStyle::Plain)]
    }
}

/// `r` is a width the measuring function can give segment `seg` at font
/// size `size`.
pub open spec fn seg_measured<F: Fn(&str, i32, SegmentStyle) -> i32>(
    measure: F,
    seg: SegView,
    size: i32,
    r: i32,
) -> bool {
    exists|a: &str| sb(a) == seg.0 && #[trigger] call_ensures(measure, (a, size, seg.1), r)
}

/// The sum of a list of widths.
pub open spec fn sum_widths(rs: Seq<i32>) -> int
    decreases rs.len(),
{
    if rs.len() == 0 {
        0
    } else {
        sum_widths(rs.drop_last()) + rs.last()
    }
}

/// `w` is a width a run of segments can measure to: the sum of one measured
/// width per segment.
pub open spec fn segs_measured<F: Fn(&str, i32, SegmentStyle) -> i32>(
    measure: F,
    segs: Seq<SegView>,
    size: i32,
    w: int,
) -> bool {
    exists|rs: Seq<i32>|
        #[trigger] sum_widths(rs) == w && rs.len() == segs.len() && forall|i: int|
            0 <= i < segs.len() ==> seg_measured(measure, segs[i], size, #[trigger] rs[i])
}

/// The drawn width of a run of segments, one measuring call per segment.
fn segments_width<F: Fn(&str, i32, SegmentStyle) -> i32>(
    segs: &Vec<Segment>,
    size: i32,
    measure: &F,
) -> (w: i128)
    requires
        forall|a: &str, s: i32, st: SegmentStyle| call_requires(*measure, (a, s, st)),
    ensures
        segs_measured(*measure, seg_views(segs@), size, w as int),
        -0x8000_0000 * 0x1_0000_0000_0000_0000 <= w <= 0x8000_0000 * 0x1_0000_0000_0000_0000,
{
    let count = segs.len();
    let ghost mut rs: Seq<i32> = Seq::empty();
    let mut w: i128 = 0;
    let mut i: usize = 0;
    while i < segs.len()
        invariant
            i <= segs@.len(),
            count == segs@.len(),
            rs.len() == i,
            w == sum_widths(rs),
            -0x8000_0000 * i <= w <= 0x8000_0000 * i,
            forall|a: &str, s: i32, st: SegmentStyle| call_requires(*measure, (a, s, st)),
            forall|k: int| 0 <= k < i ==> seg_measured(*measure, seg_views(segs@)[k], size, #[trigger] rs[k]),
        decreases segs@.len() - i,
    {
        let seg = &segs[i];
        let t = seg.text.as_str();
        let r = measure(t, size, seg.style);
        proof {
            assert(seg_views(segs@)[i as int] == segs@[i as int]@);
            assert(sb(t) == seg_views(segs@)[i as int].0);
            assert(seg_measured(*measure, seg_views(segs@)[i as int], size, r));
            let old_rs = rs;
            rs = rs.push(r);
            assert(rs.drop_last() =~= old_rs);
        }
        w = w + r as i128;
        i = i + 1;
    }
    proof {
        assert(sum_widths(rs) == w as int);
    }
    w
}

/// Whether `c` is whitespace as `char::is_whitespace` counts it: the
/// characters with the Unicode `White_Space` property.
pub open spec fn char_ws(c: char) -> bool {
    let v = c as u32;
    ||| 0x09 <= v <= 0x0d
    ||| v == 0x20
    ||| v == 0x85
    ||| v == 0xa0
    ||| v == 0x1680
    ||| 0x2000 <= v <= 0x200a
    ||| v == 0x2028
    ||| v == 0x2029
    ||| v == 0x202f
    ||| v == 0x205f
    ||| v == 0x3000
}

/// Whether `c` is whitespace (see [`char_ws`]).
fn is_ws_char(c: char) -> (r: bool)
    ensures
        r == char_ws(c),
{
    let v = c as u32;
    (0x09 <= v && v <= 0x0d) || v == 0x20 || v == 0x85 || v == 0xa0 || v == 0x1680 || (0x2000 <= v
        && v <= 0x200a) || v == 0x2028 || v == 0x2029 || v == 0x202f || v == 0x205f || v == 0x3000
}

/// The last whitespace character among `cs[lo..hi]`.
pub open spec fn last_ws(cs: Seq<char>, lo: int, hi: int) -> Option<int>
    decreases hi - lo,
{
    if hi <= lo {
        None
    } else if char_ws(cs[hi - 1]) {
        Some(hi - 1)
    } else {
        last_ws(cs, lo, hi - 1)
    }
}

/// The first index from `i` on that holds no whitespace (or the end).
pub open spec fn skip_ws_chars(cs: Seq<char>, i: int) -> int
    decreases cs.len() - i,
{
    if 0 <= i < cs.len() && char_ws(cs[i]) {
        skip_ws_chars(cs, i + 1)
    } else {
        i
    }
}

proof fn lemma_last_ws(cs: Seq<char>, lo: int, hi: int)
    ensures
        last_ws(cs, lo, hi) matches Some(k) ==> lo <= k < hi,
    decreases hi - lo,
{
    if hi > lo && !char_ws(cs[hi - 1]) {
        lemma_last_ws(cs, lo, hi - 1);
    }
}

proof fn lemma_skip_ws_chars(cs: Seq<char>, i: int)
    requires
        0 <= i <= cs.len(),
    ensures
        i <= skip_ws_chars(cs, i) <= cs.len(),
    decreases cs.len() - i,
{
    if i < cs.len() && char_ws(cs[i]) {
        lemma_skip_ws_chars(cs, i + 1);
    }
}

/// Where a visual line starting at `st` whose text first overflows at
/// character `b` ends, and where the next one starts: a line that reaches
/// the end ends there; otherwise the cut falls at the last whitespace taken
/// (the next line starting past the whitespace that follows it), or, with
/// none, before the overflowing character (after it when it is the first).
#[verifier::opaque]
pub open spec fn cut_of(cs: Seq<char>, st: int, b: int) -> (int, int) {
    let n = cs.len() as int;
    if b >= n {
        (n, n)
    } else {
        match last_ws(cs, st, b + 1) {
            Some(sp) => (sp, skip_ws_chars(cs, sp + 1)),
            None => {
                let e = if b == st {
                    b + 1
                } else {
                    b
                };
                (e, e)
            },
        }
    }
}

/// `w` is a width the characters `cs[st..=k]` can measure to when drawn.
pub open spec fn run_width<F: Fn(&str, i32, SegmentStyle) -> i32>(
    measure: F,
    cs: Seq<char>,
    st: int,
    k: int,
    format: bool,
    size: i32,
    w: int,
) -> bool {
    segs_measured(measure, render_spec(utf8(cs.subrange(st, k + 1)), format), size, w)
}

/// The characters `cs[st..=k]`, drawn at indent `ci`, fit within `max`.
pub open spec fn run_fits<F: Fn(&str, i32, SegmentStyle) -> i32>(
    measure: F,
    cs: Seq<char>,
    st: int,
    k: int,
    format: bool,
    size: i32,
    ci: int,
    max: int,
) -> bool {
    exists|w: int| #[trigger] run_width(measure, cs, st, k, format, size, w) && ci + w <= max
}

/// The characters `cs[st..=k]`, drawn at indent `ci`, are wider than `max`.
pub open spec fn run_overflows<F: Fn(&str, i32, SegmentStyle) -> i32>(
    measure: F,
    cs: Seq<char>,
    st: int,
    k: int,
    format: bool,
    size: i32,
    ci: int,
    max: int,
) -> bool {
    exists|w: int| #[trigger] run_width(measure, cs, st, k, format, size, w) && ci + w > max
}

/// A visual line starting at `st` takes characters while the text so far
/// fits: every run up to before `b` fits, and the run through `b`, if
/// there is a character `b`, does not.
#[verifier::opaque]
pub open spec fn break_at<F: Fn(&str, i32, SegmentStyle) -> i32>(
    measure: F,
    cs: Seq<char>,
    st: int,
    b: int,
    format: bool,
    size: i32,
    ci: int,
    max: int,
) -> bool {
    &&& st <= b <= cs.len()
    &&& forall|k: int| st <= k < b ==> #[trigger] run_fits(measure, cs, st, k, format, size, ci, max)
    &&& b < cs.len() ==> run_overflows(measure, cs, st, b, format, size, ci, max)
}

/// The pixel indent of visual line `i` of a buffer line: continuations sit
/// at `base + hang`; the first sits at `base`, except a list item's, whose
/// marker draws its source indent.
pub open spec fn indent_for(i: int, kind: LineKind, base: i32, hang: i32) -> int {
    if i > 0 {
        base + hang
    } else if kind is List {
        0
    } else {
        base as int
    }
}

/// Visual line `i` of `r` is cut as greedy wrapping cuts it (see
/// [`break_at`] and [`cut_of`]), the next line starting where the cut
/// says, and a cut that leaves nothing ending the list.
pub open spec fn line_cut_ok<F: Fn(&str, i32, SegmentStyle) -> i32>(
    measure: F,
    r: Seq<VisualLine>,
    i: int,
    cs: Seq<char>,
    format: bool,
    size: i32,
    kind: LineKind,
    base: i32,
    hang: i32,
    max: i32,
) -> bool {
    let st = r[i].start as int;
    exists|b: int|
        #[trigger] break_at(measure, cs, st, b, format, size, indent_for(i, kind, base, hang), max as int)
            && r[i].end == cut_of(cs, st, b).0 && (cut_of(cs, st, b).1 < cs.len() ==> i + 1 < r.len()
            && r[i + 1].start == cut_of(cs, st, b).1) && (cut_of(cs, st, b).1 >= cs.len() ==> i
            == r.len() - 1)
}

/// Where wrapping starts: past the heading marker of a line that starts
/// with a heading, past the skipped indentation of formatted prose, else
/// at 0.
pub open spec fn wrap_start(b: Seq<u8>, format: bool, skip: int) -> int {
    match first_heading(prefix_units(b)) {
        Some(_) => if format && heading_info_spec(b) is Some {
            units_len(prefix_units(b))
        } else {
            0
        },
        None => if format && skip > 0 {
            skip
        } else {
            0
        },
    }
}

/// The font size a line is measured at: its heading level's size when it
/// is a formatted heading, else the body size.
pub open spec fn wrap_size(b: Seq<u8>, format: bool, body: i32, heading_sizes: Seq<i32>) -> i32 {
    match first_heading(prefix_units(b)) {
        Some(l) => if format {
            heading_sizes[l - 1]
        } else {
            body
        },
        None => body,
    }
}

/// The drawn width of `text`, formatted or raw.
fn text_width<F: Fn(&str, i32, SegmentStyle) -> i32>(
    text: &str,
    format: bool,
    size: i32,
    measure: &F,
) -> (w: i128)
    requires
        forall|a: &str, s: i32, st: SegmentStyle| call_requires(*measure, (a, s, st)),
    ensures
        segs_measured(*measure, render_spec(sb(text), format), size, w as int),
        -0x8000_0000 * 0x1_0000_0000_0000_0000 <= w <= 0x8000_0000 * 0x1_0000_0000_0000_0000,
{
    let segs = render_line(text, format);
    segments_width(&segs, size, measure)
}

/// Scans a visual line from `start`: characters are taken while the text
/// so far, drawn at indent `ci`, fits within `max_width`. Returns the first
/// character that overflows (or the end, see [`break_at`]) and the last
/// whitespace taken, that character included.
fn scan_run<F: Fn(&str, i32, SegmentStyle) -> i32>(
    chars: &Vec<char>,
    start: usize,
    ci: i32,
    max_width: i32,
    format: bool,
    size: i32,
    measure: &F,
) -> (r: (usize, Option<usize>))
    requires
        start < chars@.len(),
        forall|a: &str, s: i32, st: SegmentStyle| call_requires(*measure, (a, s, st)),
    ensures
        start <= r.0 <= chars@.len(),
        break_at(*measure, chars@, start as int, r.0 as int, format, size, ci as int, max_width as int),
        (match r.1 {
            Some(k) => Some(k as int),
            None => None,
        }) == last_ws(chars@, start as int, if r.0 < chars@.len() {
            r.0 + 1
        } else {
            r.0 as int
        }),
{
    let ghost cs = chars@;
    let n = chars.len();
    let mut end = start;
    let mut last_space: Option<usize> = None;
    let mut text = empty_string();
    loop
        invariant_except_break
            text@ == cs.subrange(start as int, end as int),
            (match last_space {
                Some(k) => Some(k as int),
                None => None,
            }) == last_ws(cs, start as int, end as int),
        invariant
            start <= end <= n,
            start < n,
            chars@ == cs,
            n == cs.len(),
            forall|a: &str, s: i32, st: SegmentStyle| call_requires(*measure, (a, s, st)),
            forall|k: int|
                start <= k < end ==> #[trigger] run_fits(
                    *measure,
                    cs,
                    start as int,
                    k,
                    format,
                    size,
                    ci as int,
                    max_width as int,
                ),
        ensures
            start <= end <= n,
            forall|k: int|
                start <= k < end ==> #[trigger] run_fits(
                    *measure,
                    cs,
                    start as int,
                    k,
                    format,
                    size,
                    ci as int,
                    max_width as int,
                ),
            end == n ==> (match last_space {
                Some(k) => Some(k as int),
                None => None,
            }) == last_ws(cs, start as int, end as int),
            end < n ==> (match last_space {
                Some(k) => Some(k as int),
                None => None,
            }) == last_ws(cs, start as int, end + 1) && run_overflows(
                *measure,
                cs,
                start as int,
                end as int,
                format,
                size,
                ci as int,
                max_width as int,
            ),
        decreases n - end,
    {
        if end >= n {
            break;
        }
        let c = chars[end];
        string_push(&mut text, c);
        if is_ws_char(c) {
            last_space = Some(end);
        }
        assert(text@ =~= cs.subrange(start as int, end + 1));
        let w = text_width(text.as_str(), format, size, measure);
        let width: i128 = ci as i128 + w;
        assert(run_width(*measure, cs, start as int, end as int, format, size, w as int));
        if width > max_width as i128 {
            break;
        }
        end = end + 1;
    }
    proof {
        reveal(break_at);
    }
    (end, last_space)
}

/// Where the visual line starting at `start` ends and the next one starts,
/// given the overflowing character `b` and the last whitespace taken (see
/// [`cut_of`]).
fn cut_exec(chars: &Vec<char>, start: usize, b: usize, last_space: Option<usize>) -> (r: (usize, usize))
    requires
        start <= b <= chars@.len(),
        start < chars@.len(),
        (match last_space {
            Some(k) => Some(k as int),
            None => None,
        }) == last_ws(chars@, start as int, if b < chars@.len() {
            b + 1
        } else {
            b as int
        }),
    ensures
        (r.0 as int, r.1 as int) == cut_of(chars@, start as int, b as int),
        start < r.1 <= chars@.len(),
        r.0 <= chars@.len(),
        b >= chars@.len() ==> r.1 == chars@.len(),
{
    proof {
        reveal(cut_of);
    }
    let n = chars.len();
    if b >= n {
        return (n, n);
    }
    proof {
        lemma_last_ws(chars@, start as int, b + 1);
    }
    match last_space {
        Some(space) => {
            let mut nx = space + 1;
            proof {
                lemma_skip_ws_chars(chars@, nx as int);
            }
            while nx < n && is_ws_char(chars[nx])
                invariant
                    space + 1 <= nx <= n,
                    n == chars@.len(),
                    skip_ws_chars(chars@, space + 1) == skip_ws_chars(chars@, nx as int),
                decreases n - nx,
            {
                nx = nx + 1;
            }
            (space, nx)
        },
        None => {
            let e = if b == start {
                b + 1
            } else {
                b
            };
            (e, e)
        },
    }
}

/// The facts gathered about visual line `i` make its cut check.
proof fn lemma_cut_ok_at<F: Fn(&str, i32, SegmentStyle) -> i32>(
    measure: F,
    r: Seq<VisualLine>,
    b: int,
    i: int,
    cs: Seq<char>,
    format: bool,
    size: i32,
    kind: LineKind,
    base: i32,
    hang: i32,
    max: i32,
)
    requires
        0 <= i < r.len(),
        break_at(
            measure,
            cs,
            r[i].start as int,
            b,
            format,
            size,
            indent_for(i, kind, base, hang),
            max as int,
        ),
        r[i].end == cut_of(cs, r[i].start as int, b).0,
        i + 1 < r.len() ==> cut_of(cs, r[i].start as int, b).1 == r[i + 1].start && r[i
            + 1].start < cs.len(),
        i + 1 == r.len() ==> cut_of(cs, r[i].start as int, b).1 >= cs.len(),
    ensures
        line_cut_ok(measure, r, i, cs, format, size, kind, base, hang, max),
{
}

/// Wraps buffer line `buf_index` into visual lines at most `max_width`
/// pixels wide, measuring through `measure` (text, font size, style).
/// `base_indent` shifts the whole line and `hang_indent` is added on every
/// line after the first (see [`indent_for`]); `format` measures the text
/// formatted rather than raw; `skip` is the prose indentation the first
/// visual line starts past. Lines are measured at `font_size`, or for a
/// formatted heading at `heading_sizes[level - 1]`, from where
/// [`wrap_start`] says. Positions count characters. An empty line is one
/// empty visual line.
#[verifier::spinoff_prover]
#[verifier::rlimit(60)]
pub fn wrap_line<F: Fn(&str, i32, SegmentStyle) -> i32>(
    line: &str,
    max_width: i32,
    buf_index: usize,
    base_indent: i32,
    hang_indent: i32,
    kind: LineKind,
    format: bool,
    skip: usize,
    font_size: i32,
    heading_sizes: &[i32],
    measure: F,
) -> (r: Vec<VisualLine>)
    requires
        sb(line).len() < 0x8000_0000,
        heading_sizes@.len() == 6,
        i32::MIN <= base_indent + hang_indent <= i32::MAX,
        forall|a: &str, s: i32, st: SegmentStyle| call_requires(measure, (a, s, st)),
    ensures
        forall|i: int| 0 <= i < r@.len() ==> (#[trigger] r@[i]).line == buf_index,
        line@.len() == 0 ==> r@ == seq![VisualLine { start: 0, end: 0, line: buf_index, indent: 0 }],
        line@.len() > 0 ==> {
            let s0 = wrap_start(sb(line), format, skip as int);
            let size = wrap_size(sb(line), format, font_size, heading_sizes@);
            &&& (r@.len() == 0 <==> s0 >= line@.len())
            &&& r@.len() > 0 ==> r@[0].start == s0
            &&& forall|i: int|
                0 <= i < r@.len() ==> (#[trigger] r@[i]).indent == indent_for(
                    i,
                    kind,
                    base_indent,
                    hang_indent,
                )
            &&& forall|i: int|
                0 <= i < r@.len() ==> #[trigger] line_cut_ok(
                    measure,
                    r@,
                    i,
                    line@,
                    format,
                    size,
                    kind,
                    base_indent,
                    hang_indent,
                    max_width,
                )
        },
{
    let mut out: Vec<VisualLine> = Vec::new();
    let prefix = parse_prefix(line);
    let mut start: usize = 0;
    let mut size = font_size;
    match prefix.heading_level() {
        Some(level) => {
            if format {
                if heading_info(line).is_some() {
                    start = prefix.content();
                }
                proof {
                    lemma_heading_level(sb(line));
                }
                size = heading_sizes[(level - 1) as usize];
            }
        },
        None => {
            if format && skip > 0 {
                start = skip;
            }
        },
    }
    let chars = chars_of(line);
    let n = chars.len();
    let ghost cs = line@;
    let ghost s0 = wrap_start(sb(line), format, skip as int);
    let ghost sz = wrap_size(sb(line), format, font_size, heading_sizes@);
    assert(start == s0);
    assert(size == sz);
    if n == 0 {
        out.push(VisualLine { start: 0, end: 0, line: buf_index, indent: 0 });
        return out;
    }
    let mut emitted = false;
    let ghost mut bs: Seq<int> = Seq::empty();
    loop
        invariant_except_break
            forall|i: int|
                0 <= i < out@.len() ==> cut_of(cs, (#[trigger] out@[i]).start as int, bs[i]).1 == (
                if i + 1 < out@.len() {
                    out@[i + 1].start as int
                } else {
                    start as int
                }),
        invariant
            chars@ == cs,
            cs == line@,
            n == cs.len(),
            n > 0,
            size == sz,
            i32::MIN <= base_indent + hang_indent <= i32::MAX,
            forall|a: &str, s: i32, st: SegmentStyle| call_requires(measure, (a, s, st)),
            emitted == (out@.len() > 0),
            out@.len() == bs.len(),
            out@.len() == 0 ==> start == s0,
            out@.len() > 0 ==> out@[0].start == s0,
            forall|i: int|
                0 <= i < out@.len() ==> {
                    &&& (#[trigger] out@[i]).line == buf_index
                    &&& out@[i].indent == indent_for(i, kind, base_indent, hang_indent)
                    &&& out@[i].start < n
                    &&& break_at(
                        measure,
                        cs,
                        out@[i].start as int,
                        bs[i],
                        format,
                        size,
                        indent_for(i, kind, base_indent, hang_indent),
                        max_width as int,
                    )
                    &&& out@[i].end == cut_of(cs, out@[i].start as int, bs[i]).0
                },
        ensures
            out@.len() == bs.len(),
            out@.len() == 0 <==> s0 >= n,
            out@.len() > 0 ==> out@[0].start == s0,
            forall|i: int|
                0 <= i < out@.len() ==> {
                    &&& (#[trigger] out@[i]).line == buf_index
                    &&& out@[i].indent == indent_for(i, kind, base_indent, hang_indent)
                    &&& break_at(
                        measure,
                        cs,
                        out@[i].start as int,
                        bs[i],
                        format,
                        size,
                        indent_for(i, kind, base_indent, hang_indent),
                        max_width as int,
                    )
                    &&& out@[i].end == cut_of(cs, out@[i].start as int, bs[i]).0
                    &&& (i + 1 < out@.len() ==> cut_of(cs, out@[i].start as int, bs[i]).1
                        == out@[i + 1].start && out@[i + 1].start < n)
                    &&& (i + 1 == out@.len() ==> cut_of(cs, out@[i].start as int, bs[i]).1 >= n)
                },
        decreases n - start,
    {
        if start >= n {
            break;
        }
        let cur_indent: i32 = if emitted {
            base_indent + hang_indent
        } else if matches!(kind, LineKind::List { .. }) {
            0
        } else {
            base_indent
        };
        assert(cur_indent == indent_for(out@.len() as int, kind, base_indent, hang_indent));
        let (b, last_space) = scan_run(&chars, start, cur_indent, max_width, format, size, &measure);
        let (end, next) = cut_exec(&chars, start, b, last_space);
        let ghost before = out@;
        let ghost old_bs = bs;
        out.push(VisualLine { start, end, line: buf_index, indent: cur_indent });
        proof {
            bs = bs.push(b as int);
            assert forall|i: int| 0 <= i < before.len() implies cut_of(
                cs,
                (#[trigger] out@[i]).start as int,
                bs[i],
            ).1 == out@[i + 1].start as int by {
                assert(out@[i] == before[i]);
                assert(bs[i] == old_bs[i]);
                if i + 1 < before.len() {
                    assert(out@[i + 1] == before[i + 1]);
                }
            }
        }
        emitted = true;
        if b == n {
            break;
        }
        start = next;
    }
    proof {
        assert forall|i: int| 0 <= i < out@.len() implies #[trigger] line_cut_ok(
            measure,
            out@,
            i,
            cs,
            format,
            sz,
            kind,
            base_indent,
            hang_indent,
            max_width,
        ) by {
            lemma_cut_ok_at(
                measure,
                out@,
                bs[i],
                i,
                cs,
                format,
                sz,
                kind,
                base_indent,
                hang_indent,
                max_width,
            );
        }
    }
    out
}

/// Whether `h` heads one of the folds `ranges`.
pub open spec fn heads_fold(ranges: Seq<(usize, usize)>, h: usize) -> bool {
    exists|k: int| 0 <= k < ranges.len() && (#[trigger] ranges[k]).0 == h
}

/// Whether `h` heads one of the folds.
fn heads_fold_exec(ranges: &[(usize, usize)], h: usize) -> (r: bool)
    ensures
        r == heads_fold(ranges@, h),
{
    let mut k: usize = 0;
    while k < ranges.len()
        invariant
            k <= ranges@.len(),
            forall|q: int| 0 <= q < k ==> (#[trigger] ranges@[q]).0 != h,
        decreases ranges@.len() - k,
    {
        if ranges[k].0 == h {
            assert(ranges@[k as int].0 == h);
            return true;
        }
        k = k + 1;
    }
    false
}

/// Drops the folded heads that no longer head a fold, keeping the others
/// in order: a stale toggle must not fold a block that is gone.
pub fn prune_folded(folded: &mut Vec<usize>, ranges: &[(usize, usize)])
    ensures
        final(folded)@ == old(folded)@.filter(|h: usize| heads_fold(ranges@, h)),
{
    let ghost f = folded@;
    let mut out: Vec<usize> = Vec::new();
    let mut k: usize = 0;
    while k < folded.len()
        invariant
            k <= folded@.len(),
            folded@ == f,
            out@ == f.take(k as int).filter(|h: usize| heads_fold(ranges@, h)),
        decreases folded@.len() - k,
    {
        let h = folded[k];
        let keep = heads_fold_exec(ranges, h);
        proof {
            assert(f.take(k + 1).drop_last() =~= f.take(k as int));
            reveal_with_fuel(Seq::<_>::filter, 1);
        }
        if keep {
            out.push(h);
        }
        k = k + 1;
    }
    assert(f.take(k as int) =~= f);
    *folded = out;
}

/// Whether a folded fold hides `line`: it lies strictly after the fold's
/// head and before its end.
pub open spec fn hidden_spec(ranges: Seq<(usize, usize)>, folded: Seq<usize>, line: int) -> bool {
    exists|k: int|
        0 <= k < ranges.len() && folded.contains((#[trigger] ranges[k]).0) && ranges[k].0 < line
            < ranges[k].1
}

/// Whether a folded fold hides `line` (see [`hidden_spec`]).
pub fn line_hidden(ranges: &[(usize, usize)], folded: &[usize], line: usize) -> (r: bool)
    ensures
        r == hidden_spec(ranges@, folded@, line as int),
{
    let mut k: usize = 0;
    while k < ranges.len()
        invariant
            k <= ranges@.len(),
            forall|q: int|
                0 <= q < k ==> !(folded@.contains((#[trigger] ranges@[q]).0) && ranges@[q].0 < line
                    < ranges@[q].1),
        decreases ranges@.len() - k,
    {
        let (head, end) = ranges[k];
        if head < line && line < end {
            let mut j: usize = 0;
            while j < folded.len()
                invariant
                    j <= folded@.len(),
                    k < ranges@.len(),
                    ranges@[k as int] == (head, end),
                    head < line < end,
                    forall|q: int| 0 <= q < j ==> folded@[q] != head,
                decreases folded@.len() - j,
            {
                if folded[j] == head {
                    assert(folded@[j as int] == head);
                    assert(folded@.contains(head) && ranges@[k as int].0 == head);
                    return true;
                }
                j = j + 1;
            }
        }
        k = k + 1;
    }
    false
}

/// What has to be measured to indent a wrapped line.
#[derive(Debug, Clone, Copy, PartialEq, Eq, Structural)]
pub enum IndentPlan {
    /// No indent.
    Flat,
    /// A list item at this depth: four spaces' width per level, with
    /// continuations hanging by two spaces' width more.
    List { depth: u32 },
    /// A quote: the width of the line's first `len` bytes (its rails).
    Quote { len: usize },
    /// Indented prose: the width of `cols` spaces; when that width is not
    /// zero the first visual line starts past the `bytes` of indentation.
    Spaces { cols: u64, bytes: usize },
}

/// How a buffer line wraps: measured formatted or raw, and the indent to
/// measure (see [`IndentPlan`]).
pub open spec fn wrap_plan_spec(b: Seq<u8>, kind: LineKind, editing: bool) -> (bool, IndentPlan) {
    let format = !editing && !(kind is FencedCode || kind is FenceDelimiter);
    let plan = if editing {
        IndentPlan::Flat
    } else {
        match kind {
            LineKind::List { depth } => IndentPlan::List { depth },
            LineKind::Blockquote => if has_quote_unit(prefix_units(b)) {
                IndentPlan::Quote { len: lead_quote_len(prefix_units(b)) as usize }
            } else {
                IndentPlan::Flat
            },
            LineKind::Paragraph | LineKind::Heading { .. } => if image_link_spec(b) is None
                && indent_bytes(b) > 0 {
                IndentPlan::Spaces { cols: indent_cols(b) as u64, bytes: indent_bytes(b) as usize }
            } else {
                IndentPlan::Flat
            },
            _ => IndentPlan::Flat,
        }
    };
    (format, plan)
}

/// Bytes of a line's leading indentation (spaces and tabs).
pub open spec fn indent_bytes(b: Seq<u8>) -> int {
    indent_bytes_from(b, 0)
}

/// Bytes of leading spaces and tabs from `i` on.
pub open spec fn indent_bytes_from(b: Seq<u8>, i: int) -> int
    decreases b.len() - i,
{
    if 0 <= i < b.len() && (b[i] == 0x20 || b[i] == 0x09) {
        1 + indent_bytes_from(b, i + 1)
    } else {
        0
    }
}

proof fn lemma_indent_bytes(b: Seq<u8>, i: int)
    requires
        0 <= i <= b.len(),
    ensures
        0 <= indent_bytes_from(b, i) <= b.len() - i,
        indent_bytes_from(b, i) == 0 <==> indent_cols_from(b, i) == 0,
    decreases b.len() - i,
{
    if i < b.len() && (b[i] == 0x20 || b[i] == 0x09) {
        lemma_indent_bytes(b, i + 1);
        lemma_indent_cols_bound(b, i + 1);
    }
}

/// How buffer line `line` wraps (see [`wrap_plan_spec`]): the caret's
/// line (`editing`) is measured raw and flat.
pub fn wrap_plan(line: &str, kind: LineKind, editing: bool) -> (r: (bool, IndentPlan))
    requires
        sb(line).len() < 0x8000_0000,
    ensures
        r == wrap_plan_spec(sb(line), kind, editing),
{
    let format = !editing && !matches!(kind, LineKind::FencedCode | LineKind::FenceDelimiter);
    if editing {
        return (format, IndentPlan::Flat);
    }
    let plan = match kind {
        LineKind::List { depth } => IndentPlan::List { depth },
        LineKind::Blockquote => match blockquote_marker_len(line) {
            Some(len) => IndentPlan::Quote { len },
            None => IndentPlan::Flat,
        },
        LineKind::Paragraph | LineKind::Heading { .. } => {
            if image_link_target(line).is_none() {
                let b = line.as_bytes();
                let mut k: usize = 0;
                while k < b.len() && (b[k] == 0x20 || b[k] == 0x09)
                    invariant
                        k <= b@.len(),
                        indent_bytes(b@) == k + indent_bytes_from(b@, k as int),
                    decreases b@.len() - k,
                {
                    k = k + 1;
                }
                proof {
                    lemma_indent_bytes(b@, 0);
                }
                if k > 0 {
                    let cols = indent_cols_exec(line);
                    IndentPlan::Spaces { cols, bytes: k }
                } else {
                    IndentPlan::Flat
                }
            } else {
                IndentPlan::Flat
            }
        },
        _ => IndentPlan::Flat,
    };
    (format, plan)
}


/// `r` is how [`wrap_line`] wraps a line with characters `cs` (what its
/// `ensures` says).
pub open spec fn wraps_as<F: Fn(&str, i32, SegmentStyle) -> i32>(
    measure: F,
    r: Seq<VisualLine>,
    cs: Seq<char>,
    buf_index: usize,
    max_width: i32,
    base: i32,
    hang: i32,
    kind: LineKind,
    format: bool,
    skip: usize,
    font_size: i32,
    heading_sizes: Seq<i32>,
) -> bool {
    &&& forall|i: int| 0 <= i < r.len() ==> (#[trigger] r[i]).line == buf_index
    &&& cs.len() == 0 ==> r == seq![VisualLine { start: 0, end: 0, line: buf_index, indent: 0 }]
    &&& cs.len() > 0 ==> {
        let s0 = wrap_start(utf8(cs), format, skip as int);
        let size = wrap_size(utf8(cs), format, font_size, heading_sizes);
        &&& (r.len() == 0 <==> s0 >= cs.len())
        &&& r.len() > 0 ==> r[0].start == s0
        &&& forall|i: int|
            0 <= i < r.len() ==> (#[trigger] r[i]).indent == indent_for(i, kind, base, hang)
        &&& forall|i: int|
            0 <= i < r.len() ==> #[trigger] line_cut_ok(
                measure,
                r,
                i,
                cs,
                format,
                size,
                kind,
                base,
                hang,
                max_width,
            )
    }
}

/// The indentation bytes the first visual line starts past: those of
/// indented prose, once its indent measured wider than nothing.
pub open spec fn plan_skip(plan: IndentPlan, base: i32) -> usize {
    match plan {
        IndentPlan::Spaces { bytes, .. } => if base > 0 {
            bytes
        } else {
            0
        },
        _ => 0,
    }
}

/// The fold ranges of a buffer as index pairs.
pub open spec fn fold_pairs(buf: Seq<String>) -> Seq<(usize, usize)> {
    fold_ranges_spec(line_views(buf)).map_values(|p: (int, int)| (p.0 as usize, p.1 as usize))
}

/// Buffer line `l` laid out as the visual lines `part`: its kind and wrap
/// plan (see [`kind_at`] and [`wrap_plan_spec`]), the indent the plan
/// measured to (none for a flat plan, else what `indent_of` gave), and the
/// line wrapped with them (see [`wraps_as`]).
pub open spec fn laid_out<F: Fn(&str, i32, SegmentStyle) -> i32, G: Fn(&String, IndentPlan) -> (
    i32,
    i32,
)>(
    measure: F,
    indent_of: G,
    buffer: Seq<String>,
    l: int,
    part: Seq<VisualLine>,
    editing: bool,
    max_width: i32,
    font_size: i32,
    heading_sizes: Seq<i32>,
) -> bool {
    let cs = buffer[l]@;
    let kind = kind_at(buffer, l);
    let fp = wrap_plan_spec(utf8(cs), kind, editing);
    exists|w: (i32, i32)|
        {
            &&& (if fp.1 is Flat {
                w == (0i32, 0i32)
            } else {
                call_ensures(indent_of, (&buffer[l], fp.1), w)
            })
            &&& #[trigger] wraps_as(
                measure,
                part,
                cs,
                l as usize,
                max_width,
                w.0,
                w.1,
                kind,
                fp.0,
                plan_skip(fp.1, w.0),
                font_size,
                heading_sizes,
            )
        }
}

/// Lays the whole buffer out as visual lines. First the folded heads that
/// no longer head a fold are dropped from `folded`; then every line that no
/// folded fold hides is wrapped, in order (see [`laid_out`]): the line the
/// caret is on is measured as editable source unless a mouse selection is
/// being dragged. `indent_of` measures the indent a line's plan asks for.
pub fn generate_visual_lines<F: Fn(&str, i32, SegmentStyle) -> i32, G: Fn(&String, IndentPlan) -> (
    i32,
    i32,
)>(
    buffer: &[String],
    folded: &mut Vec<usize>,
    cursor_y: i32,
    dragging: bool,
    max_width: i32,
    font_size: i32,
    heading_sizes: &[i32],
    indent_of: G,
    measure: &F,
) -> (r: Vec<VisualLine>)
    requires
        lines_ok(buffer@),
        heading_sizes@.len() == 6,
        forall|a: &str, s: i32, st: SegmentStyle| call_requires(measure, (a, s, st)),
        forall|a: &String, p: IndentPlan| call_requires(indent_of, (a, p)),
        forall|a: &String, p: IndentPlan, w: (i32, i32)|
            call_ensures(indent_of, (a, p), w) ==> i32::MIN <= w.0 + w.1 <= i32::MAX,
    ensures
        final(folded)@ == old(folded)@.filter(|h: usize| heads_fold(fold_pairs(buffer@), h)),
        exists|parts: Seq<Seq<VisualLine>>|
            {
                &&& parts.len() == buffer@.len()
                &&& r@ == parts.flatten()
                &&& forall|l: int|
                    0 <= l < parts.len() ==> (if hidden_spec(fold_pairs(buffer@), final(folded)@, l) {
                        (#[trigger] parts[l]).len() == 0
                    } else {
                        laid_out(
                            measure,
                            indent_of,
                            buffer@,
                            l,
                            parts[l],
                            cursor_y == l && !dragging,
                            max_width,
                            font_size,
                            heading_sizes@,
                        )
                    })
            },
{
    let kinds = classify(buffer);
    assert forall|k: int| 0 <= k < buffer@.len() implies utf8(#[trigger] buffer@[k]@).len()
        < 0x8000_0000 by {
        assert(lb(buffer@[k]).len() < 0x8000_0000);
    }
    let ranges = fold_ranges(buffer);
    assert(ranges@ =~= fold_pairs(buffer@));
    prune_folded(folded, &ranges);
    let mut out: Vec<VisualLine> = Vec::new();
    let ghost mut parts: Seq<Seq<VisualLine>> = Seq::empty();
    let n = buffer.len();
    let mut i: usize = 0;
    while i < n
        invariant
            n == buffer@.len(),
            i <= n,
            lines_ok(buffer@),
            heading_sizes@.len() == 6,
            forall|a: &str, s: i32, st: SegmentStyle| call_requires(measure, (a, s, st)),
            forall|a: &String, p: IndentPlan| call_requires(indent_of, (a, p)),
            forall|a: &String, p: IndentPlan, w: (i32, i32)|
                call_ensures(indent_of, (a, p), w) ==> i32::MIN <= w.0 + w.1 <= i32::MAX,
            kinds@.len() == n,
            forall|l: int| 0 <= l < n ==> #[trigger] kinds@[l] == kind_at(buffer@, l),
            ranges@ == fold_pairs(buffer@),
            parts.len() == i,
            out@ == parts.flatten(),
            forall|l: int|
                0 <= l < i ==> (if hidden_spec(fold_pairs(buffer@), folded@, l) {
                    (#[trigger] parts[l]).len() == 0
                } else {
                    laid_out(
                        measure,
                        indent_of,
                        buffer@,
                        l,
                        parts[l],
                        cursor_y == l && !dragging,
                        max_width,
                        font_size,
                        heading_sizes@,
                    )
                }),
        decreases n - i,
    {
        if line_hidden(&ranges, folded, i) {
            proof {
                parts.lemma_flatten_push(Seq::empty());
                assert(out@ =~= parts.push(Seq::empty()).flatten());
                parts = parts.push(Seq::empty());
            }
        } else {
            let line = buffer[i].as_str();
            let editing = cursor_y >= 0 && cursor_y as usize == i && !dragging;
            let kind = kinds[i];
            assert(lb(buffer@[i as int]).len() < 0x8000_0000);
            let (format, plan) = wrap_plan(line, kind, editing);
            let w = match plan {
                IndentPlan::Flat => (0i32, 0i32),
                _ => indent_of(&buffer[i], plan),
            };
            let skip: usize = match plan {
                IndentPlan::Spaces { bytes, .. } => if w.0 > 0 {
                    bytes
                } else {
                    0
                },
                _ => 0,
            };
            let mut v = wrap_line(
                line,
                max_width,
                i,
                w.0,
                w.1,
                kind,
                format,
                skip,
                font_size,
                heading_sizes,
                measure,
            );
            proof {
                let ghost fp = wrap_plan_spec(
                    utf8(buffer@[i as int]@),
                    kind_at(buffer@, i as int),
                    cursor_y == i && !dragging,
                );
                assert(wraps_as(
                    measure,
                    v@,
                    buffer@[i as int]@,
                    (i as int) as usize,
                    max_width,
                    w.0,
                    w.1,
                    kind_at(buffer@, i as int),
                    fp.0,
                    plan_skip(fp.1, w.0),
                    font_size,
                    heading_sizes@,
                ));
                assert(laid_out(
                    measure,
                    indent_of,
                    buffer@,
                    i as int,
                    v@,
                    cursor_y == i && !dragging,
                    max_width,
                    font_size,
                    heading_sizes@,
                ));
                parts.lemma_flatten_push(v@);
            }
            let ghost vv = v@;
            out.append(&mut v);
            proof {
                parts = parts.push(vv);
            }
        }
        i = i + 1;
    }
    out
}

} // verus!
