//! The editor's keyboard handling as edits of the line buffer: caret
//! movement by characters, words and visual lines, typing, deleting,
//! splitting and joining lines, indenting, the clipboard, and the
//! slash-command cleanup.

use crate::editor::buffer::{deleted_spec, VisualLine};
use crate::editor::history::EditKind;
use crate::editor::command::{ascii_space, command_detect_spec, detect, token_start};
use crate::frontmatter::{join_lines, line_views};
use crate::strings::{
    empty_string, lead_width, lemma_ascii_boundary, lemma_ends_boundary, lemma_next_boundary,
    lemma_pieces_bounds, lemma_split_join, lemma_utf8_concat, no_nl, push_ascii, push_str, sb,
    split_newlines, split_nl, str_slice, string_push, to_string, trim, trim_bytes, utf8, views_of,
};
use vstd::prelude::*;
use vstd::utf8::*;

verus! {

broadcast use vstd::utf8::group_utf8_lib;

/// Position reached from `i` by stepping left over bytes whose
/// whitespace-ness is `ws`.
pub open spec fn back_while(b: Seq<u8>, i: int, ws: bool) -> int
    decreases i,
{
    if 0 < i <= b.len() && ascii_space(b[i - 1]) == ws {
        back_while(b, i - 1, ws)
    } else {
        i
    }
}

/// Position reached from `i` by stepping right over bytes whose
/// whitespace-ness is `ws`.
pub open spec fn fwd_while(b: Seq<u8>, i: int, ws: bool) -> int
    decreases b.len() - i,
{
    if 0 <= i < b.len() && ascii_space(b[i]) == ws {
        fwd_while(b, i + 1, ws)
    } else {
        i
    }
}

/// The caret clamped to the line.
pub open spec fn clamp_caret(b: Seq<u8>, x: int) -> int {
    if x < b.len() {
        x
    } else {
        b.len() as int
    }
}

/// Start of the word before the caret: back over whitespace, then over the
/// word.
pub open spec fn prev_word_spec(b: Seq<u8>, x: int) -> int {
    back_while(b, back_while(b, clamp_caret(b, x), true), false)
}

/// End of the word at or after the caret: over whitespace, then the word.
pub open spec fn next_word_end_spec(b: Seq<u8>, x: int) -> int {
    fwd_while(b, fwd_while(b, clamp_caret(b, x), true), false)
}

/// Start of the next word: over the rest of this word, then whitespace.
pub open spec fn next_word_boundary_spec(b: Seq<u8>, x: int) -> int {
    fwd_while(b, fwd_while(b, clamp_caret(b, x), false), true)
}

pub proof fn lemma_back_while(b: Seq<u8>, i: int, ws: bool)
    requires
        0 <= i <= b.len(),
    ensures
        0 <= back_while(b, i, ws) <= i,
        back_while(b, i, ws) > 0 ==> ascii_space(b[back_while(b, i, ws) - 1]) != ws,
    decreases i,
{
    if 0 < i && ascii_space(b[i - 1]) == ws {
        lemma_back_while(b, i - 1, ws);
    }
}

pub proof fn lemma_token_start(b: Seq<u8>, j: int)
    requires
        0 <= j <= b.len(),
    ensures
        0 <= token_start(b, j) <= j,
    decreases j,
{
    if j > 0 && !ascii_space(b[j - 1]) {
        lemma_token_start(b, j - 1);
    }
}

pub proof fn lemma_fwd_while(b: Seq<u8>, i: int, ws: bool)
    requires
        0 <= i <= b.len(),
    ensures
        i <= fwd_while(b, i, ws) <= b.len(),
        fwd_while(b, i, ws) < b.len() ==> ascii_space(b[fwd_while(b, i, ws)]) != ws,
        fwd_while(b, i, ws) > i ==> ascii_space(b[fwd_while(b, i, ws) - 1]) == ws,
    decreases b.len() - i,
{
    if i < b.len() && ascii_space(b[i]) == ws {
        lemma_fwd_while(b, i + 1, ws);
    }
}

fn is_space(x: u8) -> (r: bool)
    ensures
        r == ascii_space(x),
{
    x == 0x20 || x == 0x09 || x == 0x0a || x == 0x0c || x == 0x0d
}

fn back_while_exec(b: &[u8], i: usize, ws: bool) -> (r: usize)
    requires
        i <= b@.len(),
    ensures
        r == back_while(b@, i as int, ws),
        r <= i,
{
    proof {
        lemma_back_while(b@, i as int, ws);
    }
    let mut k = i;
    while k > 0 && is_space(b[k - 1]) == ws
        invariant
            k <= i <= b@.len(),
            back_while(b@, i as int, ws) == back_while(b@, k as int, ws),
        decreases k,
    {
        k = k - 1;
    }
    k
}

fn fwd_while_exec(b: &[u8], i: usize, ws: bool) -> (r: usize)
    requires
        i <= b@.len(),
    ensures
        r == fwd_while(b@, i as int, ws),
        i <= r <= b@.len(),
{
    proof {
        lemma_fwd_while(b@, i as int, ws);
    }
    let mut k = i;
    while k < b.len() && is_space(b[k]) == ws
        invariant
            i <= k <= b@.len(),
            fwd_while(b@, i as int, ws) == fwd_while(b@, k as int, ws),
        decreases b@.len() - k,
    {
        k = k + 1;
    }
    k
}

/// A word boundary found by these moves lies on a character boundary: next
/// to an ASCII whitespace byte, or at an end of the line.
pub proof fn lemma_word_stop_is_boundary(b: Seq<u8>, r: int)
    requires
        valid_utf8(b),
        0 <= r <= b.len(),
        r == 0 || r == b.len() || ascii_space(b[r - 1]) || ascii_space(b[r]),
    ensures
        is_char_boundary(b, r),
{
    lemma_ends_boundary(b);
    if 0 < r < b.len() {
        if ascii_space(b[r - 1]) {
            lemma_ascii_boundary(b, r - 1);
        } else {
            lemma_ascii_boundary(b, r);
        }
    }
}

/// Start of the word before the caret `x` (Ctrl+Left).
pub fn prev_word_boundary(line: &str, x: usize) -> (r: usize)
    ensures
        r == prev_word_spec(sb(line), x as int),
        r <= clamp_caret(sb(line), x as int),
        is_char_boundary(sb(line), r as int),
{
    let b = line.as_bytes();
    let i = if x < b.len() {
        x
    } else {
        b.len()
    };
    let j = back_while_exec(b, i, true);
    let r = back_while_exec(b, j, false);
    proof {
        lemma_back_while(b@, i as int, true);
        lemma_back_while(b@, j as int, false);
        lemma_word_stop_is_boundary(b@, r as int);
    }
    r
}

/// Start of the word before the caret `x` (word-wise delete backwards).
pub fn prev_word_start(line: &str, x: usize) -> (r: usize)
    ensures
        r == prev_word_spec(sb(line), x as int),
        r <= clamp_caret(sb(line), x as int),
        is_char_boundary(sb(line), r as int),
{
    prev_word_boundary(line, x)
}

/// End of the word at or after the caret `x` (word-wise delete forwards).
pub fn next_word_end(line: &str, x: usize) -> (r: usize)
    ensures
        r == next_word_end_spec(sb(line), x as int),
        clamp_caret(sb(line), x as int) <= r <= sb(line).len(),
        is_char_boundary(sb(line), r as int),
{
    let b = line.as_bytes();
    let i = if x < b.len() {
        x
    } else {
        b.len()
    };
    let j = fwd_while_exec(b, i, true);
    let r = fwd_while_exec(b, j, false);
    proof {
        lemma_fwd_while(b@, i as int, true);
        lemma_fwd_while(b@, j as int, false);
        lemma_word_stop_is_boundary(b@, r as int);
    }
    r
}

/// Start of the next word after the caret `x` (Ctrl+Right).
pub fn next_word_boundary(line: &str, x: usize) -> (r: usize)
    ensures
        r == next_word_boundary_spec(sb(line), x as int),
        clamp_caret(sb(line), x as int) <= r <= sb(line).len(),
        is_char_boundary(sb(line), r as int),
{
    let b = line.as_bytes();
    let i = if x < b.len() {
        x
    } else {
        b.len()
    };
    let j = fwd_while_exec(b, i, false);
    let r = fwd_while_exec(b, j, true);
    proof {
        lemma_fwd_while(b@, i as int, false);
        lemma_fwd_while(b@, j as int, true);
        lemma_word_stop_is_boundary(b@, r as int);
    }
    r
}

/// Line `y` with the `/command` text (from its word-initial slash up to the
/// caret) cut out, and the new caret column; the line and caret unchanged
/// when the caret is in no command region.
pub open spec fn without_command(b: Seq<u8>, x: int) -> (Seq<u8>, int) {
    match command_detect_spec(b, x) {
        Some(f) => {
            let s = x - f.len() - 1;
            (b.subrange(0, s) + b.subrange(x, b.len() as int), s)
        },
        None => (b, x),
    }
}

/// Removes the `/command` text on line `y` before the caret `x` and
/// returns the new caret column (see [`without_command`]).
pub fn remove_command_text(buffer: &mut Vec<String>, y: usize, x: usize) -> (r: i32)
    requires
        y < old(buffer)@.len(),
        x <= utf8(old(buffer)@[y as int]@).len(),
        is_char_boundary(utf8(old(buffer)@[y as int]@), x as int),
        x <= i32::MAX,
    ensures
        ({
            let (nb, nx) = without_command(utf8(old(buffer)@[y as int]@), x as int);
            &&& final(buffer)@.len() == old(buffer)@.len()
            &&& utf8(final(buffer)@[y as int]@) == nb
            &&& forall|k: int|
                0 <= k < old(buffer)@.len() && k != y ==> final(buffer)@[k] == old(buffer)@[k]
            &&& r == nx
        }),
{
    let ghost b = utf8(buffer@[y as int]@);
    let found = detect(buffer[y].as_str(), x);
    match found {
        Some(f) => {
            proof {
                lemma_token_start(b, x as int);
            }
            let span = f.as_str().as_bytes().len() + 1;
            let line = buffer[y].as_str();
            proof {
                let bb = sb(line);
                assert(bb == b);
                lemma_token_start(bb, x as int);
                lemma_ends_boundary(bb);
                lemma_ascii_boundary(bb, token_start(bb, x as int));
            }
            let mut out = empty_string();
            push_str(&mut out, str_slice(line, 0, x - span));
            push_str(&mut out, str_slice(line, x, line.as_bytes().len()));
            buffer.set(y, out);
            (x - span) as i32
        },
        None => x as i32,
    }
}

/// The pieces of the selection from `(sy, sx)` to `(ey, ex)`: on one line
/// the bytes between the columns; across lines, the first line from `sx`,
/// the lines in between, and the last line up to `ex`.
pub open spec fn selected_parts(ls: Seq<Seq<u8>>, sy: int, sx: int, ey: int, ex: int) -> Seq<
    Seq<u8>,
> {
    if sy == ey {
        seq![ls[sy].subrange(sx, ex)]
    } else {
        seq![ls[sy].subrange(sx, ls[sy].len() as int)] + ls.subrange(sy + 1, ey) + seq![
            ls[ey].subrange(0, ex),
        ]
    }
}

/// The text of the selection: its pieces joined by line feeds.
pub open spec fn selected_spec(ls: Seq<Seq<u8>>, sy: int, sx: int, ey: int, ex: int) -> Seq<u8> {
    join_lines(selected_parts(ls, sy, sx, ey, ex))
}

/// Joining one more piece adds a line feed and the piece.
pub proof fn lemma_join_take_step(ps: Seq<Seq<u8>>, k: int)
    requires
        1 <= k < ps.len(),
    ensures
        join_lines(ps.take(k + 1)) == join_lines(ps.take(k)).push(0x0a) + ps[k],
{
    let t = ps.take(k + 1);
    assert(t.drop_last() =~= ps.take(k));
    assert(t.last() == ps[k]);
}

/// The text of the selection from `(sy, sx)` to `(ey, ex)`, copied or cut
/// to the clipboard (see [`selected_spec`]).
pub fn selection_text(buffer: &[String], sy: usize, sx: usize, ey: usize, ex: usize) -> (r: String)
    requires
        sy <= ey < buffer@.len(),
        sx <= utf8(buffer@[sy as int]@).len(),
        ex <= utf8(buffer@[ey as int]@).len(),
        is_char_boundary(utf8(buffer@[sy as int]@), sx as int),
        is_char_boundary(utf8(buffer@[ey as int]@), ex as int),
        sy == ey ==> sx <= ex,
    ensures
        utf8(r@) == selected_spec(line_views(buffer@), sy as int, sx as int, ey as int, ex as int),
{
    let ghost ls = line_views(buffer@);
    let ghost parts = selected_parts(ls, sy as int, sx as int, ey as int, ex as int);
    let first = buffer[sy].as_str();
    proof {
        lemma_ends_boundary(sb(first));
    }
    if sy == ey {
        let r = to_string(str_slice(first, sx, ex));
        return r;
    }
    let mut s = to_string(str_slice(first, sx, first.as_bytes().len()));
    proof {
        assert(parts.take(1) =~= seq![parts[0]]);
    }
    let mut i = sy + 1;
    while i < ey
        invariant
            sy + 1 <= i <= ey < buffer@.len(),
            ls == line_views(buffer@),
            parts == selected_parts(ls, sy as int, sx as int, ey as int, ex as int),
            sy < ey,
            utf8(s@) == join_lines(parts.take(i - sy)),
        decreases ey - i,
    {
        let ghost before = utf8(s@);
        push_ascii(&mut s, 0x0a);
        push_str(&mut s, buffer[i].as_str());
        proof {
            assert(parts[i - sy] == ls[i as int]);
            lemma_join_take_step(parts, i - sy);
        }
        i = i + 1;
    }
    push_ascii(&mut s, 0x0a);
    let last = buffer[ey].as_str();
    proof {
        lemma_ends_boundary(sb(last));
    }
    push_str(&mut s, str_slice(last, 0, ex));
    proof {
        lemma_join_take_step(parts, ey - sy);
        assert(parts.take(ey - sy + 1) =~= parts);
    }
    s
}

/// The lines after pasting the pieces `p` of a text at `(y, x)`: one piece
/// goes into the line; several split it, the first piece ending its head,
/// the middle ones as lines of their own, and the last one starting its
/// tail.
pub open spec fn pasted_spec(ls: Seq<Seq<u8>>, y: int, x: int, p: Seq<Seq<u8>>) -> Seq<Seq<u8>> {
    let line = ls[y];
    let head = line.subrange(0, x);
    let tail = line.subrange(x, line.len() as int);
    let k = p.len() as int;
    let mid = if k == 1 {
        seq![head + p[0] + tail]
    } else {
        seq![head + p[0]] + p.subrange(1, k - 1) + seq![p[k - 1] + tail]
    };
    ls.take(y) + mid + ls.skip(y + 1)
}

/// The caret `(x, y)` after pasting the pieces `p` at `(y, x)`: just after
/// the pasted text.
pub open spec fn pasted_caret(y: int, x: int, p: Seq<Seq<u8>>) -> (int, int) {
    if p.len() == 1 {
        (x + p[0].len(), y)
    } else {
        (p.last().len() as int, y + p.len() - 1)
    }
}

/// Pastes the clipboard text `clip` at `(y, x)`, split at its line feeds,
/// and returns the caret `(x, y)` after it (see [`pasted_spec`]).
pub fn paste_text(buffer: &mut Vec<String>, y: usize, x: usize, clip: &str) -> (r: (i32, i32))
    requires
        y < old(buffer)@.len(),
        x <= utf8(old(buffer)@[y as int]@).len(),
        is_char_boundary(utf8(old(buffer)@[y as int]@), x as int),
        x + sb(clip).len() <= i32::MAX,
        y + sb(clip).len() <= i32::MAX,
    ensures
        line_views(final(buffer)@) == pasted_spec(
            line_views(old(buffer)@),
            y as int,
            x as int,
            split_nl(sb(clip)),
        ),
        (r.0 as int, r.1 as int) == pasted_caret(y as int, x as int, split_nl(sb(clip))),
{
    let ghost ls = line_views(buffer@);
    let pieces = split_newlines(clip);
    let ghost p = views_of(pieces@);
    proof {
        lemma_pieces_bounds(sb(clip), 0);
    }
    let k = pieces.len();
    let line = buffer[y].as_str();
    proof {
        lemma_ends_boundary(sb(line));
    }
    let n = line.as_bytes().len();
    let head = str_slice(line, 0, x);
    let tail = str_slice(line, x, n);
    assert(sb(pieces[0]) == p[0]);
    if k == 1 {
        let mut s = to_string(head);
        push_str(&mut s, pieces[0]);
        push_str(&mut s, tail);
        let w = pieces[0].as_bytes().len();
        buffer.set(y, s);
        proof {
            assert(line_views(buffer@) =~= pasted_spec(ls, y as int, x as int, p));
        }
        return ((x + w) as i32, y as i32);
    }
    let mut first = to_string(head);
    push_str(&mut first, pieces[0]);
    assert(sb(pieces[k - 1]) == p[k - 1]);
    let mut last = to_string(pieces[k - 1]);
    push_str(&mut last, tail);
    let w = pieces[k - 1].as_bytes().len();
    let ghost fv = utf8(first@);
    let ghost lv = utf8(last@);
    buffer.set(y, first);
    proof {
        assert(p.subrange(1, 1) =~= Seq::<Seq<u8>>::empty());
        assert(line_views(buffer@) =~= ls.take(y as int) + seq![fv] + p.subrange(1, 1) + ls.skip(
            y + 1,
        ));
    }
    let mut i: usize = 1;
    while i < k - 1
        invariant
            1 <= i <= k - 1,
            k == p.len(),
            k >= 2,
            y < ls.len(),
            p == views_of(pieces@),
            pieces@.len() == k,
            buffer@.len() == ls.len() + i - 1,
            line_views(buffer@) == ls.take(y as int) + seq![fv] + p.subrange(1, i as int) + ls.skip(
                y + 1,
            ),
            k <= sb(clip).len() + 1,
            y + sb(clip).len() <= i32::MAX,
        decreases k - 1 - i,
    {
        let ghost before = line_views(buffer@);
        assert(sb(pieces[i as int]) == p[i as int]);
        let piece = to_string(pieces[i]);
        buffer.insert(y + i, piece);
        proof {
            assert(line_views(buffer@) =~= before.insert(y + i, p[i as int]));
            assert(line_views(buffer@) =~= ls.take(y as int) + seq![fv] + p.subrange(
                1,
                i + 1,
            ) + ls.skip(y + 1));
        }
        i = i + 1;
    }
    let ghost before = line_views(buffer@);
    buffer.insert(y + k - 1, last);
    proof {
        assert(line_views(buffer@) =~= before.insert(y + k - 1, lv));
        assert(line_views(buffer@) =~= pasted_spec(ls, y as int, x as int, p));
    }
    (w as i32, (y + k - 1) as i32)
}

/// Cutting a selection and pasting the cut text where the selection began
/// gives the lines back as they were, with the caret where the selection
/// ended.
pub proof fn lemma_cut_then_paste(ls: Seq<Seq<u8>>, sy: int, sx: int, ey: int, ex: int)
    requires
        0 <= sy <= ey < ls.len(),
        0 <= sx <= ls[sy].len(),
        0 <= ex <= ls[ey].len(),
        sy == ey ==> sx <= ex,
        forall|i: int| 0 <= i < ls.len() ==> no_nl(#[trigger] ls[i]),
    ensures
        pasted_spec(
            deleted_spec(ls, sy, sx, ey, ex),
            sy,
            sx,
            split_nl(selected_spec(ls, sy, sx, ey, ex)),
        ) == ls,
        pasted_caret(sy, sx, split_nl(selected_spec(ls, sy, sx, ey, ex))) == (ex, ey),
{
    let parts = selected_parts(ls, sy, sx, ey, ex);
    assert(no_nl(ls[sy]));
    assert(no_nl(ls[ey]));
    assert forall|i: int| 0 <= i < parts.len() implies no_nl(#[trigger] parts[i]) by {
        if sy < ey && 0 < i < parts.len() - 1 {
            assert(parts[i] == ls[sy + i]);
            assert(no_nl(ls[sy + i]));
        }
    }
    lemma_split_join(parts);
    let d = deleted_spec(ls, sy, sx, ey, ex);
    let head = ls[sy].subrange(0, sx);
    let tail = ls[ey].subrange(ex, ls[ey].len() as int);
    assert(d[sy] == head + tail);
    assert(d[sy].subrange(0, sx) =~= head);
    assert(d[sy].subrange(sx, d[sy].len() as int) =~= tail);
    assert(d.take(sy) =~= ls.take(sy));
    assert(d.skip(sy + 1) =~= ls.skip(ey + 1));
    if sy == ey {
        assert(head + parts[0] + tail =~= ls[sy]);
        assert(ls.take(sy) + seq![ls[sy]] + ls.skip(sy + 1) =~= ls);
    } else {
        let k = parts.len() as int;
        assert(head + parts[0] =~= ls[sy]);
        assert(parts[k - 1] + tail =~= ls[ey]);
        assert(parts.subrange(1, k - 1) =~= ls.subrange(sy + 1, ey));
        assert(ls.take(sy) + (seq![ls[sy]] + ls.subrange(sy + 1, ey) + seq![ls[ey]]) + ls.skip(
            ey + 1,
        ) =~= ls);
    }
}

/// The lines with line `y` joined onto the one before it.
pub open spec fn joined_spec(ls: Seq<Seq<u8>>, y: int) -> Seq<Seq<u8>> {
    ls.take(y - 1) + seq![ls[y - 1] + ls[y]] + ls.skip(y + 1)
}

/// `b` without the character that starts at byte `i`.
pub open spec fn without_char_at(b: Seq<u8>, i: int) -> Seq<u8> {
    b.subrange(0, i) + b.subrange(i + lead_width(b[i]), b.len() as int)
}

/// Joins line `y` onto the line before it.
fn join_with_previous(buffer: &mut Vec<String>, y: usize)
    requires
        0 < y < old(buffer)@.len(),
    ensures
        line_views(final(buffer)@) == joined_spec(line_views(old(buffer)@), y as int),
{
    let ghost ls = line_views(buffer@);
    let cur = buffer.remove(y);
    let mut s = to_string(buffer[y - 1].as_str());
    push_str(&mut s, cur.as_str());
    buffer.set(y - 1, s);
    proof {
        assert(line_views(buffer@) =~= joined_spec(ls, y as int));
    }
}

/// Removes the character that starts at byte `i` of line `y`.
fn remove_char_at(buffer: &mut Vec<String>, y: usize, i: usize)
    requires
        y < old(buffer)@.len(),
        i < utf8(old(buffer)@[y as int]@).len(),
        is_char_boundary(utf8(old(buffer)@[y as int]@), i as int),
    ensures
        line_views(final(buffer)@) == line_views(old(buffer)@).update(
            y as int,
            without_char_at(utf8(old(buffer)@[y as int]@), i as int),
        ),
{
    let ghost ls = line_views(buffer@);
    let line = buffer[y].as_str();
    let b = line.as_bytes();
    let n = b.len();
    proof {
        lemma_ends_boundary(b@);
        lemma_next_boundary(b@, i as int);
    }
    let lead = b[i];
    let w: usize = if lead < 0x80 {
        1
    } else if lead < 0xe0 {
        2
    } else if lead < 0xf0 {
        3
    } else {
        4
    };
    let mut s = to_string(str_slice(line, 0, i));
    push_str(&mut s, str_slice(line, i + w, n));
    buffer.set(y, s);
    proof {
        assert(line_views(buffer@) =~= ls.update(y as int, without_char_at(ls[y as int], i as int)));
    }
}

/// Replaces line `y` by its bytes before `a` followed by those from `b`.
fn cut_line(buffer: &mut Vec<String>, y: usize, a: usize, b: usize)
    requires
        y < old(buffer)@.len(),
        a <= b <= utf8(old(buffer)@[y as int]@).len(),
        is_char_boundary(utf8(old(buffer)@[y as int]@), a as int),
        is_char_boundary(utf8(old(buffer)@[y as int]@), b as int),
    ensures
        line_views(final(buffer)@) == line_views(old(buffer)@).update(
            y as int,
            utf8(old(buffer)@[y as int]@).subrange(0, a as int) + utf8(
                old(buffer)@[y as int]@,
            ).subrange(b as int, utf8(old(buffer)@[y as int]@).len() as int),
        ),
{
    let ghost ls = line_views(buffer@);
    let line = buffer[y].as_str();
    let n = line.as_bytes().len();
    proof {
        lemma_ends_boundary(sb(line));
    }
    let mut s = to_string(str_slice(line, 0, a));
    push_str(&mut s, str_slice(line, b, n));
    buffer.set(y, s);
    proof {
        assert(line_views(buffer@) =~= ls.update(
            y as int,
            ls[y as int].subrange(0, a as int) + ls[y as int].subrange(
                b as int,
                ls[y as int].len() as int,
            ),
        ));
    }
}

/// Backspace at `(y, x)` with no selection: the lines and caret `(x, y)`
/// after it. Inside a line it removes the character that starts just
/// before the caret; at a line's start it joins the line onto the one
/// before; at the very start nothing changes.
pub open spec fn backspace_spec(ls: Seq<Seq<u8>>, y: int, x: int) -> (Seq<Seq<u8>>, int, int) {
    if x > 0 {
        (ls.update(y, without_char_at(ls[y], x - 1)), x - 1, y)
    } else if y > 0 {
        (joined_spec(ls, y), ls[y - 1].len() as int, y - 1)
    } else {
        (ls, x, y)
    }
}

/// Backspace at `(y, x)` with no selection; returns the caret `(x, y)`
/// (see [`backspace_spec`]).
pub fn backspace(buffer: &mut Vec<String>, y: usize, x: usize) -> (r: (i32, i32))
    requires
        y < old(buffer)@.len(),
        x > 0 ==> x - 1 < utf8(old(buffer)@[y as int]@).len() && is_char_boundary(
            utf8(old(buffer)@[y as int]@),
            x - 1,
        ),
        x <= i32::MAX,
        y <= i32::MAX,
        y > 0 ==> utf8(old(buffer)@[y - 1]@).len() <= i32::MAX,
    ensures
        line_views(final(buffer)@) == backspace_spec(line_views(old(buffer)@), y as int, x as int).0,
        r.0 == backspace_spec(line_views(old(buffer)@), y as int, x as int).1,
        r.1 == backspace_spec(line_views(old(buffer)@), y as int, x as int).2,
{
    if x > 0 {
        remove_char_at(buffer, y, x - 1);
        ((x - 1) as i32, y as i32)
    } else if y > 0 {
        let prev_len = buffer[y - 1].as_str().as_bytes().len();
        join_with_previous(buffer, y);
        (prev_len as i32, (y - 1) as i32)
    } else {
        (x as i32, y as i32)
    }
}

/// Delete at `(y, x)` with no selection: inside a line it removes the
/// character at the caret; at a line's end it joins the next line on; at
/// the very end nothing changes. The caret stays.
pub open spec fn delete_forward_spec(ls: Seq<Seq<u8>>, y: int, x: int) -> Seq<Seq<u8>> {
    if x < ls[y].len() {
        ls.update(y, without_char_at(ls[y], x))
    } else if y + 1 < ls.len() {
        joined_spec(ls, y + 1)
    } else {
        ls
    }
}

/// Delete at `(y, x)` with no selection (see [`delete_forward_spec`]).
pub fn delete_forward(buffer: &mut Vec<String>, y: usize, x: usize)
    requires
        y < old(buffer)@.len(),
        x < utf8(old(buffer)@[y as int]@).len() ==> is_char_boundary(
            utf8(old(buffer)@[y as int]@),
            x as int,
        ),
    ensures
        line_views(final(buffer)@) == delete_forward_spec(line_views(old(buffer)@), y as int, x as int),
{
    let n = buffer[y].as_str().as_bytes().len();
    if x < n {
        remove_char_at(buffer, y, x);
    } else if y < buffer.len() - 1 {
        join_with_previous(buffer, y + 1);
    }
}

/// The lines after Enter at `(y, x)`: line `y` splits at `x`.
pub open spec fn broken_spec(ls: Seq<Seq<u8>>, y: int, x: int) -> Seq<Seq<u8>> {
    ls.take(y) + seq![ls[y].subrange(0, x), ls[y].subrange(x, ls[y].len() as int)] + ls.skip(y + 1)
}

/// Enter at `(y, x)` with no selection: splits the line and returns the
/// caret `(0, y + 1)` at the start of the new line (see [`broken_spec`]).
pub fn break_line(buffer: &mut Vec<String>, y: usize, x: usize) -> (r: (i32, i32))
    requires
        y < old(buffer)@.len(),
        x <= utf8(old(buffer)@[y as int]@).len(),
        is_char_boundary(utf8(old(buffer)@[y as int]@), x as int),
        y < i32::MAX,
    ensures
        line_views(final(buffer)@) == broken_spec(line_views(old(buffer)@), y as int, x as int),
        r == (0i32, (y + 1) as i32),
{
    let ghost ls = line_views(buffer@);
    let line = buffer[y].as_str();
    let n = line.as_bytes().len();
    proof {
        lemma_ends_boundary(sb(line));
    }
    let head = to_string(str_slice(line, 0, x));
    let tail = to_string(str_slice(line, x, n));
    buffer.set(y, head);
    let ghost mid = line_views(buffer@);
    buffer.insert(y + 1, tail);
    proof {
        assert(line_views(buffer@) =~= mid.insert(y + 1, ls[y as int].subrange(x as int, n as int)));
        assert(line_views(buffer@) =~= broken_spec(ls, y as int, x as int));
    }
    (0, (y + 1) as i32)
}

/// The lines after typing `c` at `(y, x)`.
pub open spec fn typed_spec(ls: Seq<Seq<u8>>, y: int, x: int, c: char) -> Seq<Seq<u8>> {
    ls.update(y, ls[y].subrange(0, x) + utf8(seq![c]) + ls[y].subrange(x, ls[y].len() as int))
}

/// Types `c` at `(y, x)` and returns the caret column `x + 1` (the caret
/// moves on by one byte, whatever the character's width).
pub fn insert_char(buffer: &mut Vec<String>, y: usize, x: usize, c: char) -> (r: i32)
    requires
        y < old(buffer)@.len(),
        x <= utf8(old(buffer)@[y as int]@).len(),
        is_char_boundary(utf8(old(buffer)@[y as int]@), x as int),
        x < i32::MAX,
    ensures
        line_views(final(buffer)@) == typed_spec(line_views(old(buffer)@), y as int, x as int, c),
        r == x + 1,
{
    let ghost ls = line_views(buffer@);
    let line = buffer[y].as_str();
    let n = line.as_bytes().len();
    proof {
        lemma_ends_boundary(sb(line));
    }
    let mut s = to_string(str_slice(line, 0, x));
    let ghost before = s@;
    string_push(&mut s, c);
    proof {
        lemma_utf8_concat(before, seq![c]);
        assert(before.push(c) =~= before + seq![c]);
    }
    push_str(&mut s, str_slice(line, x, n));
    buffer.set(y, s);
    proof {
        assert(line_views(buffer@) =~= typed_spec(ls, y as int, x as int, c));
    }
    (x + 1) as i32
}

/// Shift+Tab at `(y, x)`: the lines and caret column after it. A tab just
/// before the caret goes and the caret steps back; otherwise nothing
/// changes.
pub open spec fn unindented_spec(ls: Seq<Seq<u8>>, y: int, x: int) -> (Seq<Seq<u8>>, int) {
    if 0 < x <= ls[y].len() && ls[y][x - 1] == 0x09 {
        (ls.update(y, ls[y].subrange(0, x - 1) + ls[y].subrange(x, ls[y].len() as int)), x - 1)
    } else {
        (ls, x)
    }
}

/// Shift+Tab at `(y, x)` with no selection; returns the caret column (see
/// [`unindented_spec`]).
pub fn unindent(buffer: &mut Vec<String>, y: usize, x: usize) -> (r: i32)
    requires
        y < old(buffer)@.len(),
        x <= i32::MAX,
    ensures
        line_views(final(buffer)@) == unindented_spec(line_views(old(buffer)@), y as int, x as int).0,
        r == unindented_spec(line_views(old(buffer)@), y as int, x as int).1,
{
    let b = buffer[y].as_str().as_bytes();
    if x > 0 && x <= b.len() && b[x - 1] == 0x09 {
        proof {
            lemma_ascii_boundary(b@, x - 1);
        }
        cut_line(buffer, y, x - 1, x);
        (x - 1) as i32
    } else {
        x as i32
    }
}

/// Ctrl+Backspace at `(y, x)` with no selection: the lines and caret
/// `(x, y)` after it. Inside a line it removes the text back to the start
/// of the word before the caret; at a line's start it joins the line onto
/// the one before; at the very start nothing changes.
pub open spec fn word_deleted_before_spec(ls: Seq<Seq<u8>>, y: int, x: int) -> (
    Seq<Seq<u8>>,
    int,
    int,
) {
    if x > 0 {
        let nx = prev_word_spec(ls[y], x);
        (ls.update(y, ls[y].subrange(0, nx) + ls[y].subrange(x, ls[y].len() as int)), nx, y)
    } else if y > 0 {
        (joined_spec(ls, y), ls[y - 1].len() as int, y - 1)
    } else {
        (ls, x, y)
    }
}

/// Ctrl+Backspace at `(y, x)` with no selection; returns the caret `(x, y)`
/// (see [`word_deleted_before_spec`]).
pub fn delete_word_before(buffer: &mut Vec<String>, y: usize, x: usize) -> (r: (i32, i32))
    requires
        y < old(buffer)@.len(),
        x <= utf8(old(buffer)@[y as int]@).len(),
        is_char_boundary(utf8(old(buffer)@[y as int]@), x as int),
        x <= i32::MAX,
        y <= i32::MAX,
        y > 0 ==> utf8(old(buffer)@[y - 1]@).len() <= i32::MAX,
    ensures
        line_views(final(buffer)@) == word_deleted_before_spec(
            line_views(old(buffer)@),
            y as int,
            x as int,
        ).0,
        r.0 == word_deleted_before_spec(line_views(old(buffer)@), y as int, x as int).1,
        r.1 == word_deleted_before_spec(line_views(old(buffer)@), y as int, x as int).2,
{
    if x > 0 {
        let nx = prev_word_start(buffer[y].as_str(), x);
        cut_line(buffer, y, nx, x);
        (nx as i32, y as i32)
    } else if y > 0 {
        let prev_len = buffer[y - 1].as_str().as_bytes().len();
        join_with_previous(buffer, y);
        (prev_len as i32, (y - 1) as i32)
    } else {
        (x as i32, y as i32)
    }
}

/// Ctrl+Delete at `(y, x)` with no selection: inside a line it removes the
/// text up to the end of the word at or after the caret; at a line's end it
/// joins the next line on; at the very end nothing changes. The caret
/// stays.
pub open spec fn word_deleted_after_spec(ls: Seq<Seq<u8>>, y: int, x: int) -> Seq<Seq<u8>> {
    if x < ls[y].len() {
        ls.update(
            y,
            ls[y].subrange(0, x) + ls[y].subrange(next_word_end_spec(ls[y], x), ls[y].len() as int),
        )
    } else if y + 1 < ls.len() {
        joined_spec(ls, y + 1)
    } else {
        ls
    }
}

/// Ctrl+Delete at `(y, x)` with no selection (see
/// [`word_deleted_after_spec`]).
pub fn delete_word_after(buffer: &mut Vec<String>, y: usize, x: usize)
    requires
        y < old(buffer)@.len(),
        x < utf8(old(buffer)@[y as int]@).len() ==> is_char_boundary(
            utf8(old(buffer)@[y as int]@),
            x as int,
        ),
    ensures
        line_views(final(buffer)@) == word_deleted_after_spec(
            line_views(old(buffer)@),
            y as int,
            x as int,
        ),
{
    let n = buffer[y].as_str().as_bytes().len();
    if x < n {
        let e = next_word_end(buffer[y].as_str(), x);
        cut_line(buffer, y, x, e);
    } else if y < buffer.len() - 1 {
        join_with_previous(buffer, y + 1);
    }
}

/// Left arrow at `(y, x)`: the caret `(x, y)` one byte back, or at the end
/// of the line before when at a line's start.
pub open spec fn left_spec(ls: Seq<Seq<u8>>, y: int, x: int) -> (int, int) {
    if x > 0 {
        (x - 1, y)
    } else if y > 0 {
        (ls[y - 1].len() as int, y - 1)
    } else {
        (x, y)
    }
}

/// Right arrow at `(y, x)`: the caret `(x, y)` one byte on, or at the start
/// of the next line when at a line's end.
pub open spec fn right_spec(ls: Seq<Seq<u8>>, y: int, x: int) -> (int, int) {
    if x < ls[y].len() {
        (x + 1, y)
    } else if y + 1 < ls.len() {
        (0, y + 1)
    } else {
        (x, y)
    }
}

/// Left arrow: the new caret `(x, y)` (see [`left_spec`]).
pub fn caret_left(buffer: &[String], y: usize, x: usize) -> (r: (i32, i32))
    requires
        y < buffer@.len(),
        x <= i32::MAX,
        y <= i32::MAX,
        y > 0 ==> utf8(buffer@[y - 1]@).len() <= i32::MAX,
    ensures
        (r.0 as int, r.1 as int) == left_spec(line_views(buffer@), y as int, x as int),
{
    if x > 0 {
        ((x - 1) as i32, y as i32)
    } else if y > 0 {
        (buffer[y - 1].as_str().as_bytes().len() as i32, (y - 1) as i32)
    } else {
        (x as i32, y as i32)
    }
}

/// Right arrow: the new caret `(x, y)` (see [`right_spec`]).
pub fn caret_right(buffer: &[String], y: usize, x: usize) -> (r: (i32, i32))
    requires
        y < buffer@.len(),
        x < i32::MAX,
        y < i32::MAX,
    ensures
        (r.0 as int, r.1 as int) == right_spec(line_views(buffer@), y as int, x as int),
{
    if x < buffer[y].as_str().as_bytes().len() {
        ((x + 1) as i32, y as i32)
    } else if y < buffer.len() - 1 {
        (0, (y + 1) as i32)
    } else {
        (x as i32, y as i32)
    }
}

/// Ctrl+Left at `(y, x)`: the caret `(x, y)` at the start of the word
/// before it, or at the end of the line before when at a line's start.
pub open spec fn word_left_spec(ls: Seq<Seq<u8>>, y: int, x: int) -> (int, int) {
    if x > 0 {
        (prev_word_spec(ls[y], x), y)
    } else if y > 0 {
        (ls[y - 1].len() as int, y - 1)
    } else {
        (x, y)
    }
}

/// Ctrl+Right at `(y, x)`: the caret `(x, y)` at the start of the next
/// word, or at the start of the next line when at a line's end.
pub open spec fn word_right_spec(ls: Seq<Seq<u8>>, y: int, x: int) -> (int, int) {
    if x < ls[y].len() {
        (next_word_boundary_spec(ls[y], x), y)
    } else if y + 1 < ls.len() {
        (0, y + 1)
    } else {
        (x, y)
    }
}

/// Ctrl+Left: the new caret `(x, y)` (see [`word_left_spec`]).
pub fn word_left(buffer: &[String], y: usize, x: usize) -> (r: (i32, i32))
    requires
        y < buffer@.len(),
        x <= i32::MAX,
        y <= i32::MAX,
        y > 0 ==> utf8(buffer@[y - 1]@).len() <= i32::MAX,
    ensures
        (r.0 as int, r.1 as int) == word_left_spec(line_views(buffer@), y as int, x as int),
{
    if x > 0 {
        let nx = prev_word_boundary(buffer[y].as_str(), x);
        (nx as i32, y as i32)
    } else if y > 0 {
        (buffer[y - 1].as_str().as_bytes().len() as i32, (y - 1) as i32)
    } else {
        (x as i32, y as i32)
    }
}

/// Ctrl+Right: the new caret `(x, y)` (see [`word_right_spec`]).
pub fn word_right(buffer: &[String], y: usize, x: usize) -> (r: (i32, i32))
    requires
        y < buffer@.len(),
        utf8(buffer@[y as int]@).len() <= i32::MAX,
        x <= i32::MAX,
        y < i32::MAX,
    ensures
        (r.0 as int, r.1 as int) == word_right_spec(line_views(buffer@), y as int, x as int),
{
    let line = buffer[y].as_str();
    if x < line.as_bytes().len() {
        let nx = next_word_boundary(line, x);
        (nx as i32, y as i32)
    } else if y < buffer.len() - 1 {
        (0, (y + 1) as i32)
    } else {
        (x as i32, y as i32)
    }
}

/// Index of the first visual line that shows caret `(x, y)`: one of line
/// `y` whose byte range holds `x` (its end included).
pub fn visual_line_at(visual: &[VisualLine], x: usize, y: usize) -> (r: Option<usize>)
    ensures
        match r {
            Some(i) => {
                &&& i < visual@.len()
                &&& visual@[i as int].line == y && visual@[i as int].start <= x <= visual@[i as int].end
                &&& forall|j: int|
                    0 <= j < i ==> !(#[trigger] visual@[j].line == y && visual@[j].start <= x
                        <= visual@[j].end)
            },
            None => forall|j: int|
                0 <= j < visual@.len() ==> !(#[trigger] visual@[j].line == y && visual@[j].start
                    <= x <= visual@[j].end),
        },
{
    let mut i: usize = 0;
    while i < visual.len()
        invariant
            i <= visual@.len(),
            forall|j: int|
                0 <= j < i ==> !(#[trigger] visual@[j].line == y && visual@[j].start <= x
                    <= visual@[j].end),
        decreases visual@.len() - i,
    {
        let v = &visual[i];
        if v.line == y && v.start <= x && x <= v.end {
            return Some(i);
        }
        i = i + 1;
    }
    None
}

/// Up or Down arrow from visual line `current`: the caret `(x, y)` on the
/// visual line above (or below) at the same offset from its start, kept
/// within that line's end; none at the first (or last) visual line.
pub open spec fn vertical_spec(visual: Seq<VisualLine>, current: int, x: int, up: bool) -> Option<
    (int, int),
> {
    let target = if up {
        current - 1
    } else {
        current + 1
    };
    if 0 <= target < visual.len() {
        let from = visual[current];
        let to = visual[target];
        let want = to.start + (x - from.start);
        Some((if want < to.end { want } else { to.end as int }, to.line as int))
    } else {
        None
    }
}

/// Up or Down arrow from visual line `current` (see [`vertical_spec`]).
pub fn caret_vertical(visual: &[VisualLine], current: usize, x: usize, up: bool) -> (r: Option<
    (usize, usize),
>)
    requires
        current < visual@.len(),
        visual@[current as int].start <= x,
        forall|j: int|
            0 <= j < visual@.len() ==> #[trigger] visual@[j].start + (x - visual@[current as int].start)
                <= usize::MAX,
    ensures
        match r {
            Some((nx, ny)) => vertical_spec(visual@, current as int, x as int, up) == Some(
                (nx as int, ny as int),
            ),
            None => vertical_spec(visual@, current as int, x as int, up) is None,
        },
{
    let has_target = if up {
        current > 0
    } else {
        current < visual.len() - 1
    };
    if !has_target {
        return None;
    }
    let target = if up {
        current - 1
    } else {
        current + 1
    };
    let from = &visual[current];
    let to = &visual[target];
    let want = to.start + (x - from.start);
    let nx = if want < to.end {
        want
    } else {
        to.end
    };
    Some((nx, to.line))
}

/// Ctrl+A: the caret `(x, y)` at the end of the last line (the anchor goes
/// to the start of the first).
pub fn select_all_caret(buffer: &[String]) -> (r: (i32, i32))
    requires
        buffer@.len() >= 1,
        buffer@.len() <= i32::MAX,
        utf8(buffer@.last()@).len() <= i32::MAX,
    ensures
        r.1 == buffer@.len() - 1,
        r.0 == utf8(buffer@.last()@).len(),
{
    let last = buffer.len() - 1;
    (buffer[last].as_str().as_bytes().len() as i32, last as i32)
}

/// The caret `(x, y)` restored by undo or redo, brought into the restored
/// lines: the row kept below their count, the column within its row.
pub open spec fn restored_caret(ls: Seq<Seq<u8>>, cy: int, cx: int) -> (int, int) {
    let y = if cy < ls.len() - 1 {
        cy
    } else {
        ls.len() - 1
    };
    (if cx < ls[y].len() { cx } else { ls[y].len() as int }, y)
}

/// Brings the caret `(cx, cy)` saved with an undo step into the restored
/// lines (see [`restored_caret`]).
pub fn restore_caret(buffer: &[String], cy: i32, cx: i32) -> (r: (i32, i32))
    requires
        1 <= buffer@.len() <= i32::MAX,
        forall|i: int| 0 <= i < buffer@.len() ==> utf8(#[trigger] buffer@[i]@).len() <= i32::MAX,
        cy >= 0,
    ensures
        (r.0 as int, r.1 as int) == restored_caret(line_views(buffer@), cy as int, cx as int),
{
    let last = (buffer.len() - 1) as i32;
    let y = if cy < last {
        cy
    } else {
        last
    };
    let n = buffer[y as usize].as_str().as_bytes().len();
    let x = if (cx as i64) < (n as i64) {
        cx
    } else {
        n as i32
    };
    (x, y)
}

/// The highlighted row of a popup of `n` rows after Down or Tab (`forward`)
/// or Up: one row on or back, wrapping around at either end.
pub open spec fn cycled_spec(selected: int, n: int, forward: bool) -> int {
    if forward {
        if selected + 1 >= n {
            0
        } else {
            selected + 1
        }
    } else if selected == 0 {
        n - 1
    } else {
        selected - 1
    }
}

/// Moves a popup's highlighted row (see [`cycled_spec`]).
pub fn cycle_selection(selected: usize, n: usize, forward: bool) -> (r: usize)
    requires
        n >= 1,
        forward ==> selected < usize::MAX,
    ensures
        r == cycled_spec(selected as int, n as int, forward),
{
    if forward {
        if selected + 1 >= n {
            0
        } else {
            selected + 1
        }
    } else if selected == 0 {
        n - 1
    } else {
        selected - 1
    }
}

/// The popup row under a click `rel_y` pixels below the popup's top, with
/// rows `item_h` pixels high: clamped to the `n` rows.
pub open spec fn popup_row_spec(rel_y: int, item_h: int, n: int) -> int {
    if rel_y < 0 {
        0
    } else if rel_y / item_h > n - 1 {
        n - 1
    } else {
        rel_y / item_h
    }
}

/// The popup row under a click (see [`popup_row_spec`]).
pub fn popup_row(rel_y: i32, item_h: i32, n: usize) -> (r: usize)
    requires
        item_h > 0,
        1 <= n <= i32::MAX,
    ensures
        r == popup_row_spec(rel_y as int, item_h as int, n as int),
        r < n,
{
    if rel_y < 0 {
        return 0;
    }
    let row = rel_y / item_h;
    if (row as usize) > n - 1 {
        n - 1
    } else {
        row as usize
    }
}

/// The anchor and caret `(ax, ay, cx, cy)` after a click of the given
/// count at byte `off` of line `row`: a double click selects the word
/// there, a triple click the whole line, and a single click places the
/// caret, keeping the anchor `(ax, ay)` when Shift is held.
pub open spec fn click_spec(
    ls: Seq<Seq<u8>>,
    row: int,
    off: int,
    count: int,
    shift: bool,
    ax: int,
    ay: int,
) -> (int, int, int, int) {
    if count == 2 {
        (prev_word_spec(ls[row], off), row, next_word_end_spec(ls[row], off), row)
    } else if count == 3 {
        (0, row, ls[row].len() as int, row)
    } else if shift {
        (ax, ay, off, row)
    } else {
        (off, row, off, row)
    }
}

/// The anchor and caret after a click (see [`click_spec`]).
pub fn click_selection(
    buffer: &[String],
    row: usize,
    off: usize,
    count: u32,
    shift: bool,
    ax: i32,
    ay: i32,
) -> (r: (i32, i32, i32, i32))
    requires
        row < buffer@.len(),
        row <= i32::MAX,
        off <= i32::MAX,
        utf8(buffer@[row as int]@).len() <= i32::MAX,
    ensures
        (r.0 as int, r.1 as int, r.2 as int, r.3 as int) == click_spec(
            line_views(buffer@),
            row as int,
            off as int,
            count as int,
            shift,
            ax as int,
            ay as int,
        ),
{
    let line = buffer[row].as_str();
    if count == 2 {
        let start = prev_word_start(line, off);
        let end = next_word_end(line, off);
        (start as i32, row as i32, end as i32, row as i32)
    } else if count == 3 {
        (0, row as i32, line.as_bytes().len() as i32, row as i32)
    } else if shift {
        (ax, ay, off as i32, row as i32)
    } else {
        (off as i32, row as i32, off as i32, row as i32)
    }
}

/// Whether a typed character goes into the text: any but the control
/// characters (U+0000 to U+001F and U+007F to U+009F).
pub open spec fn typeable(c: char) -> bool {
    !((c as u32) <= 0x1f || (0x7f <= (c as u32) && (c as u32) <= 0x9f))
}

/// Whether a typed character goes into the text (see [`typeable`]).
pub fn accepts_typed(c: char) -> (r: bool)
    ensures
        r == typeable(c),
{
    let v = c as u32;
    !(v <= 0x1f || (0x7f <= v && v <= 0x9f))
}

/// The file stem of a new note from the name typed at the prompt: the name
/// without surrounding whitespace, or `untitled` when nothing is left.
pub fn new_node_stem(name: &str) -> (r: String)
    ensures
        trim_bytes(sb(name)).len() == 0 ==> r@ == "untitled"@,
        trim_bytes(sb(name)).len() > 0 ==> utf8(r@) == trim_bytes(sb(name)),
{
    let t = trim(name);
    if t.as_bytes().len() == 0 {
        "untitled".to_string()
    } else {
        to_string(t)
    }
}

/// Autoscroll while dragging a selection at pointer height `my`: within 24
/// pixels of the content's top the view scrolls up by 16 (not past 0);
/// within 24 pixels of its bottom it scrolls down by 16.
pub open spec fn drag_scroll_spec(my: int, top: int, height: int, scroll: int) -> int {
    if my < top + 24 && scroll > 0 {
        if scroll - 16 > 0 {
            scroll - 16
        } else {
            0
        }
    } else if my > top + height - 24 {
        scroll + 16
    } else {
        scroll
    }
}

/// The scroll offset after a drag step (see [`drag_scroll_spec`]).
pub fn drag_scroll(my: i32, top: i32, height: i32, scroll: i32) -> (r: i32)
    requires
        scroll <= i32::MAX - 16,
    ensures
        r == drag_scroll_spec(my as int, top as int, height as int, scroll as int),
{
    let m = my as i64;
    let t = top as i64;
    let h = height as i64;
    if m < t + 24 && scroll > 0 {
        if scroll - 16 > 0 {
            scroll - 16
        } else {
            0
        }
    } else if m > t + h - 24 {
        scroll + 16
    } else {
        scroll
    }
}

/// A character's encoding is as long as its leading byte says.
pub proof fn lemma_char_width(c: char)
    ensures
        utf8(seq![c]).len() >= 1,
        lead_width(utf8(seq![c])[0]) == utf8(seq![c]).len(),
{
    let cs = seq![c];
    let e = utf8(cs);
    assert(cs.drop_first() =~= Seq::<char>::empty());
    assert(encode_utf8(Seq::<char>::empty()) =~= Seq::<u8>::empty());
    assert(e =~= encode_scalar(c as u32));
    encode_utf8_first_scalar(cs);
}

/// Enter then Backspace at the start of the new line gives the lines back,
/// with the caret where Enter was pressed.
pub proof fn lemma_enter_then_backspace(ls: Seq<Seq<u8>>, y: int, x: int)
    requires
        0 <= y < ls.len(),
        0 <= x <= ls[y].len(),
    ensures
        backspace_spec(broken_spec(ls, y, x), y + 1, 0) == (ls, x, y),
{
    let b = broken_spec(ls, y, x);
    assert(b[y] == ls[y].subrange(0, x));
    assert(b[y + 1] == ls[y].subrange(x, ls[y].len() as int));
    assert(b[y] + b[y + 1] =~= ls[y]);
    assert(b.take(y) =~= ls.take(y));
    assert(b.skip(y + 2) =~= ls.skip(y + 1));
    assert(joined_spec(b, y + 1) =~= ls);
}

/// Enter then Delete at the same place joins the line back.
pub proof fn lemma_enter_then_delete(ls: Seq<Seq<u8>>, y: int, x: int)
    requires
        0 <= y < ls.len(),
        0 <= x <= ls[y].len(),
    ensures
        delete_forward_spec(broken_spec(ls, y, x), y, x) == ls,
{
    lemma_enter_then_backspace(ls, y, x);
}

/// Typing a character then Backspace gives the lines back, with the caret
/// where the character was typed.
pub proof fn lemma_type_then_backspace(ls: Seq<Seq<u8>>, y: int, x: int, c: char)
    requires
        0 <= y < ls.len(),
        0 <= x <= ls[y].len(),
    ensures
        backspace_spec(typed_spec(ls, y, x, c), y, x + 1) == (ls, x, y),
{
    lemma_char_width(c);
    let e = utf8(seq![c]);
    let t = typed_spec(ls, y, x, c);
    let line = ls[y].subrange(0, x) + e + ls[y].subrange(x, ls[y].len() as int);
    assert(t[y] == line);
    assert(line[x] == e[0]);
    assert(without_char_at(line, x) =~= ls[y]);
    assert(t.update(y, ls[y]) =~= ls);
}

/// Typing a character then Delete without moving the caret gives the lines
/// back.
pub proof fn lemma_type_then_delete(ls: Seq<Seq<u8>>, y: int, x: int, c: char)
    requires
        0 <= y < ls.len(),
        0 <= x <= ls[y].len(),
    ensures
        delete_forward_spec(typed_spec(ls, y, x, c), y, x) == ls,
{
    lemma_type_then_backspace(ls, y, x, c);
}

/// Tab then Shift+Tab gives the lines and the caret column back.
pub proof fn lemma_indent_then_unindent(ls: Seq<Seq<u8>>, y: int, x: int)
    requires
        0 <= y < ls.len(),
        0 <= x <= ls[y].len(),
    ensures
        unindented_spec(typed_spec(ls, y, x, '\t'), y, x + 1) == (ls, x),
{
    crate::strings::lemma_utf8_ascii_char('\t');
    let t = typed_spec(ls, y, x, '\t');
    let line = ls[y].subrange(0, x) + seq![0x09u8] + ls[y].subrange(x, ls[y].len() as int);
    assert(t[y] =~= line);
    assert(line[x] == 0x09);
    assert(line.subrange(0, x) + line.subrange(x + 1, line.len() as int) =~= ls[y]);
    assert(t.update(y, ls[y]) =~= ls);
}

/// Right then Left arrow returns to the caret, unless it stood at the very
/// end of the text.
pub proof fn lemma_right_then_left(ls: Seq<Seq<u8>>, y: int, x: int)
    requires
        0 <= y < ls.len(),
        0 <= x <= ls[y].len(),
        !(y == ls.len() - 1 && x == ls[y].len()),
    ensures
        left_spec(ls, right_spec(ls, y, x).1, right_spec(ls, y, x).0) == (x, y),
{
}

/// Left then Right arrow returns to the caret, unless it stood at the very
/// start of the text.
pub proof fn lemma_left_then_right(ls: Seq<Seq<u8>>, y: int, x: int)
    requires
        0 <= y < ls.len(),
        0 <= x <= ls[y].len(),
        !(y == 0 && x == 0),
    ensures
        right_spec(ls, left_spec(ls, y, x).1, left_spec(ls, y, x).0) == (x, y),
{
}

/// Moving a popup's highlight one row on and one row back (either way
/// round) returns to the same row, and the highlight stays on a row.
pub proof fn lemma_cycle_round_trip(selected: int, n: int)
    requires
        0 <= selected < n,
    ensures
        0 <= cycled_spec(selected, n, true) < n,
        0 <= cycled_spec(selected, n, false) < n,
        cycled_spec(cycled_spec(selected, n, true), n, false) == selected,
        cycled_spec(cycled_spec(selected, n, false), n, true) == selected,
{
}


/// A key press that edits the buffer.
#[derive(Debug, Clone, Copy, PartialEq, Eq, Structural)]
pub enum EditKey {
    /// A typed character.
    Typed,
    Enter,
    Tab,
    ShiftTab,
    Backspace,
    Delete,
    /// Ctrl+Backspace.
    WordBackspace,
    /// Ctrl+Delete.
    WordDelete,
    /// Ctrl+V.
    Paste,
    /// Ctrl+X.
    Cut,
    /// An imported asset's link, inserted below the caret line.
    AssetLink,
}

/// What an editing key does before and around its own edit: the undo
/// snapshot it records (none when it edits nothing), whether an open
/// selection is deleted first, and whether the key's own edit then runs.
#[derive(Debug, Clone, Copy, PartialEq, Eq, Structural)]
pub struct KeyPlan {
    pub snapshot: Option<EditKind>,
    pub delete_selection: bool,
    pub key_edit: bool,
}

/// The plan of an editing key: a typed character records a character-insert
/// snapshot (which typing bursts coalesce) and every other edit a plain one;
/// the deleting keys only delete an open selection, while typing, Enter,
/// Tab, Shift+Tab and paste type over it; cut edits only with a selection
/// open, which it deletes; an asset link goes below the caret line and
/// leaves any selection alone.
pub open spec fn key_plan_spec(key: EditKey, has_selection: bool) -> KeyPlan {
    match key {
        EditKey::Typed => KeyPlan {
            snapshot: Some(EditKind::CharInsert),
            delete_selection: has_selection,
            key_edit: true,
        },
        EditKey::Enter | EditKey::Tab | EditKey::ShiftTab | EditKey::Paste => KeyPlan {
            snapshot: Some(EditKind::Other),
            delete_selection: has_selection,
            key_edit: true,
        },
        EditKey::Backspace | EditKey::Delete | EditKey::WordBackspace | EditKey::WordDelete => KeyPlan {
            snapshot: Some(EditKind::Other),
            delete_selection: has_selection,
            key_edit: !has_selection,
        },
        EditKey::Cut => KeyPlan {
            snapshot: if has_selection {
                Some(EditKind::Other)
            } else {
                None
            },
            delete_selection: has_selection,
            key_edit: false,
        },
        EditKey::AssetLink => KeyPlan {
            snapshot: Some(EditKind::Other),
            delete_selection: false,
            key_edit: true,
        },
    }
}

/// The plan of an editing key (see [`key_plan_spec`]).
pub fn key_plan(key: EditKey, has_selection: bool) -> (r: KeyPlan)
    ensures
        r == key_plan_spec(key, has_selection),
{
    match key {
        EditKey::Typed => KeyPlan {
            snapshot: Some(EditKind::CharInsert),
            delete_selection: has_selection,
            key_edit: true,
        },
        EditKey::Enter | EditKey::Tab | EditKey::ShiftTab | EditKey::Paste => KeyPlan {
            snapshot: Some(EditKind::Other),
            delete_selection: has_selection,
            key_edit: true,
        },
        EditKey::Backspace | EditKey::Delete | EditKey::WordBackspace | EditKey::WordDelete => KeyPlan {
            snapshot: Some(EditKind::Other),
            delete_selection: has_selection,
            key_edit: !has_selection,
        },
        EditKey::Cut => KeyPlan {
            snapshot: if has_selection {
                Some(EditKind::Other)
            } else {
                None
            },
            delete_selection: has_selection,
            key_edit: false,
        },
        EditKey::AssetLink => KeyPlan {
            snapshot: Some(EditKind::Other),
            delete_selection: false,
            key_edit: true,
        },
    }
}

} // verus!
