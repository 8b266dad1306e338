//! Slash-command picker: a word-initial `/` token under the caret shows the
//! matching commands; picking "Add asset" inserts an asset link below the
//! caret line.

use crate::strings::{
    contains_bytes, contains_exec, is_prefix_bytes, lemma_ascii_boundary, lemma_ends_boundary,
    lowercase, push_ascii, push_str, sb, starts_with_bytes, str_slice, to_lowercase, to_string,
    empty_string, utf8,
};
use vstd::prelude::*;
use vstd::string::*;
use vstd::utf8::*;

verus! {

broadcast use vstd::utf8::group_utf8_lib;

#[derive(Debug, Clone, Copy, PartialEq, Eq, Structural)]
pub enum Command {
    AddAsset,
}

pub struct CommandState {
    pub active: bool,
    pub filter: String,
    pub selected: usize,
    pub matches: Vec<(String, Command)>,
    /// Esc hides the picker until the region's text changes.
    pub suppress: bool,
    pub suppress_filter: String,
    /// The last Esc press was for the picker, not for closing the editor.
    pub esc_consumed: bool,
}

impl CommandState {
    /// The hidden, empty picker.
    pub fn new() -> (r: CommandState)
        ensures
            !r.active,
            r.filter@ == Seq::<char>::empty(),
            r.selected == 0,
            r.matches@.len() == 0,
            !r.suppress,
            r.suppress_filter@ == Seq::<char>::empty(),
            !r.esc_consumed,
    {
        CommandState {
            active: false,
            filter: String::new(),
            selected: 0,
            matches: Vec::new(),
            suppress: false,
            suppress_filter: String::new(),
            esc_consumed: false,
        }
    }
}

/// The command table, in declaration order.
pub open spec fn command_table() -> Seq<(Seq<char>, Command)> {
    seq![("Add asset"@, Command::AddAsset)]
}

/// The command table.
pub fn commands() -> (r: Vec<(String, Command)>)
    ensures
        command_views(r@) == command_table(),
{
    let mut v: Vec<(String, Command)> = Vec::new();
    v.push((String::from_str("Add asset"), Command::AddAsset));
    assert(command_views(v@) =~= command_table());
    v
}

/// Names (as characters) and commands of a list of entries.
pub open spec fn command_views(v: Seq<(String, Command)>) -> Seq<(Seq<char>, Command)> {
    v.map_values(|e: (String, Command)| (e.0@, e.1))
}

/// The command's lower-cased name starts with the lower-cased filter.
pub open spec fn prefix_hit(f: Seq<u8>, e: (Seq<char>, Command)) -> bool {
    is_prefix_bytes(f, utf8(lowercase(e.0)))
}

/// The command's lower-cased name holds the lower-cased filter elsewhere
/// (a word of the name starting with it is such a hit too).
pub open spec fn loose_hit(f: Seq<u8>, e: (Seq<char>, Command)) -> bool {
    !prefix_hit(f, e) && contains_bytes(utf8(lowercase(e.0)), f)
}

/// Commands matching `filter`, case-insensitively: every command for an empty
/// filter; otherwise prefix matches first, then the other commands whose name
/// holds the filter, each group in table order.
pub open spec fn refresh_spec(filter: Seq<char>) -> Seq<(Seq<char>, Command)> {
    let f = utf8(lowercase(filter));
    if f.len() == 0 {
        command_table()
    } else {
        command_table().filter(|e: (Seq<char>, Command)| prefix_hit(f, e)) + command_table().filter(
            |e: (Seq<char>, Command)| loose_hit(f, e),
        )
    }
}

/// Commands matching `filter` (see [`refresh_spec`]).
pub fn refresh(filter: &str) -> (r: Vec<(String, Command)>)
    ensures
        command_views(r@) == refresh_spec(filter@),
{
    let f = to_lowercase(filter);
    let fb = f.as_str().as_bytes();
    let table = commands();
    if fb.len() == 0 {
        return table;
    }
    let ghost t = command_views(table@);
    let mut prefix: Vec<(String, Command)> = Vec::new();
    let mut loose: Vec<(String, Command)> = Vec::new();
    let mut k: usize = 0;
    while k < table.len()
        invariant
            k <= table@.len(),
            t == command_views(table@),
            t == command_table(),
            fb@ == utf8(lowercase(filter@)),
            command_views(prefix@) == t.take(k as int).filter(
                |e: (Seq<char>, Command)| prefix_hit(fb@, e),
            ),
            command_views(loose@) == t.take(k as int).filter(
                |e: (Seq<char>, Command)| loose_hit(fb@, e),
            ),
        decreases table.len() - k,
    {
        let name = table[k].0.as_str();
        let cmd = table[k].1;
        let lower = to_lowercase(name);
        let lb = lower.as_str().as_bytes();
        let hit = starts_with_bytes(lb, fb);
        let contains_hit = !hit && contains_exec(lb, fb);
        proof {
            assert(t.take(k + 1).drop_last() =~= t.take(k as int));
            assert(t.take(k + 1).last() == t[k as int]);
            reveal_with_fuel(Seq::<_>::filter, 1);
        }
        let ghost p0 = prefix@;
        let ghost l0 = loose@;
        if hit {
            prefix.push((to_string(name), cmd));
            assert(command_views(prefix@) =~= command_views(p0).push(t[k as int]));
        } else if contains_hit {
            loose.push((to_string(name), cmd));
            assert(command_views(loose@) =~= command_views(l0).push(t[k as int]));
        }
        k = k + 1;
    }
    assert(t.take(k as int) =~= t);
    let ghost p1 = command_views(prefix@);
    let ghost l1 = command_views(loose@);
    let mut out = prefix;
    let mut j: usize = 0;
    while j < loose.len()
        invariant
            j <= loose@.len(),
            command_views(out@) == p1 + l1.take(j as int),
            l1 == command_views(loose@),
        decreases loose.len() - j,
    {
        let ghost o0 = command_views(out@);
        out.push((to_string(loose[j].0.as_str()), loose[j].1));
        assert(command_views(out@) =~= o0.push(l1[j as int]));
        assert(l1.take(j + 1) =~= l1.take(j as int).push(l1[j as int]));
        assert(command_views(out@) =~= p1 + l1.take(j + 1));
        j = j + 1;
    }
    assert(l1.take(j as int) =~= l1);
    out
}

/// ASCII whitespace in the sense of `u8::is_ascii_whitespace`: space, tab,
/// line feed, form feed, carriage return.
pub open spec fn ascii_space(x: u8) -> bool {
    x == 0x20 || x == 0x09 || x == 0x0a || x == 0x0c || x == 0x0d
}

/// Start of the whitespace-delimited token that ends at `j`.
pub open spec fn token_start(b: Seq<u8>, j: int) -> int
    decreases j,
{
    if j > 0 && j <= b.len() && !ascii_space(b[j - 1]) {
        token_start(b, j - 1)
    } else {
        j
    }
}

/// The command filter for a caret at `cursor_x`: the text between a
/// word-initial `/` and the caret.
pub open spec fn command_detect_spec(b: Seq<u8>, cursor_x: int) -> Option<Seq<u8>> {
    let upto = if cursor_x < b.len() {
        cursor_x
    } else {
        b.len() as int
    };
    let ts = token_start(b, upto);
    if ts >= upto || b[ts] != 0x2f {
        None
    } else {
        Some(b.subrange(ts + 1, upto))
    }
}

/// If the caret sits inside an unclosed word-initial `/` token, the text
/// between the slash and the caret. A slash inside a word (`a/b`, a date) is
/// prose, and a space after the slash ends the region.
pub fn detect(line: &str, cursor_x: usize) -> (r: Option<String>)
    requires
        cursor_x >= sb(line).len() || is_char_boundary(sb(line), cursor_x as int),
    ensures
        match r {
            Some(t) => command_detect_spec(sb(line), cursor_x as int) == Some(utf8(t@)),
            None => command_detect_spec(sb(line), cursor_x as int) is None,
        },
{
    let bytes = line.as_bytes();
    let upto = if cursor_x < bytes.len() {
        cursor_x
    } else {
        bytes.len()
    };
    let mut tok_start = upto;
    while tok_start > 0 && !(bytes[tok_start - 1] == 0x20 || bytes[tok_start - 1] == 0x09
        || bytes[tok_start - 1] == 0x0a || bytes[tok_start - 1] == 0x0c || bytes[tok_start - 1]
        == 0x0d)
        invariant
            tok_start <= upto <= bytes@.len(),
            token_start(bytes@, upto as int) == token_start(bytes@, tok_start as int),
        decreases tok_start,
    {
        tok_start = tok_start - 1;
    }
    if tok_start >= upto || bytes[tok_start] != 0x2f {
        return None;
    }
    proof {
        lemma_ends_boundary(bytes@);
        lemma_ascii_boundary(bytes@, tok_start as int);
    }
    Some(to_string(str_slice(line, tok_start + 1, upto)))
}

/// Starts the asset import: asks for the file dialog.
pub fn request_asset_pick(request: &mut bool)
    ensures
        *final(request),
{
    *request = true;
}

/// `[[target]]`.
pub open spec fn link_line(target: Seq<u8>) -> Seq<u8> {
    seq![0x5bu8, 0x5bu8] + target + seq![0x5du8, 0x5du8]
}

/// Inserts `[[target]]` as a fresh line directly below buffer line `y`
/// (clamped to the buffer; the only line of an empty buffer) and returns the
/// new caret position (line, column).
pub fn insert_asset_link(buffer: &mut Vec<String>, y: usize, target: &str) -> (r: (i32, i32))
    requires
        old(buffer)@.len() < 0x7fff_ffff,
    ensures
        ({
            let line = link_line(sb(target));
            let at = if old(buffer)@.len() == 0 {
                0
            } else if y < old(buffer)@.len() - 1 {
                y + 1
            } else {
                old(buffer)@.len() as int
            };
            &&& final(buffer)@.len() == old(buffer)@.len() + 1
            &&& utf8(final(buffer)@[at]@) == line
            &&& final(buffer)@.take(at) == old(buffer)@.take(at)
            &&& final(buffer)@.skip(at + 1) == old(buffer)@.skip(at)
            &&& r == (at as i32, line.len() as i32)
        }),
{
    let mut line = empty_string();
    push_ascii(&mut line, 0x5b);
    push_ascii(&mut line, 0x5b);
    push_str(&mut line, target);
    push_ascii(&mut line, 0x5d);
    push_ascii(&mut line, 0x5d);
    assert(utf8(line@) =~= link_line(sb(target)));
    let len = line.as_str().as_bytes().len();
    if buffer.len() == 0 {
        buffer.push(line);
        assert(buffer@.skip(1) =~= old(buffer)@.skip(0));
        assert(buffer@.take(0) =~= old(buffer)@.take(0));
        return (0, len as i32);
    }
    let y = if y < buffer.len() - 1 {
        y
    } else {
        buffer.len() - 1
    };
    buffer.insert(y + 1, line);
    assert(buffer@.take(y + 1) =~= old(buffer)@.take(y + 1));
    assert(buffer@.skip(y + 2) =~= old(buffer)@.skip(y + 1));
    (y as i32 + 1, len as i32)
}

} // verus!
