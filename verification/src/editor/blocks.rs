//! Derived block structure over the raw buffer lines.
//!
//! Read-only and ephemeral: rebuilt from the raw lines whenever it is needed,
//! never stored. It answers questions a single line cannot (fenced code spans,
//! nested list depth).

use crate::editor::markdown::{
    cols, blank_end, first_heading, has_quote_unit, heading_info, heading_info_spec,
    is_blockquote, is_horizontal_rule, is_hr_line, list_info, list_skip_units, prefix_units,
};
use crate::strings::{lemma_skip_ws_bounds, sb, trim, trim_bytes, trim_start, trim_start_bytes, utf8};
use vstd::prelude::*;

verus! {

#[derive(Debug, Clone, Copy, PartialEq, Eq, Structural)]
pub enum LineKind {
    Blank,
    Paragraph,
    Heading { level: u8 },
    HorizontalRule,
    Blockquote,
    List { depth: u32 },
    FencedCode,
    FenceDelimiter,
}

#[derive(Debug, Clone, Copy, PartialEq, Eq, Structural)]
pub enum BlockKind {
    Paragraph,
    Heading { level: u8 },
    HorizontalRule,
    Blockquote,
    ListItem { depth: u32 },
    FencedCode,
}

#[derive(Debug, Clone, Copy, PartialEq, Eq, Structural)]
pub struct Block {
    pub kind: BlockKind,
    /// Inclusive buffer line index.
    pub start: usize,
    /// Exclusive buffer line index.
    pub end: usize,
}

/// Bytes of a buffer line.
pub open spec fn lb(s: String) -> Seq<u8> {
    utf8(s@)
}

/// Every line is short enough for the prefix parser.
pub open spec fn lines_ok(lines: Seq<String>) -> bool {
    forall|i: int| 0 <= i < lines.len() ==> #[trigger] lb(lines[i]).len() < 0x8000_0000
}

/// Depth of a list marker line: one level per 2 leading columns (tabs = 2).
pub open spec fn list_depth_spec(b: Seq<u8>) -> int {
    cols(b, blank_end(b, 0)) / 2
}

/// Length of the run of `c` starting at `i`.
pub open spec fn run_len(t: Seq<u8>, i: int, c: u8) -> int
    decreases t.len() - i,
{
    if 0 <= i < t.len() && t[i] == c {
        1 + run_len(t, i + 1, c)
    } else {
        0
    }
}

/// A fenced code opening: 3+ backticks or tildes after leading whitespace;
/// the fence byte and its run length.
pub open spec fn fence_spec(b: Seq<u8>) -> Option<(u8, int)> {
    let t = trim_start_bytes(b);
    if t.len() > 0 && (t[0] == 0x60 || t[0] == 0x7e) {
        let n = run_len(t, 0, t[0]);
        if n >= 3 {
            Some((t[0], n))
        } else {
            None
        }
    } else {
        None
    }
}

/// Kind of a line outside fenced code.
pub open spec fn single_kind(b: Seq<u8>) -> LineKind {
    if trim_bytes(b).len() == 0 {
        LineKind::Blank
    } else if has_quote_unit(prefix_units(b)) {
        LineKind::Blockquote
    } else if is_hr_line(b) {
        LineKind::HorizontalRule
    } else if heading_info_spec(b) is Some {
        LineKind::Heading { level: heading_info_spec(b).unwrap().0 as u8 }
    } else if list_skip_units(prefix_units(b)) is Some {
        LineKind::List { depth: list_depth_spec(b) as u32 }
    } else {
        LineKind::Paragraph
    }
}

/// Block kind of a non-blank single-line kind.
pub open spec fn block_kind_of(k: LineKind) -> BlockKind {
    match k {
        LineKind::Heading { level } => BlockKind::Heading { level },
        LineKind::List { depth } => BlockKind::ListItem { depth },
        LineKind::Blockquote => BlockKind::Blockquote,
        LineKind::HorizontalRule => BlockKind::HorizontalRule,
        _ => BlockKind::Paragraph,
    }
}

/// First line at or after `j` that closes a fence of byte `c` and length
/// `n` (same byte, at least as long); the line count when none does.
pub open spec fn fence_end(lines: Seq<String>, c: u8, n: int, j: int) -> int
    decreases lines.len() - j,
{
    if j < 0 || j >= lines.len() {
        lines.len() as int
    } else {
        match fence_spec(lb(lines[j])) {
            Some((c2, n2)) => if c2 == c && n2 >= n {
                j
            } else {
                fence_end(lines, c, n, j + 1)
            },
            None => fence_end(lines, c, n, j + 1),
        }
    }
}

pub proof fn lemma_fence_end(lines: Seq<String>, c: u8, n: int, j: int)
    requires
        0 <= j <= lines.len(),
    ensures
        j <= fence_end(lines, c, n, j) <= lines.len(),
    decreases lines.len() - j,
{
    if j < lines.len() {
        lemma_fence_end(lines, c, n, j + 1);
    }
}

/// Blocks of `lines[i..]` before merging: a fence opening spans to its
/// closing fence (or the end), blank lines make no block, every other line is
/// a one-line block of its kind.
pub open spec fn raw_blocks(lines: Seq<String>, i: int) -> Seq<Block>
    decreases lines.len() - i,
{
    if i < 0 || i >= lines.len() {
        Seq::empty()
    } else {
        match fence_spec(lb(lines[i])) {
            Some((c, n)) => {
                let j = fence_end(lines, c, n, i + 1);
                proof {
                    lemma_fence_end(lines, c, n, i + 1);
                }
                let end = if j < lines.len() {
                    j + 1
                } else {
                    lines.len() as int
                };
                seq![Block { kind: BlockKind::FencedCode, start: i as usize, end: end as usize }]
                    + raw_blocks(lines, end)
            },
            None => {
                let k = single_kind(lb(lines[i]));
                if k is Blank {
                    raw_blocks(lines, i + 1)
                } else {
                    seq![Block { kind: block_kind_of(k), start: i as usize, end: (i + 1) as usize }]
                        + raw_blocks(lines, i + 1)
                }
            },
        }
    }
}

/// Adjacent blocks of the same kind merge into one, except list items.
pub open spec fn merge(s: Seq<Block>) -> Seq<Block>
    decreases s.len(),
{
    if s.len() == 0 {
        Seq::empty()
    } else {
        let m = merge(s.drop_last());
        let b = s.last();
        if m.len() > 0 && m.last().kind == b.kind && m.last().end == b.start && !(
        m.last().kind is ListItem) {
            m.drop_last().push(Block { kind: m.last().kind, start: m.last().start, end: b.end })
        } else {
            m.push(b)
        }
    }
}

/// The block structure of a buffer.
pub open spec fn blocks_spec(lines: Seq<String>) -> Seq<Block> {
    merge(raw_blocks(lines, 0))
}

/// Blocks sorted, non-empty, disjoint and inside the buffer, all from `lo` on.
pub open spec fn well_placed(s: Seq<Block>, lo: int, len: int) -> bool {
    &&& forall|k: int| 0 <= k < s.len() ==> lo <= #[trigger] s[k].start < s[k].end <= len
    &&& forall|k1: int, k2: int|
        0 <= k1 < k2 < s.len() ==> #[trigger] s[k1].end <= #[trigger] s[k2].start
}

pub proof fn lemma_placed_weaken(s: Seq<Block>, lo: int, lo2: int, len: int)
    requires
        well_placed(s, lo, len),
        lo2 <= lo,
    ensures
        well_placed(s, lo2, len),
{
}

pub proof fn lemma_placed_prepend(b: Block, rest: Seq<Block>, lo: int, len: int)
    requires
        lo <= b.start < b.end <= len,
        well_placed(rest, b.end as int, len),
    ensures
        well_placed(seq![b] + rest, lo, len),
{
    let s = seq![b] + rest;
    assert forall|k: int| 0 <= k < s.len() implies lo <= #[trigger] s[k].start < s[k].end <= len by {
        if k > 0 {
            assert(s[k] == rest[k - 1]);
        }
    }
    assert forall|k1: int, k2: int| 0 <= k1 < k2 < s.len() implies #[trigger] s[k1].end
        <= #[trigger] s[k2].start by {
        assert(s[k2] == rest[k2 - 1]);
        if k1 > 0 {
            assert(s[k1] == rest[k1 - 1]);
        }
    }
}

pub proof fn lemma_raw_blocks_placed(lines: Seq<String>, i: int)
    requires
        0 <= i <= lines.len() <= usize::MAX,
    ensures
        well_placed(raw_blocks(lines, i), i, lines.len() as int),
    decreases lines.len() - i,
{
    if i < lines.len() {
        match fence_spec(lb(lines[i])) {
            Some((c, n)) => {
                let j = fence_end(lines, c, n, i + 1);
                lemma_fence_end(lines, c, n, i + 1);
                let end = if j < lines.len() {
                    j + 1
                } else {
                    lines.len() as int
                };
                lemma_raw_blocks_placed(lines, end);
                lemma_placed_prepend(
                    Block { kind: BlockKind::FencedCode, start: i as usize, end: end as usize },
                    raw_blocks(lines, end),
                    i,
                    lines.len() as int,
                );
            },
            None => {
                lemma_raw_blocks_placed(lines, i + 1);
                let k = single_kind(lb(lines[i]));
                if k is Blank {
                    lemma_placed_weaken(raw_blocks(lines, i + 1), i + 1, i, lines.len() as int);
                } else {
                    lemma_placed_prepend(
                        Block { kind: block_kind_of(k), start: i as usize, end: (i + 1) as usize },
                        raw_blocks(lines, i + 1),
                        i,
                        lines.len() as int,
                    );
                }
            },
        }
    }
}

pub proof fn lemma_merge_placed(s: Seq<Block>, lo: int, len: int)
    requires
        well_placed(s, lo, len),
    ensures
        well_placed(merge(s), lo, len),
        merge(s).len() <= s.len(),
        s.len() > 0 ==> merge(s).len() > 0 && merge(s).last().end == s.last().end,
    decreases s.len(),
{
    if s.len() > 0 {
        let p = s.drop_last();
        assert(well_placed(p, lo, len)) by {
            assert forall|k1: int, k2: int| 0 <= k1 < k2 < p.len() implies #[trigger] p[k1].end
                <= #[trigger] p[k2].start by {
                assert(s[k1].end <= s[k2].start);
            }
            assert forall|k: int| 0 <= k < p.len() implies lo <= #[trigger] p[k].start < p[k].end
                <= len by {
                assert(s[k] == p[k]);
            }
        }
        lemma_merge_placed(p, lo, len);
        let m = merge(p);
        let b = s.last();
        assert(lo <= s[s.len() - 1].start);
        if m.len() > 0 {
            assert(m.last().end == p.last().end);
            assert(s[s.len() - 2].end <= s[s.len() - 1].start);
        }
    }
}

/// Depth of a list marker line: one level per 2 leading columns (tabs = 2).
pub fn list_depth(line: &str) -> (r: u32)
    requires
        sb(line).len() < 0x8000_0000,
    ensures
        r == list_depth_spec(sb(line)),
{
    let b = line.as_bytes();
    let mut k: usize = 0;
    let mut c: u32 = 0;
    while k < b.len() && (b[k] == 0x20 || b[k] == 0x09)
        invariant
            k <= b@.len() < 0x8000_0000,
            c == cols(b@, k as int),
            c <= 2 * k,
            blank_end(b@, 0) == blank_end(b@, k as int),
        decreases b.len() - k,
    {
        if b[k] == 0x20 {
            c = c + 1;
        } else {
            c = c + 2;
        }
        k = k + 1;
    }
    c / 2
}

/// A fenced code opening: 3+ backticks or tildes at the start (after lazy
/// indentation); the fence character and its run length.
pub fn fence_opening(line: &str) -> (r: Option<(char, usize)>)
    ensures
        r == (match fence_spec(sb(line)) {
            Some((c, n)) => Some((c as char, n as usize)),
            None => None,
        }),
{
    match fence_bytes(line) {
        Some((c, n)) => Some((c as char, n)),
        None => None,
    }
}

/// [`fence_opening`] with the fence given as its byte.
fn fence_bytes(line: &str) -> (r: Option<(u8, usize)>)
    ensures
        r == (match fence_spec(sb(line)) {
            Some((c, n)) => Some((c, n as usize)),
            None => None,
        }),
        fence_spec(sb(line)) matches Some((c, n)) ==> 3 <= n <= sb(line).len() <= usize::MAX,
{
    let whole = line.as_bytes().len();
    assert(whole == sb(line).len());
    let t = trim_start(line);
    let b = t.as_bytes();
    if b.len() == 0 || (b[0] != 0x60 && b[0] != 0x7e) {
        return None;
    }
    let first = b[0];
    let mut n: usize = 1;
    while n < b.len() && b[n] == first
        invariant
            1 <= n <= b@.len(),
            first == b@[0],
            run_len(b@, 0, first) == n + run_len(b@, n as int, first),
        decreases b.len() - n,
    {
        n = n + 1;
    }
    proof {
        lemma_skip_ws_bounds(sb(line), 0);
    }
    if n >= 3 {
        Some((first, n))
    } else {
        None
    }
}

/// Kind of a line outside fenced code (see [`single_kind`]).
fn line_kind(line: &str) -> (r: LineKind)
    requires
        sb(line).len() < 0x8000_0000,
    ensures
        r == single_kind(sb(line)),
{
    if trim(line).as_bytes().len() == 0 {
        LineKind::Blank
    } else if is_blockquote(line) {
        LineKind::Blockquote
    } else if is_horizontal_rule(line) {
        LineKind::HorizontalRule
    } else if let Some((level, _)) = heading_info(line) {
        LineKind::Heading { level: level as u8 }
    } else if list_info(line).is_some() {
        LineKind::List { depth: list_depth(line) }
    } else {
        LineKind::Paragraph
    }
}

/// Parses the buffer into a flat list of blocks.
pub fn parse_blocks(lines: &[String]) -> (r: Vec<Block>)
    requires
        lines_ok(lines@),
    ensures
        r@ == blocks_spec(lines@),
        well_placed(r@, 0, lines@.len() as int),
{
    let n = lines.len();
    let mut blocks: Vec<Block> = Vec::new();
    let mut i: usize = 0;
    proof {
        assert(blocks@ + raw_blocks(lines@, 0) =~= raw_blocks(lines@, 0));
    }
    while i < n
        invariant
            n == lines@.len(),
            lines_ok(lines@),
            i <= n,
            blocks@ + raw_blocks(lines@, i as int) == raw_blocks(lines@, 0),
        decreases n - i,
    {
        let line = lines[i].as_str();
        assert(lb(lines@[i as int]) == sb(line));
        if let Some((fence_char, fence_len)) = fence_bytes(line) {
            let ghost c = fence_spec(sb(line)).unwrap().0;
            let ghost fl = fence_spec(sb(line)).unwrap().1;
            let mut j = i + 1;
            while j < n
                invariant
                    n == lines@.len(),
                    i < j <= n,
                    fence_char == c,
                    lines_ok(lines@),
                    3 <= fl < 0x8000_0000,
                    fence_len == fl as usize,
                    fence_end(lines@, c, fl, (i + 1) as int) == fence_end(lines@, c, fl, j as int),
                ensures
                    i < j <= n,
                    j == fence_end(lines@, c, fl, (i + 1) as int),
                decreases n - j,
            {
                let lj = lines[j].as_str();
                assert(lb(lines@[j as int]) == sb(lj));
                if let Some((c2, n2)) = fence_bytes(lj) {
                    if c2 == fence_char && n2 >= fence_len {
                        break;
                    }
                }
                j = j + 1;
            }
            let end = if j < n {
                j + 1
            } else {
                n
            };
            let ghost before = blocks@;
            blocks.push(Block { kind: BlockKind::FencedCode, start: i, end });
            proof {
                assert(blocks@ + raw_blocks(lines@, end as int) =~= before + raw_blocks(
                    lines@,
                    i as int,
                ));
            }
            i = end;
            continue ;
        }
        let kind = line_kind(line);
        if kind == LineKind::Blank {
            i = i + 1;
            continue ;
        }
        let bk = match kind {
            LineKind::Heading { level } => BlockKind::Heading { level },
            LineKind::List { depth } => BlockKind::ListItem { depth },
            LineKind::Blockquote => BlockKind::Blockquote,
            LineKind::HorizontalRule => BlockKind::HorizontalRule,
            _ => BlockKind::Paragraph,
        };
        let ghost before = blocks@;
        blocks.push(Block { kind: bk, start: i, end: i + 1 });
        proof {
            assert(blocks@ + raw_blocks(lines@, i + 1) =~= before + raw_blocks(lines@, i as int));
        }
        i = i + 1;
    }
    proof {
        assert(blocks@ =~= raw_blocks(lines@, 0));
        lemma_raw_blocks_placed(lines@, 0);
        lemma_merge_placed(blocks@, 0, n as int);
    }
    merge_adjacent(blocks)
}

/// Merges adjacent blocks of the same kind (list items stay separate).
pub fn merge_adjacent(blocks: Vec<Block>) -> (r: Vec<Block>)
    ensures
        r@ == merge(blocks@),
{
    let mut out: Vec<Block> = Vec::new();
    let mut k: usize = 0;
    proof {
        assert(blocks@.take(0) =~= Seq::<Block>::empty());
    }
    while k < blocks.len()
        invariant
            k <= blocks@.len(),
            out@ == merge(blocks@.take(k as int)),
        decreases blocks.len() - k,
    {
        let b = blocks[k];
        proof {
            assert(blocks@.take(k + 1).drop_last() =~= blocks@.take(k as int));
            assert(blocks@.take(k + 1).last() == b);
        }
        let ol = out.len();
        if ol > 0 {
            let last = out[ol - 1];
            if last.kind == b.kind && last.end == b.start && !matches!(last.kind, BlockKind::ListItem { .. }) {
                out.set(ol - 1, Block { kind: last.kind, start: last.start, end: b.end });
                proof {
                    assert(out@ =~= merge(blocks@.take(k + 1)));
                }
                k = k + 1;
                continue ;
            }
        }
        out.push(b);
        proof {
            assert(out@ =~= merge(blocks@.take(k + 1)));
        }
        k = k + 1;
    }
    proof {
        assert(blocks@.take(k as int) =~= blocks@);
    }
    out
}

/// First byte of a fence block's opening line after its indentation; a
/// backtick when the line is empty.
pub open spec fn fence_lead(lines: Seq<String>, block: Block) -> u8 {
    let t = trim_start_bytes(lb(lines[block.start as int]));
    if t.len() == 0 {
        0x60
    } else {
        t[0]
    }
}

/// The last line of a multi-line fence block is a closing fence of the same
/// character.
pub open spec fn last_is_delimiter(lines: Seq<String>, block: Block) -> bool {
    &&& block.end > block.start + 1
    &&& match fence_spec(lb(lines[block.end - 1])) {
        Some((c, n)) => c == fence_lead(lines, block) && n >= 3,
        None => false,
    }
}

/// Kind of line `line` inside `block`.
pub open spec fn from_block_spec(lines: Seq<String>, block: Block, line: int) -> LineKind {
    match block.kind {
        BlockKind::Paragraph => LineKind::Paragraph,
        BlockKind::Heading { level } => LineKind::Heading { level },
        BlockKind::HorizontalRule => LineKind::HorizontalRule,
        BlockKind::Blockquote => LineKind::Blockquote,
        BlockKind::ListItem { depth } => LineKind::List { depth },
        BlockKind::FencedCode => if block.start == line || (line == block.end - 1
            && last_is_delimiter(lines, block)) {
            LineKind::FenceDelimiter
        } else {
            LineKind::FencedCode
        },
    }
}

/// Whether a multi-line fence block ends with a closing fence line.
pub fn is_last_fence_delimiter(block: &Block, lines: &[String]) -> (r: bool)
    requires
        block.start < block.end <= lines@.len(),
    ensures
        r == last_is_delimiter(lines@, *block),
{
    if block.end <= block.start + 1 {
        return false;
    }
    let line = lines[block.end - 1].as_str();
    let first = trim_start(lines[block.start].as_str()).as_bytes();
    let first_char: u8 = if first.len() == 0 {
        0x60
    } else {
        first[0]
    };
    match fence_bytes(line) {
        Some((c, n)) => c == first_char && n >= 3,
        None => false,
    }
}

impl LineKind {
    /// The line is blank.
    pub fn is_blank(self) -> (r: bool)
        ensures
            r == (self is Blank),
    {
        matches!(self, LineKind::Blank)
    }

    /// Kind of line `line` inside `block`.
    pub fn from_block(block: &Block, line: usize, lines: &[String]) -> (r: LineKind)
        requires
            block.start < block.end <= lines@.len(),
        ensures
            r == from_block_spec(lines@, *block, line as int),
    {
        match block.kind {
            BlockKind::Paragraph => LineKind::Paragraph,
            BlockKind::Heading { level } => LineKind::Heading { level },
            BlockKind::HorizontalRule => LineKind::HorizontalRule,
            BlockKind::Blockquote => LineKind::Blockquote,
            BlockKind::ListItem { depth } => LineKind::List { depth },
            BlockKind::FencedCode => {
                let is_first = block.start == line;
                let is_last = line == block.end - 1;
                if is_first || (is_last && is_last_fence_delimiter(block, lines)) {
                    LineKind::FenceDelimiter
                } else {
                    LineKind::FencedCode
                }
            },
        }
    }
}

/// The kind of line `l`: that of the block holding it, or blank outside
/// every block.
pub open spec fn kind_at(lines: Seq<String>, l: int) -> LineKind {
    let bs = blocks_spec(lines);
    if exists|k: int| 0 <= k < bs.len() && #[trigger] bs[k].start <= l < bs[k].end {
        let k = choose|k: int| 0 <= k < bs.len() && #[trigger] bs[k].start <= l < bs[k].end;
        from_block_spec(lines, bs[k], l)
    } else {
        LineKind::Blank
    }
}

/// Per-line classification of the whole buffer: each line takes its kind
/// from the block holding it; lines in no block are blank.
pub fn classify(lines: &[String]) -> (r: Vec<LineKind>)
    requires
        lines_ok(lines@),
    ensures
        r@.len() == lines@.len(),
        forall|l: int| 0 <= l < lines@.len() ==> #[trigger] r@[l] == kind_at(lines@, l),
        forall|k: int, l: int|
            0 <= k < blocks_spec(lines@).len() && blocks_spec(lines@)[k].start <= l
                < blocks_spec(lines@)[k].end ==> #[trigger] r@[l] == from_block_spec(
                lines@,
                #[trigger] blocks_spec(lines@)[k],
                l,
            ),
        forall|l: int|
            0 <= l < lines@.len() && (forall|k: int|
                0 <= k < blocks_spec(lines@).len() ==> !(#[trigger] blocks_spec(lines@)[k].start
                    <= l < blocks_spec(lines@)[k].end)) ==> #[trigger] r@[l] == LineKind::Blank,
{
    let blocks = parse_blocks(lines);
    let ghost bs = blocks@;
    let n = lines.len();
    let mut kinds: Vec<LineKind> = vec![LineKind::Blank; n];
    let mut k: usize = 0;
    while k < blocks.len()
        invariant
            bs == blocks@,
            bs == blocks_spec(lines@),
            well_placed(bs, 0, n as int),
            n == lines@.len(),
            kinds@.len() == n,
            k <= bs.len(),
            forall|k2: int, l: int|
                0 <= k2 < k && bs[k2].start <= l < bs[k2].end ==> #[trigger] kinds@[l]
                    == from_block_spec(lines@, #[trigger] bs[k2], l),
            forall|l: int|
                0 <= l < n && (forall|k2: int|
                    0 <= k2 < k ==> !(#[trigger] bs[k2].start <= l < bs[k2].end))
                    ==> #[trigger] kinds@[l] == LineKind::Blank,
        decreases bs.len() - k,
    {
        let block = blocks[k];
        assert(block == bs[k as int]);
        let mut t = block.start;
        while t < block.end
            invariant
                bs == blocks@,
                well_placed(bs, 0, n as int),
                n == lines@.len(),
                kinds@.len() == n,
                k < bs.len(),
                block == bs[k as int],
                block.start <= t <= block.end,
                forall|k2: int, l: int|
                    0 <= k2 < k && bs[k2].start <= l < bs[k2].end ==> #[trigger] kinds@[l]
                        == from_block_spec(lines@, #[trigger] bs[k2], l),
                forall|l: int|
                    block.start <= l < t ==> #[trigger] kinds@[l] == from_block_spec(
                        lines@,
                        block,
                        l,
                    ),
                forall|l: int|
                    0 <= l < n && !(block.start <= l < t) && (forall|k2: int|
                        0 <= k2 < k ==> !(#[trigger] bs[k2].start <= l < bs[k2].end))
                        ==> #[trigger] kinds@[l] == LineKind::Blank,
            decreases block.end - t,
        {
            let kind = LineKind::from_block(&block, t, lines);
            proof {
                assert forall|k2: int| 0 <= k2 < k implies !(#[trigger] bs[k2].start <= t
                    < bs[k2].end) by {
                    assert(bs[k2].end <= bs[k as int].start);
                }
            }
            kinds.set(t, kind);
            t = t + 1;
        }
        proof {
            assert forall|k2: int, l: int|
                0 <= k2 < k + 1 && bs[k2].start <= l < bs[k2].end implies #[trigger] kinds@[l]
                == from_block_spec(lines@, #[trigger] bs[k2], l) by {
                if k2 == k {
                } else {
                    assert(bs[k2].end <= bs[k as int].start);
                }
            }
        }
        k = k + 1;
    }
    assert forall|l: int| 0 <= l < lines@.len() implies #[trigger] kinds@[l] == kind_at(lines@, l) by {
        if exists|k2: int| 0 <= k2 < bs.len() && #[trigger] bs[k2].start <= l < bs[k2].end {
            let k2 = choose|k2: int| 0 <= k2 < bs.len() && #[trigger] bs[k2].start <= l < bs[k2].end;
            assert(kinds@[l] == from_block_spec(lines@, bs[k2], l));
        }
    }
    kinds
}

} // verus!
