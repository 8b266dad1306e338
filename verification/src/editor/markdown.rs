//! Line-level markdown: inline segments (wikilinks, code, emphasis) and the
//! display-only prefix markers at the start of a line (indent, quote rails,
//! list markers, ATX headings, thematic breaks).

use crate::editor::images::{image_target_spec, is_image_target};
use crate::strings::{
    lemma_skip_ws_bounds, trim, trim_bytes, trim_start, trim_start_bytes, skip_ws, skip_ws_exec, ws_len_at, ws_len_at_exec, lemma_ascii_boundary, lemma_ends_boundary, lemma_utf8_concat, push_str, sb, str_slice, to_string,
    empty_string, utf8, push_ascii, contains_bytes, contains_exec,
};
use vstd::prelude::*;
use vstd::utf8::*;

verus! {

broadcast use vstd::utf8::group_utf8_lib;

#[derive(Debug, Clone, Copy, PartialEq, Eq)]
pub enum SegmentStyle {
    Plain,
    Link,
    Code,
    Bold,
    Italic,
}

#[derive(Debug, Clone, PartialEq, Eq)]
pub struct Segment {
    pub text: String,
    pub style: SegmentStyle,
}

/// A segment is modelled by the UTF-8 bytes of its text and its style.
pub type SegView = (Seq<u8>, SegmentStyle);

impl View for Segment {
    type V = SegView;

    open spec fn view(&self) -> SegView {
        (utf8(self.text@), self.style)
    }
}

/// Byte views of a list of segments.
pub open spec fn seg_views(v: Seq<Segment>) -> Seq<SegView> {
    v.map_values(|s: Segment| s@)
}

/// Position just past the first `x y` pair at or after `j`.
pub open spec fn closer2(b: Seq<u8>, j: int, x: u8, y: u8) -> Option<int>
    decreases b.len() - j,
{
    if 0 <= j && j + 1 < b.len() {
        if b[j] == x && b[j + 1] == y {
            Some(j + 2)
        } else {
            closer2(b, j + 1, x, y)
        }
    } else {
        None
    }
}

/// Position of the first `c` at or after `j`.
pub open spec fn closer1(b: Seq<u8>, j: int, c: u8) -> Option<int>
    decreases b.len() - j,
{
    if 0 <= j < b.len() {
        if b[j] == c {
            Some(j)
        } else {
            closer1(b, j + 1, c)
        }
    } else {
        None
    }
}

/// Position of the first emphasis closer `c` at or after `j`; a doubled
/// marker needs a doubled closer.
pub open spec fn emph_close(b: Seq<u8>, j: int, c: u8, doubled: bool) -> Option<int>
    decreases b.len() - j,
{
    if 0 <= j < b.len() {
        if b[j] == c && (!doubled || (j + 1 < b.len() && b[j + 1] == c)) {
            Some(j)
        } else {
            emph_close(b, j + 1, c, doubled)
        }
    } else {
        None
    }
}

pub proof fn lemma_closer2(b: Seq<u8>, j: int, x: u8, y: u8)
    requires
        0 <= j,
    ensures
        closer2(b, j, x, y) matches Some(k) ==> j + 2 <= k <= b.len() && b[k - 2] == x && b[k
            - 1] == y,
    decreases b.len() - j,
{
    if 0 <= j && j + 1 < b.len() && !(b[j] == x && b[j + 1] == y) {
        lemma_closer2(b, j + 1, x, y);
    }
}

pub proof fn lemma_closer1(b: Seq<u8>, j: int, c: u8)
    requires
        0 <= j,
    ensures
        closer1(b, j, c) matches Some(k) ==> j <= k < b.len() && b[k] == c,
    decreases b.len() - j,
{
    if 0 <= j < b.len() && b[j] != c {
        lemma_closer1(b, j + 1, c);
    }
}

pub proof fn lemma_emph_close(b: Seq<u8>, j: int, c: u8, doubled: bool)
    requires
        0 <= j,
    ensures
        emph_close(b, j, c, doubled) matches Some(k) ==> j <= k < b.len() && b[k] == c && (
        doubled ==> k + 1 < b.len() && b[k + 1] == c),
    decreases b.len() - j,
{
    if 0 <= j < b.len() && !(b[j] == c && (!doubled || (j + 1 < b.len() && b[j + 1] == c))) {
        lemma_emph_close(b, j + 1, c, doubled);
    }
}

/// A wikilink target with every trailing `.md` removed
/// (`trim_end_matches(".md")`).
pub open spec fn trim_md(x: Seq<u8>) -> Seq<u8>
    decreases x.len(),
{
    if x.len() >= 3 && x[x.len() - 3] == 0x2e && x[x.len() - 2] == 0x6d && x[x.len() - 1]
        == 0x64 {
        trim_md(x.subrange(0, x.len() - 3))
    } else {
        x
    }
}

/// `[[` + target + `]]` shape of a link.
pub open spec fn is_link_shape(t: Seq<u8>) -> bool {
    t.len() >= 4 && t[0] == 0x5b && t[1] == 0x5b && t[t.len() - 2] == 0x5d && t[t.len() - 1]
        == 0x5d
}

/// How a wikilink is displayed: its `.md` extension is hidden.
pub open spec fn display_link_bytes(t: Seq<u8>) -> Seq<u8> {
    if is_link_shape(t) {
        t.subrange(0, 2) + trim_md(t.subrange(2, t.len() - 2)) + t.subrange(
            t.len() - 2,
            t.len() as int,
        )
    } else {
        t
    }
}

/// A plain segment for `b[p..e]`, when non-empty.
pub open spec fn flush(b: Seq<u8>, p: int, e: int) -> Seq<SegView> {
    if p < e {
        seq![(b.subrange(p, e), SegmentStyle::Plain)]
    } else {
        Seq::empty()
    }
}

/// Concatenated texts of segments.
pub open spec fn concat_texts(s: Seq<SegView>) -> Seq<u8>
    decreases s.len(),
{
    if s.len() == 0 {
        Seq::empty()
    } else {
        concat_texts(s.drop_last()) + s.last().0
    }
}

/// The inline tokenizer: segments of `b` from byte `i` on, with the pending
/// plain run starting at `p`. Links and code keep their markers, emphasis is
/// replaced by its (recursively stripped) content, unclosed markers stay
/// plain.
#[verifier::opaque]
pub open spec fn scan(b: Seq<u8>, p: int, i: int) -> Seq<SegView>
    decreases b.len(), b.len() - i,
{
    if i < 0 || i >= b.len() {
        flush(b, p, b.len() as int)
    } else if b[i] == 0x5b && i + 1 < b.len() && b[i + 1] == 0x5b {
        proof {
            lemma_closer2(b, i + 2, 0x5d, 0x5d);
        }
        match closer2(b, i + 2, 0x5d, 0x5d) {
            Some(le) => flush(b, p, i) + seq![
                (display_link_bytes(b.subrange(i, le)), SegmentStyle::Link),
            ] + scan(b, le, le),
            None => scan(b, p, i + 1),
        }
    } else if b[i] == 0x60 {
        proof {
            lemma_closer1(b, i + 1, 0x60);
        }
        match closer1(b, i + 1, 0x60) {
            Some(ce) => flush(b, p, i) + seq![(b.subrange(i, ce + 1), SegmentStyle::Code)] + scan(
                b,
                ce + 1,
                ce + 1,
            ),
            None => scan(b, p, i + 1),
        }
    } else if b[i] == 0x2a || b[i] == 0x5f {
        let doubled = i + 1 < b.len() && b[i + 1] == b[i];
        let m: int = if doubled {
            2
        } else {
            1
        };
        let style = if doubled {
            SegmentStyle::Bold
        } else {
            SegmentStyle::Italic
        };
        proof {
            lemma_emph_close(b, i + m, b[i], doubled);
        }
        match emph_close(b, i + m, b[i], doubled) {
            Some(j) => flush(b, p, i) + seq![(strip(b.subrange(i + m, j)), style)] + scan(
                b,
                j + m,
                j + m,
            ),
            None => scan(b, p, i + 1),
        }
    } else {
        scan(b, p, i + 1)
    }
}

/// Visible text of a line: the texts of its segments, concatenated.
pub open spec fn strip(b: Seq<u8>) -> Seq<u8>
    decreases b.len(), b.len() + 1,
{
    concat_texts(scan(b, 0, 0))
}

/// One step of [`scan`] on a byte that opens nothing.
pub proof fn lemma_scan_skip(b: Seq<u8>, p: int, i: int)
    requires
        0 <= i < b.len(),
        !(b[i] == 0x5b && i + 1 < b.len() && b[i + 1] == 0x5b && closer2(b, i + 2, 0x5d, 0x5d)
            is Some),
        !(b[i] == 0x60 && closer1(b, i + 1, 0x60) is Some),
        !((b[i] == 0x2a || b[i] == 0x5f) && emph_close(
            b,
            i + (if i + 1 < b.len() && b[i + 1] == b[i] {
                2int
            } else {
                1int
            }),
            b[i],
            i + 1 < b.len() && b[i + 1] == b[i],
        ) is Some),
    ensures
        scan(b, p, i) == scan(b, p, i + 1),
{
    reveal(scan);
}

/// One step of [`scan`] on a closed wikilink.
pub proof fn lemma_scan_link(b: Seq<u8>, p: int, i: int, le: int)
    requires
        0 <= i < b.len(),
        b[i] == 0x5b && i + 1 < b.len() && b[i + 1] == 0x5b,
        closer2(b, i + 2, 0x5d, 0x5d) == Some(le),
    ensures
        scan(b, p, i) == flush(b, p, i) + seq![
            (display_link_bytes(b.subrange(i, le)), SegmentStyle::Link),
        ] + scan(b, le, le),
{
    reveal(scan);
}

/// One step of [`scan`] on a closed code span.
pub proof fn lemma_scan_code(b: Seq<u8>, p: int, i: int, ce: int)
    requires
        0 <= i < b.len(),
        !(b[i] == 0x5b && i + 1 < b.len() && b[i + 1] == 0x5b),
        b[i] == 0x60,
        closer1(b, i + 1, 0x60) == Some(ce),
    ensures
        scan(b, p, i) == flush(b, p, i) + seq![(b.subrange(i, ce + 1), SegmentStyle::Code)]
            + scan(b, ce + 1, ce + 1),
{
    reveal(scan);
}

/// One step of [`scan`] on closed emphasis.
pub proof fn lemma_scan_emph(b: Seq<u8>, p: int, i: int, m: int, j: int, style: SegmentStyle)
    requires
        0 <= i < b.len(),
        b[i] == 0x2a || b[i] == 0x5f,
        m == (if i + 1 < b.len() && b[i + 1] == b[i] {
            2int
        } else {
            1int
        }),
        style == (if m == 2 {
            SegmentStyle::Bold
        } else {
            SegmentStyle::Italic
        }),
        emph_close(b, i + m, b[i], m == 2) == Some(j),
    ensures
        scan(b, p, i) == flush(b, p, i) + seq![(strip(b.subrange(i + m, j)), style)] + scan(
            b,
            j + m,
            j + m,
        ),
{
    reveal(scan);
}

/// [`scan`] at the end of the line flushes the pending plain run.
pub proof fn lemma_scan_end(b: Seq<u8>, p: int)
    ensures
        scan(b, p, b.len() as int) == flush(b, p, b.len() as int),
{
    reveal(scan);
}

/// Segments of a whole line.
pub open spec fn segments(b: Seq<u8>) -> Seq<SegView> {
    scan(b, 0, 0)
}

/// A found position as an index.
pub open spec fn as_index(o: Option<int>) -> Option<usize> {
    match o {
        Some(k) => Some(k as usize),
        None => None,
    }
}

/// Position just past the first `a b` pair at or after `from`.
pub fn find_closer_bytes(bytes: &[u8], from: usize, a: u8, b: u8) -> (r: Option<usize>)
    ensures
        r == as_index(closer2(bytes@, from as int, a, b)),
{
    let mut j = from;
    while j < bytes.len() && bytes.len() - j > 1
        invariant
            from <= j,
            closer2(bytes@, from as int, a, b) == closer2(bytes@, j as int, a, b),
        decreases bytes.len() - j,
    {
        if bytes[j] == a && bytes[j + 1] == b {
            return Some(j + 2);
        }
        j = j + 1;
    }
    None
}

/// Position of the first `c` at or after `from`.
pub fn find_closer_single(bytes: &[u8], from: usize, c: u8) -> (r: Option<usize>)
    ensures
        r == as_index(closer1(bytes@, from as int, c)),
{
    let mut j = from;
    while j < bytes.len()
        invariant
            from <= j,
            closer1(bytes@, from as int, c) == closer1(bytes@, j as int, c),
        decreases bytes.len() - j,
    {
        if bytes[j] == c {
            return Some(j);
        }
        j = j + 1;
    }
    None
}

/// `**`/`__` open bold (2 bytes), `*`/`_` italic (1 byte).
pub fn emphasis_marker(bytes: &[u8], i: usize) -> (r: Option<(usize, SegmentStyle)>)
    requires
        i < bytes@.len(),
    ensures
        r == (if bytes@[i as int] == 0x2a || bytes@[i as int] == 0x5f {
            if i + 1 < bytes@.len() && bytes@[i + 1] == bytes@[i as int] {
                Some((2usize, SegmentStyle::Bold))
            } else {
                Some((1usize, SegmentStyle::Italic))
            }
        } else {
            None::<(usize, SegmentStyle)>
        }),
{
    let c = bytes[i];
    if c != 0x2a && c != 0x5f {
        return None;
    }
    if i + 1 < bytes.len() && bytes[i + 1] == c {
        Some((2, SegmentStyle::Bold))
    } else {
        Some((1, SegmentStyle::Italic))
    }
}

/// Position of an emphasis closer for `marker` (its first byte, doubled
/// when the marker is two bytes long) at or after `from`.
pub fn find_emphasis_close(bytes: &[u8], from: usize, marker: &str) -> (r: Option<usize>)
    requires
        1 <= sb(marker).len() <= 2,
    ensures
        r == as_index(emph_close(bytes@, from as int, sb(marker)[0], sb(marker).len() == 2)),
{
    let c = marker.as_bytes()[0];
    let doubled = marker.len() == 2;
    let mut j = from;
    while j < bytes.len()
        invariant
            from <= j,
            c == sb(marker)[0],
            doubled == (sb(marker).len() == 2),
            emph_close(bytes@, from as int, c, doubled) == emph_close(
                bytes@,
                j as int,
                c,
                doubled,
            ),
        decreases bytes.len() - j,
    {
        if bytes[j] == c && (!doubled || (j + 1 < bytes.len() && bytes[j + 1] == c)) {
            return Some(j);
        }
        j = j + 1;
    }
    None
}

/// The display form of a wikilink: the `.md` extension is hidden, so
/// `[[alpha.md]]` draws as `[[alpha]]`.
pub fn display_link(text: &str) -> (r: String)
    ensures
        utf8(r@) == display_link_bytes(sb(text)),
{
    let b = text.as_bytes();
    let n = b.len();
    if n >= 4 && b[0] == 0x5b && b[1] == 0x5b && b[n - 2] == 0x5d && b[n - 1] == 0x5d {
        let ghost t = b@;
        let mut e = n - 2;
        while e >= 5 && b[e - 3] == 0x2e && b[e - 2] == 0x6d && b[e - 1] == 0x64
            invariant
                2 <= e <= n - 2,
                n == t.len(),
                t == b@,
                e == n - 2 || t[e as int] == 0x2e,
                trim_md(t.subrange(2, n - 2)) == trim_md(t.subrange(2, e as int)),
            decreases e,
        {
            assert(t.subrange(2, e as int).subrange(0, e - 5) =~= t.subrange(2, e - 3));
            e = e - 3;
        }
        proof {
            lemma_ends_boundary(t);
            lemma_ascii_boundary(t, 1);
            lemma_ascii_boundary(t, n - 2);
            lemma_ascii_boundary(t, e as int);
        }
        let mut out = to_string(str_slice(text, 0, 2));
        push_str(&mut out, str_slice(text, 2, e));
        push_str(&mut out, str_slice(text, n - 2, n));
        out
    } else {
        to_string(text)
    }
}

fn flush_plain(segments: &mut Vec<Segment>, line: &str, start: usize, end: usize)
    requires
        start <= end <= sb(line).len(),
        is_char_boundary(sb(line), start as int),
        is_char_boundary(sb(line), end as int),
    ensures
        seg_views(final(segments)@) == seg_views(old(segments)@) + flush(
            sb(line),
            start as int,
            end as int,
        ),
{
    let ghost before = segments@;
    if start < end {
        let text = to_string(str_slice(line, start, end));
        segments.push(Segment { text, style: SegmentStyle::Plain });
        assert(seg_views(segments@) =~= seg_views(before) + flush(
            sb(line),
            start as int,
            end as int,
        ));
    } else {
        assert(seg_views(segments@) =~= seg_views(before) + flush(
            sb(line),
            start as int,
            end as int,
        ));
    }
}

/// Splits a line into styled segments: `[[wikilink]]` (Link) and `` `code` ``
/// (Code) keep their markers; emphasis (`**bold**`, `__bold__`, `*italic*`,
/// `_italic_`) drops its markers. Unclosed markers stay plain.
#[verifier::rlimit(60)]
pub fn line_segments(line: &str) -> (r: Vec<Segment>)
    ensures
        seg_views(r@) == segments(sb(line)),
    decreases sb(line).len(), 0int,
{
    let bytes = line.as_bytes();
    let n = bytes.len();
    let ghost b = bytes@;
    let mut segs: Vec<Segment> = Vec::new();
    let mut plain_start: usize = 0;
    let mut i: usize = 0;
    proof {
        lemma_ends_boundary(b);
        assert(seg_views(segs@) =~= Seq::<SegView>::empty());
    }
    while i < n
        invariant
            b == bytes@,
            b == sb(line),
            n == b.len(),
            valid_utf8(b),
            plain_start <= i <= n,
            is_char_boundary(b, plain_start as int),
            is_char_boundary(b, n as int),
            seg_views(segs@) + scan(b, plain_start as int, i as int) == segments(b),
        decreases n - i,
    {
        let ghost before = seg_views(segs@);
        let ghost ps = plain_start as int;
        if bytes[i] == 0x5b && i + 1 < n && bytes[i + 1] == 0x5b {
            proof {
                lemma_closer2(b, i + 2, 0x5d, 0x5d);
            }
            match find_closer_bytes(bytes, i + 2, 0x5d, 0x5d) {
                Some(le) => {
                    proof {
                        lemma_ascii_boundary(b, i as int);
                        lemma_ascii_boundary(b, le - 1);
                        lemma_scan_link(b, ps, i as int, le as int);
                    }
                    flush_plain(&mut segs, line, plain_start, i);
                    let text = display_link(str_slice(line, i, le));
                    segs.push(Segment { text, style: SegmentStyle::Link });
                    proof {
                        let tail = seq![
                            (display_link_bytes(b.subrange(i as int, le as int)), SegmentStyle::Link),
                        ];
                        assert(seg_views(segs@) =~= before + flush(b, ps, i as int) + tail);
                        assert(seg_views(segs@) + scan(b, le as int, le as int) =~= before + (
                        flush(b, ps, i as int) + tail + scan(b, le as int, le as int)));
                    }
                    plain_start = le;
                    i = le;
                },
                None => {
                    proof {
                        lemma_scan_skip(b, ps, i as int);
                    }
                    i = i + 1;
                },
            }
        } else if bytes[i] == 0x60 {
            proof {
                lemma_closer1(b, i + 1, 0x60);
            }
            match find_closer_single(bytes, i + 1, 0x60) {
                Some(ce) => {
                    proof {
                        lemma_ascii_boundary(b, i as int);
                        lemma_ascii_boundary(b, ce as int);
                        lemma_scan_code(b, ps, i as int, ce as int);
                    }
                    flush_plain(&mut segs, line, plain_start, i);
                    let text = to_string(str_slice(line, i, ce + 1));
                    segs.push(Segment { text, style: SegmentStyle::Code });
                    proof {
                        let tail = seq![(b.subrange(i as int, ce + 1), SegmentStyle::Code)];
                        assert(seg_views(segs@) =~= before + flush(b, ps, i as int) + tail);
                        assert(seg_views(segs@) + scan(b, ce + 1, ce + 1) =~= before + (flush(
                            b,
                            ps,
                            i as int,
                        ) + tail + scan(b, ce + 1, ce + 1)));
                    }
                    plain_start = ce + 1;
                    i = ce + 1;
                },
                None => {
                    proof {
                        lemma_scan_skip(b, ps, i as int);
                    }
                    i = i + 1;
                },
            }
        } else {
            match emphasis_marker(bytes, i) {
                Some((m_len, style)) => {
                    proof {
                        lemma_ascii_boundary(b, i as int);
                        lemma_ascii_boundary(b, i + m_len - 1);
                    }
                    let mk = str_slice(line, i, i + m_len);
                    assert(sb(mk)[0] == b[i as int]);
                    proof {
                        lemma_emph_close(b, (i + m_len) as int, b[i as int], m_len == 2);
                    }
                    match find_emphasis_close(bytes, i + m_len, mk) {
                        Some(j) => {
                            proof {
                                lemma_ascii_boundary(b, j as int);
                                lemma_ascii_boundary(b, j + m_len - 1);
                                lemma_scan_emph(b, ps, i as int, m_len as int, j as int, style);
                            }
                            flush_plain(&mut segs, line, plain_start, i);
                            let text = strip_inline(str_slice(line, i + m_len, j));
                            segs.push(Segment { text, style });
                            proof {
                                let tail = seq![(strip(b.subrange(i + m_len, j as int)), style)];
                                assert(seg_views(segs@) =~= before + flush(b, ps, i as int) + tail);
                                assert(seg_views(segs@) + scan(b, j + m_len, j + m_len) =~= before
                                    + (flush(b, ps, i as int) + tail + scan(
                                    b,
                                    j + m_len,
                                    j + m_len,
                                )));
                            }
                            plain_start = j + m_len;
                            i = j + m_len;
                        },
                        None => {
                            proof {
                                lemma_scan_skip(b, ps, i as int);
                            }
                            i = i + 1;
                        },
                    }
                },
                None => {
                    proof {
                        lemma_scan_skip(b, ps, i as int);
                    }
                    i = i + 1;
                },
            }
        }
    }
    let ghost before = seg_views(segs@);
    flush_plain(&mut segs, line, plain_start, n);
    proof {
        lemma_scan_end(b, plain_start as int);
        assert(seg_views(segs@) =~= before + scan(b, plain_start as int, n as int));
    }
    segs
}

/// Visible text of a line: markers stripped, links and code kept as-is.
pub fn strip_inline(line: &str) -> (r: String)
    ensures
        utf8(r@) == strip(sb(line)),
    decreases sb(line).len(), 1int,
{
    let segs = line_segments(line);
    let mut out = empty_string();
    let mut k: usize = 0;
    while k < segs.len()
        invariant
            k <= segs@.len(),
            seg_views(segs@) == segments(sb(line)),
            utf8(out@) == concat_texts(seg_views(segs@).take(k as int)),
        decreases segs.len() - k,
    {
        push_str(&mut out, segs[k].text.as_str());
        proof {
            let v = seg_views(segs@);
            assert(v.take(k + 1).drop_last() =~= v.take(k as int));
            assert(v.take(k + 1).last() == v[k as int]);
        }
        k = k + 1;
    }
    proof {
        let v = seg_views(segs@);
        assert(v.take(k as int) =~= v);
        reveal(scan);
        assert(strip(sb(line)) == concat_texts(segments(sb(line))));
    }
    out
}

/// Source view: the whole line as one plain segment.
pub fn raw_segments(line: &str) -> (r: Vec<Segment>)
    ensures
        seg_views(r@) == seq![(sb(line), SegmentStyle::Plain)],
{
    let mut v = Vec::new();
    v.push(Segment { text: to_string(line), style: SegmentStyle::Plain });
    assert(seg_views(v@) =~= seq![(sb(line), SegmentStyle::Plain)]);
    v
}

/// The segments drawn for `line`: formatted markdown when `format`, the raw
/// source otherwise.
pub fn render_line(line: &str, format: bool) -> (r: Vec<Segment>)
    ensures
        seg_views(r@) == (if format {
            segments(sb(line))
        } else {
            seq![(sb(line), SegmentStyle::Plain)]
        }),
{
    if format {
        line_segments(line)
    } else {
        raw_segments(line)
    }
}

/// What is measured is what is drawn: the texts of the segments
/// `render_line` draws, concatenated, are the text `measure_line` returns,
/// in both modes. The caret's pixel position and the drawn line never
/// disagree.
pub proof fn lemma_measure_matches_render(b: Seq<u8>, format: bool)
    ensures
        concat_texts(
            if format {
                segments(b)
            } else {
                seq![(b, SegmentStyle::Plain)]
            },
        ) == (if format {
            strip(b)
        } else {
            b
        }),
{
    if format {
        reveal(scan);
        assert(strip(b) == concat_texts(segments(b)));
    } else {
        let s = seq![(b, SegmentStyle::Plain)];
        assert(s.drop_last() =~= Seq::<SegView>::empty());
        assert(concat_texts(s) == concat_texts(s.drop_last()) + b);
        assert(concat_texts(Seq::<SegView>::empty()) + b =~= b);
    }
}

/// The text whose width matches what `render_line` draws.
pub fn measure_line(line: &str, format: bool) -> (r: String)
    ensures
        utf8(r@) == (if format {
            strip(sb(line))
        } else {
            sb(line)
        }),
{
    if format {
        strip_inline(line)
    } else {
        to_string(line)
    }
}

// ---------------------------------------------------------------------------
// Line prefix: the display-only markers at the start of a line.
// ---------------------------------------------------------------------------

/// One display-only marker unit at the start of a line.
#[derive(Debug, Clone, Copy, PartialEq, Eq)]
pub enum PrefixUnit {
    /// Leading indentation, counted as a marker only when a block marker
    /// follows it.
    Indent { cols: u32, len: usize },
    /// A `>` rail run; each `>` swallows one following space.
    Quote { len: usize },
    /// A list item marker, with the loose whitespace before it.
    ListItem { len: usize },
    /// An ATX heading marker: `#...` plus one optional space or tab.
    Heading { level: u32, len: usize },
}

impl PrefixUnit {
    pub open spec fn spec_len(self) -> int {
        match self {
            PrefixUnit::Indent { len, .. } => len as int,
            PrefixUnit::Quote { len } => len as int,
            PrefixUnit::ListItem { len } => len as int,
            PrefixUnit::Heading { len, .. } => len as int,
        }
    }

    /// Byte length of the unit.
    pub fn len(&self) -> (r: usize)
        ensures
            r == self.spec_len(),
    {
        match self {
            PrefixUnit::Indent { len, .. } => *len,
            PrefixUnit::Quote { len } => *len,
            PrefixUnit::ListItem { len } => *len,
            PrefixUnit::Heading { len, .. } => *len,
        }
    }
}

/// Parsed line-start structure of a raw line.
#[derive(Debug, Clone, Default, PartialEq, Eq)]
pub struct LinePrefix {
    units: Vec<PrefixUnit>,
    indent_cols: u32,
    pub is_hr: bool,
}

/// Model of a [`LinePrefix`]: its units, its indentation in columns, and
/// whether the line is a thematic break.
pub type PrefixView = (Seq<PrefixUnit>, u32, bool);

impl View for LinePrefix {
    type V = PrefixView;

    closed spec fn view(&self) -> PrefixView {
        (self.units@, self.indent_cols, self.is_hr)
    }
}

/// A space or a tab.
pub open spec fn is_blank(x: u8) -> bool {
    x == 0x20 || x == 0x09
}

/// End of the run of spaces and tabs starting at `i`.
pub open spec fn blank_end(b: Seq<u8>, i: int) -> int
    decreases b.len() - i,
{
    if 0 <= i < b.len() && is_blank(b[i]) {
        blank_end(b, i + 1)
    } else {
        i
    }
}

/// Columns of the spaces and tabs in `b[0..k]` (a tab counts two).
pub open spec fn cols(b: Seq<u8>, k: int) -> int
    decreases k,
{
    if k <= 0 {
        0
    } else {
        cols(b, k - 1) + (if b[k - 1] == 0x20 {
            1int
        } else {
            2int
        })
    }
}

/// Number of `c` characters in `b[k..]` when the rest holds nothing but
/// whitespace and `c`; -1 when it holds anything else.
pub open spec fn hr_rest(b: Seq<u8>, k: int, c: u8) -> int
    decreases b.len() - k,
{
    if k < 0 || k >= b.len() {
        0
    } else if ws_len_at(b, k) > 0 {
        hr_rest(b, k + ws_len_at(b, k), c)
    } else if b[k] == c {
        let r = hr_rest(b, k + 1, c);
        if r < 0 {
            -1
        } else {
            r + 1
        }
    } else {
        -1
    }
}

/// A thematic break: past the indentation, the non-whitespace characters are
/// three or more of one of `-`, `*`, `_`.
pub open spec fn is_hr_line(b: Seq<u8>) -> bool {
    let f = skip_ws(b, blank_end(b, 0));
    &&& f < b.len()
    &&& (b[f] == 0x2d || b[f] == 0x2a || b[f] == 0x5f)
    &&& hr_rest(b, f, b[f]) >= 3
}

/// End of the blockquote rails starting at `q`.
pub open spec fn quote_end(b: Seq<u8>, q: int) -> int
    decreases b.len() - q,
{
    if 0 <= q < b.len() && b[q] == 0x3e {
        if q + 1 < b.len() && b[q + 1] == 0x20 {
            quote_end(b, q + 2)
        } else {
            quote_end(b, q + 1)
        }
    } else {
        q
    }
}

/// An ASCII digit.
pub open spec fn is_digit(x: u8) -> bool {
    0x30 <= x && x <= 0x39
}

/// Number of ASCII digits at `p + k..`, capped at nine.
pub open spec fn digit_run(b: Seq<u8>, p: int, k: int) -> int
    decreases 9 - k,
{
    if 0 <= k < 9 && 0 <= p + k < b.len() && is_digit(b[p + k]) {
        digit_run(b, p, k + 1)
    } else {
        k
    }
}

/// Byte length of a `- `, `* `, `+ ` or `N. `/`N) ` list marker at `p`.
pub open spec fn list_marker_len(b: Seq<u8>, p: int) -> Option<int> {
    if p < 0 || p >= b.len() {
        None
    } else if b[p] == 0x2d || b[p] == 0x2a || b[p] == 0x2b {
        if p + 1 < b.len() && is_blank(b[p + 1]) {
            Some(2)
        } else {
            None
        }
    } else {
        let d = digit_run(b, p, 0);
        if d == 0 {
            None
        } else if p + d < b.len() && (b[p + d] == 0x2e || b[p + d] == 0x29) && p + d + 1 < b.len()
            && is_blank(b[p + d + 1]) {
            Some(d + 2)
        } else {
            None
        }
    }
}

/// Number of `#` at `p..`.
pub open spec fn hash_run(b: Seq<u8>, p: int) -> int
    decreases b.len() - p,
{
    if 0 <= p < b.len() && b[p] == 0x23 {
        1 + hash_run(b, p + 1)
    } else {
        0
    }
}

/// A 1..=6 `#` heading marker at `p`, followed by a blank or the end:
/// (level, byte length including one following blank).
pub open spec fn heading_at_spec(b: Seq<u8>, p: int) -> Option<(int, int)> {
    if p < 0 || p >= b.len() || b[p] != 0x23 {
        None
    } else {
        let level = hash_run(b, p);
        if level > 6 {
            None
        } else if p + level >= b.len() {
            Some((level, level))
        } else if is_blank(b[p + level]) {
            Some((level, level + 1))
        } else {
            None
        }
    }
}

/// Units after the quote rails and list marker, before indentation handling.
pub open spec fn marker_units(b: Seq<u8>) -> (Seq<PrefixUnit>, int) {
    let il = blank_end(b, 0);
    let qe = quote_end(b, il);
    let u1 = if qe > il {
        seq![PrefixUnit::Quote { len: (qe - il) as usize }]
    } else {
        Seq::<PrefixUnit>::empty()
    };
    let li = blank_end(b, qe);
    match list_marker_len(b, li) {
        Some(l) => (u1.push(PrefixUnit::ListItem { len: (li - qe + l) as usize }), li + l),
        None => (u1, qe),
    }
}

/// The parsed prefix of a line (see [`LinePrefix`]): thematic break first;
/// otherwise quote rails, one list marker, then a heading (allowed without
/// other markers only under at most three columns of indentation), with the
/// leading indentation prepended as a unit when any marker follows it.
pub open spec fn prefix_spec(b: Seq<u8>) -> PrefixView {
    let il = blank_end(b, 0);
    let ic = cols(b, il);
    if is_hr_line(b) {
        (Seq::empty(), 0u32, true)
    } else {
        let (u2, q) = marker_units(b);
        let u3 = match heading_at_spec(b, q) {
            Some((lv, hl)) => if u2.len() > 0 || ic <= 3 {
                (if u2.len() == 0 && il > 0 {
                    u2.push(PrefixUnit::Indent { cols: ic as u32, len: il as usize })
                } else {
                    u2
                }).push(PrefixUnit::Heading { level: lv as u32, len: hl as usize })
            } else {
                u2
            },
            None => u2,
        };
        let u4 = if u3.len() > 0 && il > 0 && !(u3[0] is Indent) {
            seq![PrefixUnit::Indent { cols: ic as u32, len: il as usize }] + u3
        } else {
            u3
        };
        (u4, ic as u32, false)
    }
}

/// Total byte length of a sequence of units.
pub open spec fn units_len(u: Seq<PrefixUnit>) -> int
    decreases u.len(),
{
    if u.len() == 0 {
        0
    } else {
        u[0].spec_len() + units_len(u.drop_first())
    }
}

/// Level of the first heading unit.
pub open spec fn first_heading(u: Seq<PrefixUnit>) -> Option<u32>
    decreases u.len(),
{
    if u.len() == 0 {
        None
    } else {
        match u[0] {
            PrefixUnit::Heading { level, .. } => Some(level),
            _ => first_heading(u.drop_first()),
        }
    }
}

/// Some unit is a quote rail.
pub open spec fn has_quote_unit(u: Seq<PrefixUnit>) -> bool {
    exists|k: int| 0 <= k < u.len() && u[k] is Quote
}

/// Bytes of the leading indentation and quote units.
pub open spec fn lead_quote_len(u: Seq<PrefixUnit>) -> int
    decreases u.len(),
{
    if u.len() == 0 {
        0
    } else if u[0] is Indent || u[0] is Quote {
        u[0].spec_len() + lead_quote_len(u.drop_first())
    } else {
        0
    }
}

/// Bytes up to and including the first list marker unit.
pub open spec fn list_skip_units(u: Seq<PrefixUnit>) -> Option<int>
    decreases u.len(),
{
    if u.len() == 0 {
        None
    } else if u[0] is ListItem {
        Some(u[0].spec_len())
    } else {
        match list_skip_units(u.drop_first()) {
            Some(k) => Some(u[0].spec_len() + k),
            None => None,
        }
    }
}

/// Bytes before the first heading unit (all of them when there is none).
pub open spec fn before_heading_len(u: Seq<PrefixUnit>) -> int
    decreases u.len(),
{
    if u.len() == 0 {
        0
    } else if u[0] is Heading {
        0
    } else {
        u[0].spec_len() + before_heading_len(u.drop_first())
    }
}

pub proof fn lemma_list_skip_push(v: Seq<PrefixUnit>, x: PrefixUnit)
    ensures
        list_skip_units(v.push(x)) == (if list_skip_units(v) is Some {
            list_skip_units(v)
        } else if x is ListItem {
            Some(units_len(v) + x.spec_len())
        } else {
            None
        }),
    decreases v.len(),
{
    let w = v.push(x);
    if v.len() == 0 {
        assert(w[0] == x);
        assert(w.drop_first() =~= Seq::<PrefixUnit>::empty());
        assert(list_skip_units(w.drop_first()) is None);
        assert(units_len(v) == 0);
        assert(list_skip_units(v) is None);
    } else {
        assert(w[0] == v[0]);
        assert(w.drop_first() =~= v.drop_first().push(x));
        lemma_list_skip_push(v.drop_first(), x);
        assert(units_len(v) == v[0].spec_len() + units_len(v.drop_first()));
    }
}

pub proof fn lemma_units_len_nonneg(u: Seq<PrefixUnit>)
    ensures
        units_len(u) >= 0,
    decreases u.len(),
{
    if u.len() > 0 {
        lemma_units_len_nonneg(u.drop_first());
    }
}

pub proof fn lemma_units_len_push(u: Seq<PrefixUnit>, x: PrefixUnit)
    ensures
        units_len(u.push(x)) == units_len(u) + x.spec_len(),
    decreases u.len(),
{
    if u.len() == 0 {
        assert(u.push(x).drop_first() =~= Seq::<PrefixUnit>::empty());
        assert(u.push(x)[0] == x);
        assert(units_len(u.push(x).drop_first()) == 0);
    } else {
        assert(u.push(x).drop_first() =~= u.drop_first().push(x));
        assert(u.push(x)[0] == u[0]);
        lemma_units_len_push(u.drop_first(), x);
    }
}

pub proof fn lemma_lead_quote_le(u: Seq<PrefixUnit>)
    ensures
        0 <= lead_quote_len(u) <= units_len(u),
    decreases u.len(),
{
    if u.len() > 0 {
        lemma_lead_quote_le(u.drop_first());
        lemma_units_len_nonneg(u.drop_first());
    }
}

pub proof fn lemma_list_skip_le(u: Seq<PrefixUnit>)
    ensures
        list_skip_units(u) matches Some(k) ==> 0 <= k <= units_len(u),
    decreases u.len(),
{
    if u.len() > 0 {
        lemma_list_skip_le(u.drop_first());
        lemma_units_len_nonneg(u.drop_first());
    }
}

pub proof fn lemma_before_heading_le(u: Seq<PrefixUnit>)
    ensures
        0 <= before_heading_len(u) <= units_len(u),
    decreases u.len(),
{
    if u.len() > 0 {
        lemma_before_heading_le(u.drop_first());
        lemma_units_len_nonneg(u.drop_first());
    }
}

pub proof fn lemma_blank_end(b: Seq<u8>, i: int)
    requires
        0 <= i <= b.len(),
    ensures
        i <= blank_end(b, i) <= b.len(),
    decreases b.len() - i,
{
    if 0 <= i < b.len() && is_blank(b[i]) {
        lemma_blank_end(b, i + 1);
    }
}

pub proof fn lemma_quote_end(b: Seq<u8>, q: int)
    requires
        0 <= q <= b.len(),
    ensures
        q <= quote_end(b, q) <= b.len(),
    decreases b.len() - q,
{
    if 0 <= q < b.len() && b[q] == 0x3e {
        if q + 1 < b.len() && b[q + 1] == 0x20 {
            lemma_quote_end(b, q + 2);
        } else {
            lemma_quote_end(b, q + 1);
        }
    }
}

pub proof fn lemma_hash_run(b: Seq<u8>, p: int)
    requires
        0 <= p <= b.len(),
    ensures
        0 <= hash_run(b, p) <= b.len() - p,
        forall|t: int| p <= t < p + hash_run(b, p) ==> b[t] == 0x23,
        p + hash_run(b, p) < b.len() ==> b[p + hash_run(b, p)] != 0x23,
    decreases b.len() - p,
{
    if 0 <= p < b.len() && b[p] == 0x23 {
        lemma_hash_run(b, p + 1);
    }
}

pub proof fn lemma_digit_run(b: Seq<u8>, p: int, k: int)
    requires
        0 <= k <= 9,
        0 <= p,
    ensures
        k <= digit_run(b, p, k) <= 9,
        p + digit_run(b, p, k) <= b.len() || digit_run(b, p, k) == k,
    decreases 9 - k,
{
    if 0 <= k < 9 && 0 <= p + k < b.len() && is_digit(b[p + k]) {
        lemma_digit_run(b, p, k + 1);
    }
}

/// Byte length of a list marker at `p` (see [`list_marker_len`]).
fn list_marker_at(b: &[u8], p: usize) -> (r: Option<usize>)
    requires
        p <= b@.len(),
    ensures
        r == as_index(list_marker_len(b@, p as int)),
        r matches Some(l) ==> p + l <= b@.len() && list_marker_len(b@, p as int) == Some(l as int)
            && 2 <= l && is_blank(b@[p + l - 1]),
{
    let n = b.len();
    if p >= n {
        return None;
    }
    if b[p] == 0x2d || b[p] == 0x2a || b[p] == 0x2b {
        if n - p >= 2 && (b[p + 1] == 0x20 || b[p + 1] == 0x09) {
            return Some(2);
        }
        return None;
    }
    let mut digits: usize = 0;
    while digits < n - p && digits < 9 && 0x30 <= b[p + digits] && b[p + digits] <= 0x39
        invariant
            p < n == b@.len(),
            digits <= 9,
            digits <= n - p,
            digit_run(b@, p as int, 0) == digit_run(b@, p as int, digits as int),
        decreases 9 - digits,
    {
        digits = digits + 1;
    }
    if digits == 0 {
        return None;
    }
    if n - p > digits && (b[p + digits] == 0x2e || b[p + digits] == 0x29) && n - p > digits + 1 && (
    b[p + digits + 1] == 0x20 || b[p + digits + 1] == 0x09) {
        return Some(digits + 2);
    }
    None
}

/// A 1..=6 `#` heading marker at `p` (see [`heading_at_spec`]).
fn heading_at(bytes: &[u8], p: usize) -> (r: Option<(u32, usize)>)
    requires
        p <= bytes@.len(),
    ensures
        r == (match heading_at_spec(bytes@, p as int) {
            Some((lv, hl)) => Some((lv as u32, hl as usize)),
            None => None,
        }),
        r matches Some((lv, hl)) ==> 1 <= lv <= 6 && p + hl <= bytes@.len(),
{
    let n = bytes.len();
    if p >= n || bytes[p] != 0x23 {
        return None;
    }
    let mut level: usize = 0;
    while level < n - p && bytes[p + level] == 0x23
        invariant
            p < n == bytes@.len(),
            level <= n - p,
            hash_run(bytes@, p as int) == level + hash_run(bytes@, p + level),
        decreases n - p - level,
    {
        level = level + 1;
    }
    proof {
        lemma_hash_run(bytes@, p as int);
    }
    if level > 6 {
        return None;
    }
    if p + level >= n {
        Some((level as u32, level))
    } else if bytes[p + level] == 0x20 || bytes[p + level] == 0x09 {
        Some((level as u32, level + 1))
    } else {
        None
    }
}

/// Whether the line is a thematic break (see [`is_hr_line`]); `il` is the end
/// of its leading blanks.
fn thematic_break(b: &[u8], il: usize) -> (r: bool)
    requires
        il == blank_end(b@, 0),
        il <= b@.len(),
    ensures
        r == is_hr_line(b@),
{
    let n = b.len();
    let f = skip_ws_exec(b, il);
    if f >= n || !(b[f] == 0x2d || b[f] == 0x2a || b[f] == 0x5f) {
        return false;
    }
    let c = b[f];
    let mut k = f;
    let mut count: usize = 0;
    loop
        invariant
            f <= k <= n == b@.len(),
            f < n,
            il == blank_end(b@, 0),
            c == 0x2d || c == 0x2a || c == 0x5f,
            count <= k - f,
            c == b@[f as int],
            f == skip_ws(b@, il as int),
            hr_rest(b@, f as int, c) == (if hr_rest(b@, k as int, c) < 0 {
                -1
            } else {
                count + hr_rest(b@, k as int, c)
            }),
        decreases n - k,
    {
        if k >= n {
            return count >= 3;
        }
        let w = ws_len_at_exec(b, k);
        if w > 0 {
            k = k + w;
        } else if b[k] == c {
            count = count + 1;
            k = k + 1;
        } else {
            return false;
        }
    }
}

/// Parses the leading display-only markers of one line: indentation,
/// blockquote rails, a list item marker, then an ATX heading.
pub fn parse_prefix(line: &str) -> (r: LinePrefix)
    requires
        sb(line).len() < 0x8000_0000,
    ensures
        r@ == prefix_spec(sb(line)),
        units_len(r@.0) <= sb(line).len(),
        list_skip_units(r@.0) matches Some(k) ==> 2 <= k <= sb(line).len() && is_blank(
            sb(line)[k - 1],
        ),
{
    let bytes = line.as_bytes();
    let n = bytes.len();
    let ghost b = bytes@;
    let mut indent_len: usize = 0;
    let mut indent_cols: u32 = 0;
    while indent_len < n && (bytes[indent_len] == 0x20 || bytes[indent_len] == 0x09)
        invariant
            b == bytes@,
            n == b.len() < 0x8000_0000,
            indent_len <= n,
            indent_cols == cols(b, indent_len as int),
            indent_cols <= 2 * indent_len,
            blank_end(b, 0) == blank_end(b, indent_len as int),
        decreases n - indent_len,
    {
        if bytes[indent_len] == 0x20 {
            indent_cols = indent_cols + 1;
        } else {
            indent_cols = indent_cols + 2;
        }
        indent_len = indent_len + 1;
    }
    if thematic_break(bytes, indent_len) {
        let r = LinePrefix { units: Vec::new(), indent_cols: 0, is_hr: true };
        assert(r@.0 =~= Seq::<PrefixUnit>::empty());
        assert(list_skip_units(r@.0) is None);
        return r;
    }
    let mut units: Vec<PrefixUnit> = Vec::new();
    assert(units@ =~= Seq::<PrefixUnit>::empty());
    assert(list_skip_units(units@) is None);
    assert(units_len(units@) == 0);
    let mut q = indent_len;
    let mut quote_len: usize = 0;
    while q < n && bytes[q] == 0x3e
        invariant
            b == bytes@,
            n == b.len(),
            indent_len <= q <= n,
            quote_len == q - indent_len,
            quote_end(b, indent_len as int) == quote_end(b, q as int),
        decreases n - q,
    {
        quote_len = quote_len + 1;
        q = q + 1;
        if q < n && bytes[q] == 0x20 {
            quote_len = quote_len + 1;
            q = q + 1;
        }
    }
    if quote_len > 0 {
        proof {
            lemma_units_len_push(units@, PrefixUnit::Quote { len: quote_len });
            lemma_list_skip_push(units@, PrefixUnit::Quote { len: quote_len });
        }
        units.push(PrefixUnit::Quote { len: quote_len });
    }
    assert(units_len(units@) == q - indent_len);
    assert(list_skip_units(units@) is None);
    let ghost qe = q as int;
    let mut li = q;
    while li < n && (bytes[li] == 0x20 || bytes[li] == 0x09)
        invariant
            b == bytes@,
            n == b.len(),
            q <= li <= n,
            blank_end(b, q as int) == blank_end(b, li as int),
        decreases n - li,
    {
        li = li + 1;
    }
    if let Some(len) = list_marker_at(bytes, li) {
        let item = PrefixUnit::ListItem { len: (li - q) + len };
        proof {
            lemma_units_len_push(units@, item);
            lemma_list_skip_push(units@, item);
        }
        units.push(item);
        q = li + len;
    }
    assert(list_skip_units(units@) matches Some(k) ==> k == q - indent_len && 2 <= k && is_blank(
        b[q - 1],
    ));
    proof {
        let mu = marker_units(b);
        assert(indent_len == blank_end(b, 0));
        assert(qe == quote_end(b, indent_len as int));
        assert(li == blank_end(b, qe));
        assert(units@ =~= mu.0);
        assert(q == mu.1);
        assert(units_len(units@) == q - indent_len);
    }
    if let Some((level, hlen)) = heading_at(bytes, q) {
        if units.len() > 0 || indent_cols <= 3 {
            if units.len() == 0 && indent_len > 0 {
                proof {
                    lemma_units_len_push(units@, PrefixUnit::Indent { cols: indent_cols, len: indent_len });
                    lemma_list_skip_push(units@, PrefixUnit::Indent { cols: indent_cols, len: indent_len });
                }
                units.push(PrefixUnit::Indent { cols: indent_cols, len: indent_len });
            }
            proof {
                lemma_units_len_push(units@, PrefixUnit::Heading { level, len: hlen });
                lemma_list_skip_push(units@, PrefixUnit::Heading { level, len: hlen });
            }
            units.push(PrefixUnit::Heading { level, len: hlen });
        }
    }
    let ghost u3 = units@;
    proof {
        lemma_units_len_nonneg(u3);
    }
    if units.len() > 0 && indent_len > 0 && !matches!(units[0], PrefixUnit::Indent { .. }) {
        units.insert(0, PrefixUnit::Indent { cols: indent_cols, len: indent_len });
        proof {
            assert(units@.drop_first() =~= u3);
            assert(units@[0] is Indent);
        }
    }
    let r = LinePrefix { units, indent_cols, is_hr: false };
    proof {
        assert(r@ =~= prefix_spec(b));
    }
    r
}

impl LinePrefix {
    /// Byte offset where visible content begins: past all leading
    /// display-only markers.
    pub fn content(&self) -> (r: usize)
        requires
            units_len(self@.0) <= usize::MAX,
        ensures
            r == units_len(self@.0),
    {
        let ghost u = self.units@;
        let mut sum: usize = 0;
        let mut k: usize = 0;
        proof {
            lemma_units_len_nonneg(u);
            assert(u.skip(0) =~= u);
        }
        while k < self.units.len()
            invariant
                u == self.units@,
                k <= u.len(),
                units_len(u) <= usize::MAX,
                units_len(u) == sum + units_len(u.skip(k as int)),
            decreases u.len() - k,
        {
            proof {
                assert(u.skip(k as int).drop_first() =~= u.skip(k + 1));
                lemma_units_len_nonneg(u.skip(k + 1));
            }
            sum = sum + self.units[k].len();
            k = k + 1;
        }
        sum
    }

    /// Some unit is a quote rail.
    pub fn has_quote(&self) -> (r: bool)
        ensures
            r == has_quote_unit(self@.0),
    {
        let mut k: usize = 0;
        while k < self.units.len()
            invariant
                k <= self.units@.len(),
                forall|t: int| 0 <= t < k ==> !(self.units@[t] is Quote),
            decreases self.units.len() - k,
        {
            if matches!(self.units[k], PrefixUnit::Quote { .. }) {
                return true;
            }
            k = k + 1;
        }
        false
    }

    /// Level of the heading marker, if the line has one.
    pub fn heading_level(&self) -> (r: Option<u32>)
        ensures
            r == first_heading(self@.0),
    {
        let ghost u = self.units@;
        let mut k: usize = 0;
        proof {
            assert(u.skip(0) =~= u);
        }
        while k < self.units.len()
            invariant
                u == self.units@,
                k <= u.len(),
                first_heading(u) == first_heading(u.skip(k as int)),
            decreases u.len() - k,
        {
            proof {
                assert(u.skip(k as int).drop_first() =~= u.skip(k + 1));
            }
            if let PrefixUnit::Heading { level, .. } = self.units[k] {
                return Some(level);
            }
            k = k + 1;
        }
        None
    }

    /// Display-only bytes just past the blockquote rails (leading indent
    /// included); `None` when the line is not a quote.
    pub fn blockquote_skip(&self) -> (r: Option<usize>)
        requires
            units_len(self@.0) <= usize::MAX,
        ensures
            r == (if has_quote_unit(self@.0) {
                Some(lead_quote_len(self@.0) as usize)
            } else {
                None
            }),
    {
        if !self.has_quote() {
            return None;
        }
        let ghost u = self.units@;
        let mut sum: usize = 0;
        let mut k: usize = 0;
        proof {
            assert(u.skip(0) =~= u);
            lemma_lead_quote_le(u);
        }
        while k < self.units.len()
            invariant
                u == self.units@,
                k <= u.len(),
                sum + units_len(u.skip(k as int)) <= usize::MAX,
                has_quote_unit(u),
                lead_quote_len(u) == sum + lead_quote_len(u.skip(k as int)),
            decreases u.len() - k,
        {
            proof {
                assert(u.skip(k as int).drop_first() =~= u.skip(k + 1));
                lemma_units_len_nonneg(u.skip(k + 1));
            }
            assert(u.skip(k as int)[0] == u[k as int]);
            match self.units[k] {
                PrefixUnit::Indent { len, .. } => {
                    sum = sum + len;
                },
                PrefixUnit::Quote { len } => {
                    sum = sum + len;
                },
                _ => {
                    return Some(sum);
                },
            }
            k = k + 1;
        }
        Some(sum)
    }

    /// Display-only bytes up to and including the first list item marker.
    pub fn list_skip(&self) -> (r: Option<usize>)
        requires
            units_len(self@.0) <= usize::MAX,
        ensures
            r == as_index(list_skip_units(self@.0)),
    {
        let ghost u = self.units@;
        let mut sum: usize = 0;
        let mut k: usize = 0;
        proof {
            assert(u.skip(0) =~= u);
            lemma_units_len_nonneg(u);
        }
        while k < self.units.len()
            invariant
                u == self.units@,
                k <= u.len(),
                sum + units_len(u.skip(k as int)) <= usize::MAX,
                list_skip_units(u) == (match list_skip_units(u.skip(k as int)) {
                    Some(t) => Some(sum + t),
                    None => None,
                }),
            decreases u.len() - k,
        {
            proof {
                assert(u.skip(k as int).drop_first() =~= u.skip(k + 1));
                lemma_units_len_nonneg(u.skip(k + 1));
            }
            let l = self.units[k].len();
            if matches!(self.units[k], PrefixUnit::ListItem { .. }) {
                return Some(sum + l);
            }
            sum = sum + l;
            k = k + 1;
        }
        None
    }

    /// Display-only bytes up to (not including) the heading marker.
    pub fn content_before_heading(&self) -> (r: usize)
        requires
            units_len(self@.0) <= usize::MAX,
        ensures
            r == before_heading_len(self@.0),
    {
        let ghost u = self.units@;
        let mut sum: usize = 0;
        let mut k: usize = 0;
        proof {
            assert(u.skip(0) =~= u);
            lemma_units_len_nonneg(u);
        }
        while k < self.units.len()
            invariant
                u == self.units@,
                k <= u.len(),
                sum + units_len(u.skip(k as int)) <= usize::MAX,
                before_heading_len(u) == sum + before_heading_len(u.skip(k as int)),
            decreases u.len() - k,
        {
            proof {
                assert(u.skip(k as int).drop_first() =~= u.skip(k + 1));
                lemma_units_len_nonneg(u.skip(k + 1));
            }
            if matches!(self.units[k], PrefixUnit::Heading { .. }) {
                return sum;
            }
            sum = sum + self.units[k].len();
            k = k + 1;
        }
        sum
    }
}

/// Units of a line's prefix.
pub open spec fn prefix_units(b: Seq<u8>) -> Seq<PrefixUnit> {
    prefix_spec(b).0
}

/// A heading that starts the line (at most its leading indentation before
/// it): (level, byte offset of the content).
pub open spec fn heading_info_spec(b: Seq<u8>) -> Option<(u32, usize)> {
    let u = prefix_units(b);
    if u.len() == 1 {
        match u[0] {
            PrefixUnit::Heading { level, len } => Some((level, len)),
            _ => None,
        }
    } else if u.len() == 2 {
        match (u[0], u[1]) {
            (PrefixUnit::Indent { len, .. }, PrefixUnit::Heading { level, len: hlen }) => Some(
                (level, (len + hlen) as usize),
            ),
            _ => None,
        }
    } else {
        None
    }
}

/// An ATX heading at the start of the line (allowing up to 3 columns of
/// leading indentation, tabs counting 2): (level 1..=6, byte offset past the
/// whitespace and the `#...` marker with its space). `#foo` is not a heading.
pub fn heading_info(line: &str) -> (r: Option<(u32, usize)>)
    requires
        sb(line).len() < 0x8000_0000,
    ensures
        r == heading_info_spec(sb(line)),
{
    let p = parse_prefix(line);
    let ghost u = p@.0;
    proof {
        lemma_units_len_nonneg(u);
        if u.len() == 2 {
            assert(u.drop_first().drop_first() =~= Seq::<PrefixUnit>::empty());
            lemma_units_len_nonneg(u.drop_first());
            assert(u.drop_first()[0] == u[1]);
            assert(units_len(u.drop_first().drop_first()) == 0);
            assert(units_len(u) == u[0].spec_len() + u[1].spec_len());
        }
    }
    if p.units.len() == 1 {
        if let PrefixUnit::Heading { level, len } = p.units[0] {
            return Some((level, len));
        }
        None
    } else if p.units.len() == 2 {
        if let PrefixUnit::Indent { len, .. } = p.units[0] {
            if let PrefixUnit::Heading { level, len: hlen } = p.units[1] {
                return Some((level, len + hlen));
            }
        }
        None
    } else {
        None
    }
}

/// Byte offset just past the leading quote rails and list marker: where a
/// heading nested in them would begin.
pub fn marker_content_skip(line: &str) -> (r: usize)
    requires
        sb(line).len() < 0x8000_0000,
    ensures
        r == before_heading_len(prefix_units(sb(line))),
{
    parse_prefix(line).content_before_heading()
}

/// A heading after any leading list or quote markers (`- ## hi`, `> ## hi`):
/// its level and the byte offset of its content.
pub fn heading_after_markers(line: &str) -> (r: Option<(u32, usize)>)
    requires
        sb(line).len() < 0x8000_0000,
    ensures
        r == (match first_heading(prefix_units(sb(line))) {
            Some(level) => Some((level, units_len(prefix_units(sb(line))) as usize)),
            None => None,
        }),
{
    let p = parse_prefix(line);
    match p.heading_level() {
        Some(level) => Some((level, p.content())),
        None => None,
    }
}

/// A horizontal rule: 3+ of the same char among `-`, `*`, `_`, whitespace
/// between them allowed.
pub fn is_horizontal_rule(line: &str) -> (r: bool)
    requires
        sb(line).len() < 0x8000_0000,
    ensures
        r == is_hr_line(sb(line)),
{
    parse_prefix(line).is_hr
}

/// The line carries blockquote rails.
pub fn is_blockquote(line: &str) -> (r: bool)
    requires
        sb(line).len() < 0x8000_0000,
    ensures
        r == has_quote_unit(prefix_units(sb(line))),
{
    parse_prefix(line).has_quote()
}

/// Byte length of the leading blockquote markers (leading whitespace plus
/// each `>` with one optional following space); `None` when not a quote.
pub fn blockquote_marker_len(line: &str) -> (r: Option<usize>)
    requires
        sb(line).len() < 0x8000_0000,
    ensures
        r == (if has_quote_unit(prefix_units(sb(line))) {
            Some(lead_quote_len(prefix_units(sb(line))) as usize)
        } else {
            None
        }),
{
    parse_prefix(line).blockquote_skip()
}

/// A list item marker (`- `, `* `, `+ `, `N. `, `N) ` after optional
/// indentation and quote rails): the byte offset where its content begins.
pub fn list_info(line: &str) -> (r: Option<usize>)
    requires
        sb(line).len() < 0x8000_0000,
    ensures
        r == as_index(list_skip_units(prefix_units(sb(line)))),
        list_skip_units(prefix_units(sb(line))) matches Some(k) ==> 2 <= k <= sb(line).len()
            && is_blank(sb(line)[k - 1]),
{
    parse_prefix(line).list_skip()
}

/// `-` and `+` drawn as `*`; every other byte kept.
pub open spec fn star_markers(x: Seq<u8>) -> Seq<u8> {
    x.map_values(|c: u8| if c == 0x2d || c == 0x2b { 0x2au8 } else { c })
}

/// The on-screen text of a list marker (`- `/`+ ` become `* `, indentation
/// kept, `N. ` unchanged) with the raw marker's byte length.
pub fn list_marker_display(line: &str) -> (r: Option<(String, usize)>)
    requires
        sb(line).len() < 0x8000_0000,
    ensures
        match r {
            Some((disp, k)) => list_skip_units(prefix_units(sb(line))) == Some(k as int) && utf8(
                disp@,
            ) == star_markers(sb(line).subrange(0, k as int)),
            None => list_skip_units(prefix_units(sb(line))) is None,
        },
{
    let skip = match list_info(line) {
        Some(k) => k,
        None => return None,
    };
    let b = line.as_bytes();
    let ghost bs = b@;
    proof {
        lemma_ends_boundary(bs);
        lemma_ascii_boundary(bs, skip - 1);
    }
    let mut out = empty_string();
    let mut a: usize = 0;
    let mut t: usize = 0;
    while t < skip
        invariant
            bs == b@,
            bs == sb(line),
            valid_utf8(bs),
            skip <= bs.len(),
            a <= t <= skip,
            is_char_boundary(bs, a as int),
            is_char_boundary(bs, skip as int),
            utf8(out@) + bs.subrange(a as int, t as int) == star_markers(bs.subrange(0, t as int)),
            forall|x: int| a <= x < t ==> !(bs[x] == 0x2d || bs[x] == 0x2b),
        decreases skip - t,
    {
        if b[t] == 0x2d || b[t] == 0x2b {
            proof {
                lemma_ascii_boundary(bs, t as int);
            }
            let ghost o1 = utf8(out@);
            push_str(&mut out, str_slice(line, a, t));
            push_ascii(&mut out, 0x2a);
            proof {
                assert(star_markers(bs.subrange(0, t + 1)) =~= star_markers(bs.subrange(0, t as int)).push(0x2a));
                assert(bs.subrange(a as int, t as int) =~= bs.subrange(a as int, t as int));
                assert(utf8(out@) + bs.subrange(t + 1, t + 1) =~= star_markers(bs.subrange(0, t + 1)));
            }
            a = t + 1;
        } else {
            proof {
                assert(star_markers(bs.subrange(0, t + 1)) =~= star_markers(bs.subrange(0, t as int)).push(bs[t as int]));
                assert(bs.subrange(a as int, t + 1) =~= bs.subrange(a as int, t as int).push(bs[t as int]));
                assert(utf8(out@) + bs.subrange(a as int, t + 1) =~= star_markers(bs.subrange(0, t + 1)));
            }
        }
        t = t + 1;
    }
    push_str(&mut out, str_slice(line, a, skip));
    Some((out, skip))
}

/// The text after leading `>` rails: each `>` drops one following space and
/// the whitespace after it.
pub open spec fn strip_quote_rails(s: Seq<u8>) -> Seq<u8>
    decreases s.len(),
{
    if s.len() > 0 && s[0] == 0x3e {
        let rest = s.drop_first();
        let rest2 = if rest.len() > 0 && rest[0] == 0x20 {
            rest.drop_first()
        } else {
            rest
        };
        proof {
            lemma_skip_ws_bounds(rest2, 0);
        }
        strip_quote_rails(trim_start_bytes(rest2))
    } else {
        s
    }
}

/// The target of a line that is exactly one image wikilink, optionally behind
/// quote rails and one list marker: a target holding `[[` or `]]` means the
/// line holds more than one link.
pub open spec fn image_link_spec(line: Seq<u8>) -> Option<Seq<u8>> {
    let s1 = strip_quote_rails(trim_start_bytes(line));
    let s2 = match list_skip_units(prefix_units(s1)) {
        Some(k) => trim_start_bytes(s1.subrange(k, s1.len() as int)),
        None => s1,
    };
    if !(s2.len() >= 5 && s2[0] == 0x5b && s2[1] == 0x5b && s2[s2.len() - 2] == 0x5d && s2[s2.len()
        - 1] == 0x5d) {
        None
    } else {
        let inner = trim_bytes(s2.subrange(2, s2.len() - 2));
        if inner.len() == 0 || contains_bytes(inner, seq![0x5bu8, 0x5bu8]) || contains_bytes(
            inner,
            seq![0x5du8, 0x5du8],
        ) || !image_target_spec(inner) {
            None
        } else {
            Some(inner)
        }
    }
}

/// If `line` consists of exactly one image wikilink (optionally with leading
/// list or quote markers, e.g. `- [[assets/pic.png]]`), its target.
pub fn image_link_target(line: &str) -> (r: Option<String>)
    requires
        sb(line).len() < 0x8000_0000,
    ensures
        match r {
            Some(t) => image_link_spec(sb(line)) == Some(utf8(t@)),
            None => image_link_spec(sb(line)) is None,
        },
{
    let mut s = trim_start(line);
    proof {
        lemma_skip_ws_bounds(sb(line), 0);
    }
    loop
        invariant
            sb(s).len() <= sb(line).len(),
            strip_quote_rails(trim_start_bytes(sb(line))) == strip_quote_rails(sb(s)),
        ensures
            sb(s).len() <= sb(line).len(),
            strip_quote_rails(trim_start_bytes(sb(line))) == sb(s),
        decreases sb(s).len(),
    {
        let b = s.as_bytes();
        if b.len() == 0 || b[0] != 0x3e {
            break;
        }
        proof {
            lemma_ends_boundary(b@);
            lemma_ascii_boundary(b@, 0);
        }
        let rest = str_slice(s, 1, b.len());
        assert(sb(rest) =~= sb(s).drop_first());
        let rb = rest.as_bytes();
        let rest2 = if rb.len() > 0 && rb[0] == 0x20 {
            proof {
                lemma_ends_boundary(rb@);
                lemma_ascii_boundary(rb@, 0);
            }
            let r2 = str_slice(rest, 1, rb.len());
            assert(sb(r2) =~= sb(rest).drop_first());
            r2
        } else {
            rest
        };
        proof {
            lemma_skip_ws_bounds(sb(rest2), 0);
        }
        s = trim_start(rest2);
    }
    let ghost s1 = sb(s);
    assert(strip_quote_rails(s1) == s1);
    match list_info(s) {
        Some(skip) => {
            let sbs = s.as_bytes();
            proof {
                lemma_ends_boundary(sbs@);
                lemma_ascii_boundary(sbs@, skip - 1);
            }
            s = trim_start(str_slice(s, skip, sbs.len()));
        },
        None => {},
    }
    assert(sb(s) == (match list_skip_units(prefix_units(s1)) {
        Some(k) => trim_start_bytes(s1.subrange(k, s1.len() as int)),
        None => s1,
    }));
    let b = s.as_bytes();
    let n = b.len();
    if !(n >= 5 && b[0] == 0x5b && b[1] == 0x5b && b[n - 2] == 0x5d && b[n - 1] == 0x5d) {
        return None;
    }
    proof {
        lemma_ends_boundary(b@);
        lemma_ascii_boundary(b@, 1);
        lemma_ascii_boundary(b@, n - 2);
    }
    let inner = trim(str_slice(s, 2, n - 2));
    let open2: Vec<u8> = vec![0x5b, 0x5b];
    let close2: Vec<u8> = vec![0x5d, 0x5d];
    assert(open2@ =~= seq![0x5bu8, 0x5bu8]);
    assert(close2@ =~= seq![0x5du8, 0x5du8]);
    assert(image_link_spec(sb(line)) == (if sb(inner).len() == 0 || contains_bytes(
        sb(inner),
        open2@,
    ) || contains_bytes(sb(inner), close2@) || !image_target_spec(sb(inner)) {
        None
    } else {
        Some(sb(inner))
    }));
    if inner.as_bytes().len() == 0 {
        return None;
    }
    if contains_exec(inner.as_bytes(), open2.as_slice()) || contains_exec(
        inner.as_bytes(),
        close2.as_slice(),
    ) {
        return None;
    }
    if !is_image_target(inner) {
        return None;
    }
    Some(to_string(inner))
}


/// A heading that [`heading_info`] finds is the one [`heading_after_markers`]
/// finds, at the same offset; and every heading level found is 1 to 6.
pub proof fn lemma_heading_info_after_markers(b: Seq<u8>)
    ensures
        heading_info_spec(b) matches Some(h) ==> (match first_heading(prefix_units(b)) {
            Some(level) => Some((level, units_len(prefix_units(b)) as usize)),
            None => None,
        }) == Some(h),
        first_heading(prefix_units(b)) matches Some(l) ==> 1 <= l <= 6,
{
    let u = prefix_units(b);
    crate::editor::buffer::lemma_heading_level(b);
    if u.len() == 1 {
        assert(u.drop_first() =~= Seq::<PrefixUnit>::empty());
        assert(units_len(u.drop_first()) == 0);
        assert(units_len(u) == u[0].spec_len());
    } else if u.len() == 2 {
        let t = u.drop_first();
        assert(t[0] == u[1]);
        assert(t.drop_first() =~= Seq::<PrefixUnit>::empty());
        assert(units_len(t.drop_first()) == 0);
        assert(units_len(t) == u[1].spec_len());
        assert(units_len(u) == u[0].spec_len() + u[1].spec_len());
        if u[0] is Indent {
            assert(first_heading(u) == first_heading(t));
            if u[1] is Heading {
                assert(first_heading(t) == Some(u[1]->level));
            }
        }
    }
}

/// A thematic break is nothing else: its prefix has no units, so no list
/// marker, heading or quote rail, and its content starts at byte 0.
pub proof fn lemma_hr_has_no_prefix(b: Seq<u8>)
    requires
        is_hr_line(b),
    ensures
        prefix_units(b).len() == 0,
        units_len(prefix_units(b)) == 0,
        list_skip_units(prefix_units(b)) is None,
        first_heading(prefix_units(b)) is None,
        heading_info_spec(b) is None,
        !has_quote_unit(prefix_units(b)),
{
}

/// The plain runs of segments: each is non-empty, and no plain run directly
/// follows another.
pub open spec fn plain_runs_ok(s: Seq<SegView>) -> bool {
    &&& forall|k: int|
        0 <= k < s.len() && (#[trigger] s[k]).1 == SegmentStyle::Plain ==> s[k].0.len() > 0
    &&& forall|i: int, j: int|
        #![trigger s[i], s[j]]
        0 <= i && j == i + 1 && j < s.len() && s[i].1 == SegmentStyle::Plain ==> s[j].1
            != SegmentStyle::Plain
}

#[verifier::spinoff_prover]
proof fn lemma_flush_then(b: Seq<u8>, p: int, i: int, x: SegView, r: Seq<SegView>)
    requires
        0 <= p,
        i <= b.len(),
        x.1 != SegmentStyle::Plain,
        plain_runs_ok(r),
    ensures
        plain_runs_ok(flush(b, p, i) + seq![x] + r),
{
    let s = flush(b, p, i) + seq![x] + r;
    if p < i {
        let t = b.subrange(p, i);
        assert(s =~= seq![(t, SegmentStyle::Plain), x] + r);
        assert forall|k: int| 0 <= k < s.len() && (#[trigger] s[k]).1 == SegmentStyle::Plain implies s[k].0.len()
            > 0 by {
            if k >= 2 {
                assert(s[k] == r[k - 2]);
            }
        }
        assert forall|i: int, j: int|
            #![trigger s[i], s[j]]
            0 <= i && j == i + 1 && j < s.len() && s[i].1 == SegmentStyle::Plain implies s[j].1
                != SegmentStyle::Plain by {
            if i >= 2 {
                assert(s[i] == r[i - 2]);
                assert(s[j] == r[j - 2]);
            }
        }
    } else {
        assert(s =~= seq![x] + r);
        assert forall|k: int| 0 <= k < s.len() && (#[trigger] s[k]).1 == SegmentStyle::Plain implies s[k].0.len()
            > 0 by {
            if k >= 1 {
                assert(s[k] == r[k - 1]);
            }
        }
        assert forall|i: int, j: int|
            #![trigger s[i], s[j]]
            0 <= i && j == i + 1 && j < s.len() && s[i].1 == SegmentStyle::Plain implies s[j].1
                != SegmentStyle::Plain by {
            if i >= 1 {
                assert(s[i] == r[i - 1]);
                assert(s[j] == r[j - 1]);
            }
        }
    }
}

#[verifier::spinoff_prover]
proof fn lemma_scan_runs(b: Seq<u8>, p: int, i: int)
    requires
        0 <= p <= i <= b.len(),
    ensures
        plain_runs_ok(scan(b, p, i)),
    decreases b.len() - i,
{
    if i == b.len() {
        lemma_scan_end(b, p);
        let s = flush(b, p, i);
        if p < i {
            assert(s.len() == 1 && s[0].0.len() > 0);
        }
    } else if b[i] == 0x5b && i + 1 < b.len() && b[i + 1] == 0x5b && closer2(b, i + 2, 0x5d, 0x5d) is Some {
        lemma_closer2(b, i + 2, 0x5d, 0x5d);
        let le = closer2(b, i + 2, 0x5d, 0x5d)->0;
        lemma_scan_link(b, p, i, le);
        lemma_scan_runs(b, le, le);
        lemma_flush_then(
            b,
            p,
            i,
            (display_link_bytes(b.subrange(i, le)), SegmentStyle::Link),
            scan(b, le, le),
        );
    } else if !(b[i] == 0x5b && i + 1 < b.len() && b[i + 1] == 0x5b) && b[i] == 0x60 && closer1(
        b,
        i + 1,
        0x60,
    ) is Some {
        lemma_closer1(b, i + 1, 0x60);
        let ce = closer1(b, i + 1, 0x60)->0;
        lemma_scan_code(b, p, i, ce);
        lemma_scan_runs(b, ce + 1, ce + 1);
        lemma_flush_then(
            b,
            p,
            i,
            (b.subrange(i, ce + 1), SegmentStyle::Code),
            scan(b, ce + 1, ce + 1),
        );
    } else {
        let doubled = i + 1 < b.len() && b[i + 1] == b[i];
        let m: int = if doubled {
            2
        } else {
            1
        };
        let style = if m == 2 {
            SegmentStyle::Bold
        } else {
            SegmentStyle::Italic
        };
        if (b[i] == 0x2a || b[i] == 0x5f) && emph_close(b, i + m, b[i], m == 2) is Some {
            lemma_emph_close(b, i + m, b[i], doubled);
            let j = emph_close(b, i + m, b[i], m == 2)->0;
            lemma_scan_emph(b, p, i, m, j, style);
            lemma_scan_runs(b, j + m, j + m);
            lemma_flush_then(b, p, i, (strip(b.subrange(i + m, j)), style), scan(b, j + m, j + m));
        } else {
            lemma_scan_skip(b, p, i);
            lemma_scan_runs(b, p, i + 1);
        }
    }
}

/// The segments of a line: every plain run is non-empty, no plain run
/// directly follows another, and an empty line has no segments.
pub proof fn lemma_segments_plain_runs(b: Seq<u8>)
    ensures
        plain_runs_ok(segments(b)),
        b.len() == 0 ==> segments(b).len() == 0,
{
    lemma_scan_runs(b, 0, 0);
    if b.len() == 0 {
        lemma_scan_end(b, 0);
    }
}

} // verus!
