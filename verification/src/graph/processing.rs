//! The note graph: which notes a note links to, the edge list the whole
//! graph is built from and how it follows a saved or removed note, the names
//! of new and renamed notes, and the stack of folders the view descends.
//!
//! `[[target]]` in note A makes the directed edge A -> target. A link names
//! its target with or without `.md`; links to other notes only, to no file,
//! or back to A itself make no edge, and each target counts once.

use crate::filesystem::{links_from, md_ext, parse_links, string_views};
use crate::frontmatter::{end_byte_spec, parse, parse_spec};
use crate::global_palette::{strip_md, strip_md_str};
use crate::strings::{
    bytes_eq, empty_string, push_ascii, push_str, sb, str_slice, text_lines, to_string, trim,
    trim_bytes, utf8,
};
use vstd::prelude::*;
use vstd::utf8::*;

verus! {

broadcast use vstd::utf8::group_utf8_lib;

/// The stem a new note takes from the requested file name: the name without
/// its trailing `.md` suffixes, or `untitled` when nothing is left.
pub open spec fn new_stem_spec(filename: Seq<u8>) -> Seq<u8> {
    if strip_md(filename).len() == 0 {
        seq![0x75u8, 0x6eu8, 0x74u8, 0x69u8, 0x74u8, 0x6cu8, 0x65u8, 0x64u8]
    } else {
        strip_md(filename)
    }
}

/// The stem a new note takes (see [`new_stem_spec`]).
pub fn new_note_stem(filename: &str) -> (r: String)
    ensures
        utf8(r@) == new_stem_spec(sb(filename)),
{
    let stem = strip_md_str(filename);
    if stem.as_bytes().len() == 0 {
        let mut r = to_string(stem);
        push_ascii(&mut r, 0x75);
        push_ascii(&mut r, 0x6e);
        push_ascii(&mut r, 0x74);
        push_ascii(&mut r, 0x69);
        push_ascii(&mut r, 0x74);
        push_ascii(&mut r, 0x6c);
        push_ascii(&mut r, 0x65);
        push_ascii(&mut r, 0x64);
        assert(utf8(r@) =~= new_stem_spec(sb(filename)));
        r
    } else {
        to_string(stem)
    }
}

/// The first text of a new note stored as `filename`: a level-one heading
/// with the name's `.md` suffixes dropped, and a newline.
pub fn new_note_text(filename: &str) -> (r: String)
    ensures
        utf8(r@) == seq![0x23u8, 0x20u8] + strip_md(sb(filename)) + seq![0x0au8],
{
    let title = strip_md_str(filename);
    let mut r = empty_string();
    push_ascii(&mut r, 0x23);
    push_ascii(&mut r, 0x20);
    push_str(&mut r, title);
    push_ascii(&mut r, 0x0a);
    assert(utf8(r@) =~= seq![0x23u8, 0x20u8] + strip_md(sb(filename)) + seq![0x0au8]);
    r
}

/// The stem a note renamed to `new_name` takes: the name without surrounding
/// whitespace and trailing `.md` suffixes; none when that is empty.
pub fn renamed_stem(new_name: &str) -> (r: Option<String>)
    ensures
        match r {
            Some(s) => strip_md(trim_bytes(sb(new_name))).len() > 0 && utf8(s@) == strip_md(
                trim_bytes(sb(new_name)),
            ),
            None => strip_md(trim_bytes(sb(new_name))).len() == 0,
        },
{
    let stem = strip_md_str(trim(new_name));
    if stem.as_bytes().len() == 0 {
        None
    } else {
        Some(to_string(stem))
    }
}

/// A directed edge between two notes, by index.
#[derive(Clone, Copy, Debug, PartialEq, Eq, Structural)]
pub struct Edge {
    pub n1: usize,
    pub n2: usize,
}

/// The link with one trailing `.md` dropped.
pub open spec fn link_target(l: Seq<u8>) -> Seq<u8> {
    if l.len() >= 3 && l.subrange(l.len() - 3, l.len() as int) == md_ext() {
        l.subrange(0, l.len() - 3)
    } else {
        l
    }
}

/// A note file named `name` answers to `t`: by its file name, or by its
/// name without the `.md` suffixes.
pub open spec fn answers_to(name: Seq<u8>, t: Seq<u8>) -> bool {
    name == t || strip_md(name) == t
}

/// The last of the first `k` notes that answers to `t`.
pub open spec fn resolve_upto(names: Seq<Seq<u8>>, t: Seq<u8>, k: int) -> Option<int>
    decreases k,
{
    if k <= 0 {
        None
    } else if answers_to(names[k - 1], t) {
        Some(k - 1)
    } else {
        resolve_upto(names, t, k - 1)
    }
}

pub proof fn lemma_resolve_upto(names: Seq<Seq<u8>>, t: Seq<u8>, k: int)
    ensures
        resolve_upto(names, t, k) matches Some(j) ==> 0 <= j < k && answers_to(names[j], t),
    decreases k,
{
    if k > 0 && !answers_to(names[k - 1], t) {
        lemma_resolve_upto(names, t, k - 1);
    }
}

/// The note a link target names: the last note answering to it.
pub open spec fn resolve(names: Seq<Seq<u8>>, t: Seq<u8>) -> Option<int> {
    resolve_upto(names, t, names.len() as int)
}

/// `acc` with the resolved note `j` added, unless it is note `idx` itself
/// or already listed.
pub open spec fn add_target(acc: Seq<usize>, idx: int, j: Option<int>) -> Seq<usize> {
    match j {
        Some(j) => if j != idx && !acc.contains(j as usize) {
            acc.push(j as usize)
        } else {
            acc
        },
        None => acc,
    }
}

/// The notes the first `k` links of note `idx` reach, in link order.
pub open spec fn targets_upto(names: Seq<Seq<u8>>, idx: int, links: Seq<Seq<u8>>, k: int) -> Seq<usize>
    decreases k,
{
    if k <= 0 {
        Seq::empty()
    } else {
        add_target(targets_upto(names, idx, links, k - 1), idx, resolve(names, link_target(links[k - 1])))
    }
}

/// The note's text past its frontmatter block (all of it without one).
pub open spec fn body_bytes(b: Seq<u8>) -> Seq<u8> {
    let ls = text_lines(b);
    match parse_spec(ls) {
        Some(p) => {
            let e = end_byte_spec(b, p.0);
            if e <= b.len() {
                b.subrange(e, b.len() as int)
            } else {
                b
            }
        },
        None => b,
    }
}

/// The notes note `idx` links to from its body, in link order.
pub open spec fn note_targets(names: Seq<Seq<u8>>, idx: int, content: Seq<u8>) -> Seq<usize> {
    let links = links_from(body_bytes(content), 0);
    targets_upto(names, idx, links, links.len() as int)
}

/// The note's body: its text past the frontmatter block.
pub fn note_body(content: &str) -> (r: &str)
    ensures
        sb(r) == body_bytes(sb(content)),
{
    match parse(content) {
        Some(fm) => {
            let n = content.as_bytes().len();
            if fm.end_byte <= n {
                proof {
                    let b = sb(content);
                    crate::strings::lemma_ends_boundary(b);
                    crate::frontmatter::lemma_after_lines(b, 0, fm.end_line + 1);
                    if fm.end_byte < n {
                        crate::strings::lemma_ascii_boundary(b, fm.end_byte - 1);
                    }
                }
                str_slice(content, fm.end_byte, n)
            } else {
                content
            }
        },
        None => content,
    }
}

/// The link without one trailing `.md`.
fn link_target_str(l: &str) -> (r: &str)
    ensures
        sb(r) == link_target(sb(l)),
{
    let b = l.as_bytes();
    let n = b.len();
    if n >= 3 && b[n - 3] == 0x2e && b[n - 2] == 0x6d && b[n - 1] == 0x64 {
        proof {
            assert(b@.subrange(n - 3, n as int) =~= md_ext());
            crate::strings::lemma_ends_boundary(b@);
            crate::strings::lemma_ascii_boundary(b@, n - 3);
        }
        str_slice(l, 0, n - 3)
    } else {
        proof {
            if n >= 3 {
                let tail = b@.subrange(n - 3, n as int);
                assert(tail[0] == b@[n - 3] && tail[1] == b@[n - 2] && tail[2] == b@[n - 1]);
            }
        }
        l
    }
}

/// The note a link names (see [`resolve`]).
pub fn resolve_link(file_names: &[String], link: &str) -> (r: Option<usize>)
    ensures
        r == match resolve(string_views(file_names@), link_target(sb(link))) {
            Some(j) => Some(j as usize),
            None => None::<usize>,
        },
        r matches Some(j) ==> j < file_names@.len(),
{
    let t = link_target_str(link).as_bytes();
    let ghost names = string_views(file_names@);
    let mut k = file_names.len();
    while k > 0
        invariant
            k <= file_names@.len(),
            names == string_views(file_names@),
            t@ == link_target(sb(link)),
            resolve(names, t@) == resolve_upto(names, t@, k as int),
        decreases k,
    {
        let name = file_names[k - 1].as_str();
        let stem = crate::global_palette::strip_md_str(name);
        assert(sb(name) == names[k - 1]);
        if bytes_eq(name.as_bytes(), t) || bytes_eq(stem.as_bytes(), t) {
            return Some(k - 1);
        }
        k = k - 1;
    }
    None
}

/// The notes note `idx` links to, in link order (see [`note_targets`]).
pub fn note_link_targets(file_names: &[String], idx: usize, content: &str) -> (r: Vec<usize>)
    ensures
        r@ == note_targets(string_views(file_names@), idx as int, sb(content)),
        forall|a: int| 0 <= a < r@.len() ==> r@[a] < file_names@.len() && r@[a] != idx,
        r@.no_duplicates(),
{
    let body = note_body(content);
    let links = parse_links(body);
    let ghost names = string_views(file_names@);
    let ghost lv = string_views(links@);
    let mut out: Vec<usize> = Vec::new();
    let mut k: usize = 0;
    while k < links.len()
        invariant
            names == string_views(file_names@),
            lv == string_views(links@),
            lv == links_from(body_bytes(sb(content)), 0),
            k <= links@.len(),
            out@ == targets_upto(names, idx as int, lv, k as int),
            forall|a: int| 0 <= a < out@.len() ==> out@[a] < file_names@.len() && out@[a] != idx,
            out@.no_duplicates(),
        decreases links@.len() - k,
    {
        let lk = links[k].as_str();
        assert(lv[k as int] == sb(lk));
        let j = resolve_link(file_names, lk);
        let ghost before = out@;
        proof {
            lemma_resolve_upto(names, link_target(lv[k as int]), names.len() as int);
        }
        assert(targets_upto(names, idx as int, lv, k + 1) == add_target(
            targets_upto(names, idx as int, lv, k as int),
            idx as int,
            resolve(names, link_target(lv[k as int])),
        ));
        let ghost rj = resolve(names, link_target(lv[k as int]));
        match j {
            Some(j) => {
                let nlen = file_names.len();
                assert(names.len() == nlen);
                assert(rj == Some(j as int));
                if j != idx && !contains_index(&out, j) {
                    out.push(j);
                    assert(out@ == add_target(before, idx as int, rj));
                } else {
                    assert(before == add_target(before, idx as int, rj));
                }
            },
            None => {
                assert(rj is None);
            },
        }
        k = k + 1;
    }
    out
}

/// Whether `v` holds `x`.
pub fn contains_index(v: &Vec<usize>, x: usize) -> (r: bool)
    ensures
        r == v@.contains(x),
{
    let mut k: usize = 0;
    while k < v.len()
        invariant
            k <= v@.len(),
            forall|a: int| 0 <= a < k ==> v@[a] != x,
        decreases v@.len() - k,
    {
        if v[k] == x {
            return true;
        }
        k = k + 1;
    }
    false
}

/// The edges from note `i` to each of `ts`, in order.
pub open spec fn out_edges(i: int, ts: Seq<usize>) -> Seq<Edge> {
    ts.map_values(|j: usize| Edge { n1: i as usize, n2: j })
}

/// The edges of the first `k` notes, note by note, each in link order.
pub open spec fn edges_upto(names: Seq<Seq<u8>>, contents: Seq<Seq<u8>>, k: int) -> Seq<Edge>
    decreases k,
{
    if k <= 0 {
        Seq::empty()
    } else {
        edges_upto(names, contents, k - 1) + out_edges(
            k - 1,
            note_targets(names, k - 1, contents[k - 1]),
        )
    }
}

/// The graph's edges for notes named `names` holding `contents`.
pub open spec fn graph_edges(names: Seq<Seq<u8>>, contents: Seq<Seq<u8>>) -> Seq<Edge> {
    edges_upto(names, contents, contents.len() as int)
}

/// An edge list of a graph of `n` notes: both ends are notes, no edge is a
/// self-link, and no edge occurs twice.
pub open spec fn edges_wf(es: Seq<Edge>, n: int) -> bool {
    &&& forall|a: int|
        0 <= a < es.len() ==> (#[trigger] es[a]).n1 < n && es[a].n2 < n && es[a].n1 != es[a].n2
    &&& forall|a: int, b: int| 0 <= a < b < es.len() ==> es[a] != es[b]
}

/// Builds the graph's edge list from every note's text: `contents[i]` is
/// note `i`'s text and `file_names[i]` its file name.
pub fn rebuild_edges(contents: &[String], file_names: &[String]) -> (r: Vec<Edge>)
    requires
        contents@.len() == file_names@.len(),
    ensures
        r@ == graph_edges(string_views(file_names@), string_views(contents@)),
        edges_wf(r@, contents@.len() as int),
{
    let ghost names = string_views(file_names@);
    let ghost cs = string_views(contents@);
    let n = contents.len();
    let mut edges: Vec<Edge> = Vec::new();
    let mut i: usize = 0;
    while i < n
        invariant
            n == contents@.len(),
            n == file_names@.len(),
            names == string_views(file_names@),
            cs == string_views(contents@),
            i <= n,
            edges@ == edges_upto(names, cs, i as int),
            edges_wf(edges@, n as int),
            forall|a: int| 0 <= a < edges@.len() ==> (#[trigger] edges@[a]).n1 < i,
        decreases n - i,
    {
        let text = contents[i].as_str();
        assert(sb(text) == cs[i as int]);
        let ts = note_link_targets(file_names, i, text);
        let ghost before = edges@;
        let mut k: usize = 0;
        while k < ts.len()
            invariant
                n == file_names@.len(),
                i < n,
                k <= ts@.len(),
                forall|a: int| 0 <= a < ts@.len() ==> ts@[a] < n && ts@[a] != i,
                ts@.no_duplicates(),
                edges@ == before + out_edges(i as int, ts@.take(k as int)),
                edges_wf(before, n as int),
                forall|a: int| 0 <= a < before.len() ==> (#[trigger] before[a]).n1 < i,
                edges_wf(edges@, n as int),
            decreases ts@.len() - k,
        {
            let e = Edge { n1: i, n2: ts[k] };
            proof {
                let cur = edges@;
                assert forall|a: int| 0 <= a < cur.len() implies cur[a] != e by {
                    if a >= before.len() {
                        let t = a - before.len();
                        assert(cur[a] == out_edges(i as int, ts@.take(k as int))[t]);
                        assert(cur[a].n2 == ts@[t]);
                        assert(ts@[t] != ts@[k as int]);
                    } else {
                        assert(before[a].n1 < i);
                    }
                }
            }
            edges.push(e);
            assert(out_edges(i as int, ts@.take(k + 1)) =~= out_edges(i as int, ts@.take(k as int)).push(e));
            k = k + 1;
        }
        assert(ts@.take(k as int) =~= ts@);
        proof {
            assert(edges@ =~= edges_upto(names, cs, i + 1));
            assert forall|a: int| 0 <= a < edges@.len() implies (#[trigger] edges@[a]).n1 < i + 1 by {
                if a >= before.len() {
                    assert(edges@[a] == out_edges(i as int, ts@)[a - before.len()]);
                }
            }
        }
        i = i + 1;
    }
    edges
}

/// Edge ends among the first `k` edges that are note `v`, both ends
/// counted (a note's size grows with links in either direction).
pub open spec fn degree_upto(es: Seq<Edge>, v: int, k: int) -> int
    decreases k,
{
    if k <= 0 {
        0
    } else {
        degree_upto(es, v, k - 1) + (if es[k - 1].n1 == v {
            1int
        } else {
            0int
        }) + (if es[k - 1].n2 == v {
            1int
        } else {
            0int
        })
    }
}

/// Number of edge ends at note `v`.
pub open spec fn degree(es: Seq<Edge>, v: int) -> int {
    degree_upto(es, v, es.len() as int)
}

proof fn lemma_degree_bound(es: Seq<Edge>, v: int, k: int)
    requires
        0 <= k <= es.len(),
    ensures
        0 <= degree_upto(es, v, k) <= 2 * k,
    decreases k,
{
    if k > 0 {
        lemma_degree_bound(es, v, k - 1);
    }
}

/// Every note's number of connections, counting each edge at both ends.
pub fn degrees(n: usize, edges: &[Edge]) -> (r: Vec<u32>)
    requires
        forall|a: int| 0 <= a < edges@.len() ==> (#[trigger] edges@[a]).n1 < n && edges@[a].n2 < n,
        edges@.len() < 0x8000_0000,
    ensures
        r@.len() == n,
        forall|v: int| 0 <= v < n ==> r@[v] == degree(edges@, v),
{
    let mut deg: Vec<u32> = Vec::new();
    let mut v: usize = 0;
    while v < n
        invariant
            v <= n,
            deg@.len() == v,
            forall|w: int| 0 <= w < v ==> deg@[w] == 0,
        decreases n - v,
    {
        deg.push(0);
        v = v + 1;
    }
    let mut k: usize = 0;
    while k < edges.len()
        invariant
            k <= edges@.len(),
            edges@.len() < 0x8000_0000,
            deg@.len() == n,
            forall|a: int| 0 <= a < edges@.len() ==> (#[trigger] edges@[a]).n1 < n && edges@[a].n2 < n,
            forall|w: int| 0 <= w < n ==> deg@[w] == degree_upto(edges@, w, k as int),
        decreases edges@.len() - k,
    {
        let e = edges[k];
        proof {
            lemma_degree_bound(edges@, e.n1 as int, k as int);
            lemma_degree_bound(edges@, e.n2 as int, k as int);
        }
        let d1 = deg[e.n1];
        deg.set(e.n1, d1 + 1);
        let d2 = deg[e.n2];
        deg.set(e.n2, d2 + 1);
        assert forall|w: int| 0 <= w < n implies deg@[w] == degree_upto(edges@, w, k + 1) by {}
        k = k + 1;
    }
    deg
}

/// Targets of the edges leaving note `idx`, in edge order.
pub open spec fn out_targets(es: Seq<Edge>, idx: int) -> Seq<usize>
    decreases es.len(),
{
    if es.len() == 0 {
        Seq::empty()
    } else if es.last().n1 == idx {
        out_targets(es.drop_last(), idx).push(es.last().n2)
    } else {
        out_targets(es.drop_last(), idx)
    }
}

/// The edges not leaving note `idx`, in order.
pub open spec fn kept_edges(es: Seq<Edge>, idx: int) -> Seq<Edge>
    decreases es.len(),
{
    if es.len() == 0 {
        Seq::empty()
    } else if es.last().n1 != idx {
        kept_edges(es.drop_last(), idx).push(es.last())
    } else {
        kept_edges(es.drop_last(), idx)
    }
}

/// The indices below `k` that `ts` holds, ascending.
pub open spec fn ascending(ts: Seq<usize>, k: int) -> Seq<usize>
    decreases k,
{
    if k <= 0 {
        Seq::empty()
    } else if ts.contains((k - 1) as usize) {
        ascending(ts, k - 1).push((k - 1) as usize)
    } else {
        ascending(ts, k - 1)
    }
}

proof fn lemma_ascending(ts: Seq<usize>, k: int)
    requires
        0 <= k <= usize::MAX + 1,
    ensures
        forall|a: int| 0 <= a < ascending(ts, k).len() ==> ascending(ts, k)[a] < k && ts.contains(ascending(ts, k)[a]),
        forall|a: int, b: int| 0 <= a < b < ascending(ts, k).len() ==> ascending(ts, k)[a] < ascending(ts, k)[b],
        forall|x: usize| x < k && ts.contains(x) ==> ascending(ts, k).contains(x),
    decreases k,
{
    if k > 0 {
        lemma_ascending(ts, k - 1);
        let prev = ascending(ts, k - 1);
        let cur = ascending(ts, k);
        assert forall|x: usize| x < k && ts.contains(x) implies cur.contains(x) by {
            if x < k - 1 {
                let j = choose|j: int| 0 <= j < prev.len() && prev[j] == x;
                assert(cur[j] == x);
            } else {
                assert(cur[cur.len() - 1] == x);
            }
        }
    }
}

/// The edge list after note `idx` was saved with new link targets `ts` in
/// a graph of `n` notes: its old outgoing edges dropped, one edge per
/// target appended in ascending target order.
pub open spec fn refreshed(es: Seq<Edge>, idx: int, ts: Seq<usize>, n: int) -> Seq<Edge> {
    kept_edges(es, idx) + out_edges(idx, ascending(ts, n))
}

/// Brings the edges of the just-saved note `idx` up to date with its text
/// `content`: when the set of notes it links to changed, its outgoing edges
/// are replaced (see [`refreshed`]) and `true` is returned; otherwise the
/// edge list stays as it is. Only this one note is parsed.
pub fn refresh_saved_node(edges: &mut Vec<Edge>, idx: usize, content: &str, file_names: &[String]) -> (r: bool)
    requires
        idx < file_names@.len(),
        edges_wf(old(edges)@, file_names@.len() as int),
    ensures
        ({
            let ts = note_targets(string_views(file_names@), idx as int, sb(content));
            &&& r == (out_targets(old(edges)@, idx as int).to_set() != ts.to_set())
            &&& final(edges)@ == (if r {
                refreshed(old(edges)@, idx as int, ts, file_names@.len() as int)
            } else {
                old(edges)@
            })
        }),
        edges_wf(final(edges)@, file_names@.len() as int),
{
    let n = file_names.len();
    let ts = note_link_targets(file_names, idx, content);
    let ghost es = edges@;
    let mut old_ts: Vec<usize> = Vec::new();
    let mut k: usize = 0;
    while k < edges.len()
        invariant
            es == edges@,
            k <= es.len(),
            old_ts@ == out_targets(es.take(k as int), idx as int),
        decreases es.len() - k,
    {
        assert(es.take(k + 1).drop_last() =~= es.take(k as int));
        if edges[k].n1 == idx {
            old_ts.push(edges[k].n2);
        }
        k = k + 1;
    }
    assert(es.take(k as int) =~= es);
    let mut same = true;
    let mut a: usize = 0;
    while a < old_ts.len()
        invariant
            a <= old_ts@.len(),
            same == forall|x: int| 0 <= x < a ==> ts@.contains(#[trigger] old_ts@[x]),
        decreases old_ts@.len() - a,
    {
        if !contains_index(&ts, old_ts[a]) {
            same = false;
        }
        a = a + 1;
    }
    let mut b: usize = 0;
    while b < ts.len()
        invariant
            b <= ts@.len(),
            same == ((forall|x: int| 0 <= x < old_ts@.len() ==> ts@.contains(#[trigger] old_ts@[x]))
                && forall|y: int| 0 <= y < b ==> old_ts@.contains(#[trigger] ts@[y])),
        decreases ts@.len() - b,
    {
        if !contains_index(&old_ts, ts[b]) {
            same = false;
        }
        b = b + 1;
    }
    proof {
        let s1 = old_ts@.to_set();
        let s2 = ts@.to_set();
        if same {
            assert forall|x: usize| s1.contains(x) <==> s2.contains(x) by {
                if s1.contains(x) {
                    let i = choose|i: int| 0 <= i < old_ts@.len() && old_ts@[i] == x;
                    assert(ts@.contains(old_ts@[i]));
                }
                if s2.contains(x) {
                    let i = choose|i: int| 0 <= i < ts@.len() && ts@[i] == x;
                    assert(old_ts@.contains(ts@[i]));
                }
            }
            assert(s1 =~= s2);
        } else {
            if s1 =~= s2 {
                assert forall|x: int| 0 <= x < old_ts@.len() implies ts@.contains(#[trigger] old_ts@[x]) by {
                    assert(s1.contains(old_ts@[x]));
                }
                assert forall|y: int| 0 <= y < ts@.len() implies old_ts@.contains(#[trigger] ts@[y]) by {
                    assert(s2.contains(ts@[y]));
                }
            }
        }
    }
    if same {
        return false;
    }
    let mut out: Vec<Edge> = Vec::new();
    let mut k: usize = 0;
    while k < edges.len()
        invariant
            es == edges@,
            k <= es.len(),
            edges_wf(es, n as int),
            out@ == kept_edges(es.take(k as int), idx as int),
            forall|c: int| 0 <= c < out@.len() ==> (#[trigger] out@[c]).n1 != idx,
            forall|c: int| 0 <= c < out@.len() ==> exists|j: int| 0 <= j < k && #[trigger] es[j] == #[trigger] out@[c],
            edges_wf(out@, n as int),
        decreases es.len() - k,
    {
        assert(es.take(k + 1).drop_last() =~= es.take(k as int));
        let e = edges[k];
        if e.n1 != idx {
            proof {
                assert forall|c: int| 0 <= c < out@.len() implies out@[c] != e by {
                    let j = choose|j: int| 0 <= j < k && #[trigger] es[j] == out@[c];
                    assert(es[j] != es[k as int]);
                }
            }
            out.push(e);
            proof {
                assert forall|c: int| #![trigger out@[c]] 0 <= c < out@.len() implies exists|j: int| 0 <= j < k + 1 && #[trigger] es[j] == #[trigger] out@[c] by {
                    if c < out@.len() - 1 {
                        let j = choose|j: int| 0 <= j < k && #[trigger] es[j] == out@[c];
                        assert(es[j] == out@[c]);
                    } else {
                        assert(es[k as int] == out@[c]);
                    }
                }
            }
        }
        k = k + 1;
    }
    assert(es.take(k as int) =~= es);
    let ghost kept = out@;
    proof {
        lemma_ascending(ts@, 0);
    }
    let mut j: usize = 0;
    while j < n
        invariant
            j <= n,
            n == file_names@.len(),
            idx < n,
            forall|a: int| 0 <= a < ts@.len() ==> ts@[a] < n && ts@[a] != idx,
            out@ == kept + out_edges(idx as int, ascending(ts@, j as int)),
            forall|c: int| 0 <= c < kept.len() ==> (#[trigger] kept[c]).n1 != idx,
            edges_wf(kept, n as int),
            edges_wf(out@, n as int),
        decreases n - j,
    {
        proof {
            lemma_ascending(ts@, j as int);
            lemma_ascending(ts@, j + 1);
        }
        if contains_index(&ts, j) {
            let e = Edge { n1: idx, n2: j };
            proof {
                let asc = ascending(ts@, j as int);
                assert forall|c: int| 0 <= c < out@.len() implies out@[c] != e by {
                    if c >= kept.len() {
                        assert(out@[c].n2 == asc[c - kept.len()]);
                    }
                }
                let t = choose|t: int| 0 <= t < ts@.len() && ts@[t] == j;
                assert(ts@[t] != idx);
            }
            out.push(e);
            assert(out_edges(idx as int, ascending(ts@, j + 1)) =~= out_edges(idx as int, ascending(ts@, j as int)).push(e));
        } else {
            assert(ascending(ts@, j + 1) == ascending(ts@, j as int));
        }
        j = j + 1;
    }
    *edges = out;
    true
}

proof fn lemma_out_targets_concat(a: Seq<Edge>, b: Seq<Edge>, idx: int)
    ensures
        out_targets(a + b, idx) == out_targets(a, idx) + out_targets(b, idx),
    decreases b.len(),
{
    if b.len() == 0 {
        assert(a + b =~= a);
        assert(out_targets(a, idx) + out_targets(b, idx) =~= out_targets(a, idx));
    } else {
        lemma_out_targets_concat(a, b.drop_last(), idx);
        assert((a + b).drop_last() =~= a + b.drop_last());
        assert((a + b).last() == b.last());
        if b.last().n1 == idx {
            assert(out_targets(a, idx) + out_targets(b.drop_last(), idx).push(b.last().n2) =~= (
            out_targets(a, idx) + out_targets(b.drop_last(), idx)).push(b.last().n2));
        }
    }
}

proof fn lemma_out_targets_out_edges(j: int, ts: Seq<usize>, idx: int)
    requires
        0 <= j <= usize::MAX,
    ensures
        out_targets(out_edges(j, ts), idx) == (if j == idx {
            ts
        } else {
            Seq::<usize>::empty()
        }),
    decreases ts.len(),
{
    if ts.len() > 0 {
        lemma_out_targets_out_edges(j, ts.drop_last(), idx);
        assert(out_edges(j, ts).drop_last() =~= out_edges(j, ts.drop_last()));
        assert(ts.drop_last().push(ts.last()) =~= ts);
    } else {
        assert(out_edges(j, ts) =~= Seq::<Edge>::empty());
    }
}

proof fn lemma_out_targets_upto(names: Seq<Seq<u8>>, contents: Seq<Seq<u8>>, k: int, i: int)
    requires
        0 <= k <= contents.len() <= usize::MAX,
        0 <= i,
    ensures
        out_targets(edges_upto(names, contents, k), i) == (if i < k {
            note_targets(names, i, contents[i])
        } else {
            Seq::<usize>::empty()
        }),
    decreases k,
{
    if k > 0 {
        lemma_out_targets_upto(names, contents, k - 1, i);
        let ts = note_targets(names, k - 1, contents[k - 1]);
        lemma_out_targets_concat(edges_upto(names, contents, k - 1), out_edges(k - 1, ts), i);
        lemma_out_targets_out_edges(k - 1, ts, i);
        if i < k - 1 {
            assert(note_targets(names, i, contents[i]) + Seq::<usize>::empty() =~= note_targets(
                names,
                i,
                contents[i],
            ));
        } else if i == k - 1 {
            assert(Seq::<usize>::empty() + ts =~= ts);
        } else {
            assert(Seq::<usize>::empty() + Seq::<usize>::empty() =~= Seq::<usize>::empty());
        }
    } else {
        assert(edges_upto(names, contents, 0) =~= Seq::<Edge>::empty());
    }
}

/// In a freshly built edge list, the edges leaving each note are exactly
/// the notes its text links to, in link order. So saving a note whose links
/// did not change leaves the graph untouched.
pub proof fn lemma_rebuild_then_refresh_is_stable(
    names: Seq<Seq<u8>>,
    contents: Seq<Seq<u8>>,
    i: int,
)
    requires
        0 <= i < contents.len() <= usize::MAX,
    ensures
        out_targets(graph_edges(names, contents), i) == note_targets(names, i, contents[i]),
        out_targets(graph_edges(names, contents), i).to_set() == note_targets(
            names,
            i,
            contents[i],
        ).to_set(),
{
    lemma_out_targets_upto(names, contents, contents.len() as int, i);
}

/// An index after the removal of note `idx`: indices above it move down.
pub open spec fn shift(x: usize, idx: int) -> usize {
    if x > idx {
        (x - 1) as usize
    } else {
        x
    }
}

/// The edge list after note `idx` is removed: edges touching it dropped,
/// the others renumbered.
pub open spec fn removed_spec(es: Seq<Edge>, idx: int) -> Seq<Edge>
    decreases es.len(),
{
    if es.len() == 0 {
        Seq::empty()
    } else {
        let e = es.last();
        let before = removed_spec(es.drop_last(), idx);
        if e.n1 != idx && e.n2 != idx {
            before.push(Edge { n1: shift(e.n1, idx), n2: shift(e.n2, idx) })
        } else {
            before
        }
    }
}

/// Edge `j` of `es` survives the removal of note `idx` as `x`.
pub open spec fn renumbered(es: Seq<Edge>, idx: int, j: int, x: Edge) -> bool {
    es[j].n1 != idx && es[j].n2 != idx && x == (Edge { n1: shift(es[j].n1, idx), n2: shift(es[j].n2, idx) })
}

/// Drops the edges of removed note `idx` and renumbers the notes after it;
/// a valid edge list of `n` notes stays valid for the `n - 1` left.
pub fn remove_node_edges(edges: &mut Vec<Edge>, idx: usize, n: usize)
    requires
        idx < n,
        edges_wf(old(edges)@, n as int),
    ensures
        final(edges)@ == removed_spec(old(edges)@, idx as int),
        edges_wf(final(edges)@, n - 1),
{
    let ghost es = edges@;
    let mut out: Vec<Edge> = Vec::new();
    let ghost mut src: Seq<int> = Seq::empty();
    let mut k: usize = 0;
    while k < edges.len()
        invariant
            es == edges@,
            k <= es.len(),
            idx < n,
            edges_wf(es, n as int),
            out@ == removed_spec(es.take(k as int), idx as int),
            src.len() == out@.len(),
            forall|c: int|
                0 <= c < out@.len() ==> 0 <= #[trigger] src[c] < k && renumbered(es, idx as int, src[c], out@[c]),
            edges_wf(out@, n - 1),
        decreases es.len() - k,
    {
        assert(es.take(k + 1).drop_last() =~= es.take(k as int));
        let e = edges[k];
        if e.n1 != idx && e.n2 != idx {
            let m = Edge {
                n1: if e.n1 > idx {
                    e.n1 - 1
                } else {
                    e.n1
                },
                n2: if e.n2 > idx {
                    e.n2 - 1
                } else {
                    e.n2
                },
            };
            assert(renumbered(es, idx as int, k as int, m));
            proof {
                assert forall|c: int| 0 <= c < out@.len() implies out@[c] != m by {
                    assert(renumbered(es, idx as int, src[c], out@[c]));
                    assert(es[src[c]] != es[k as int]);
                }
            }
            out.push(m);
            proof {
                src = src.push(k as int);
            }
        }
        k = k + 1;
    }
    assert(es.take(k as int) =~= es);
    *edges = out;
}

/// The breadcrumb trail of the graph view: the directory shown and the
/// directories above it, outermost first.
pub struct NavStack<P> {
    pub dir: P,
    pub stack: Vec<P>,
}

/// The directory shown and the trail after going into a sub-graph whose
/// directory is `next`: the directory shown so far joins the trail.
pub open spec fn into_spec<P>(dir: P, stack: Seq<P>, next: P) -> (P, Seq<P>) {
    (next, stack.push(dir))
}

/// The directory shown and the trail after jumping back to breadcrumb
/// `level` (0 is the root): its directory is shown again and the trail is
/// cut to the levels above it; a level past the trail changes nothing.
pub open spec fn to_level_spec<P>(dir: P, stack: Seq<P>, level: int) -> (P, Seq<P>) {
    if 0 <= level < stack.len() {
        (stack[level], stack.take(level))
    } else {
        (dir, stack)
    }
}

impl<P> NavStack<P> {
    /// A trail at `dir`, with nothing above it.
    pub fn new(dir: P) -> (r: NavStack<P>)
        ensures
            r.dir == dir,
            r.stack@ == Seq::<P>::empty(),
    {
        NavStack { dir, stack: Vec::new() }
    }

    /// Goes into a sub-graph whose directory is `next` (see [`into_spec`]).
    pub fn navigate_into(&mut self, next: P)
        ensures
            (final(self).dir, final(self).stack@) == into_spec(old(self).dir, old(self).stack@, next),
    {
        let mut d = next;
        std::mem::swap(&mut d, &mut self.dir);
        self.stack.push(d);
    }

    /// Jumps back to breadcrumb `level` (see [`to_level_spec`]).
    pub fn navigate_to_level(&mut self, level: usize)
        ensures
            (final(self).dir, final(self).stack@) == to_level_spec(
                old(self).dir,
                old(self).stack@,
                level as int,
            ),
    {
        if level < self.stack.len() {
            self.stack.truncate(level + 1);
            let ghost kept = self.stack@;
            match self.stack.pop() {
                Some(d) => {
                    assert(kept.drop_last() =~= old(self).stack@.take(level as int));
                    self.dir = d;
                },
                None => {},
            }
        }
    }

    /// The graph's root directory: the first breadcrumb when inside a
    /// sub-graph, otherwise the directory shown.
    pub fn project_root(&self) -> (r: &P)
        ensures
            self.stack@.len() > 0 ==> *r == self.stack@[0],
            self.stack@.len() == 0 ==> *r == self.dir,
    {
        if self.stack.len() > 0 {
            &self.stack[0]
        } else {
            &self.dir
        }
    }
}

/// Going into a sub-graph and then back to the level that was current
/// before gives back the directory shown and the trail.
pub proof fn lemma_into_then_back<P>(dir: P, stack: Seq<P>, next: P)
    ensures
        ({
            let (d1, s1) = into_spec(dir, stack, next);
            to_level_spec(d1, s1, stack.len() as int) == (dir, stack)
        }),
{
    assert(stack.push(dir).take(stack.len() as int) =~= stack);
}

} // verus!
