//! Which wikilink targets the editor draws as images, and the file name of
//! an image's thumbnail.

use crate::strings::{
    lemma_ascii_boundary, lemma_ends_boundary, push_ascii, sb, str_slice, to_lowercase, to_string,
    trim, trim_bytes, lowercase, utf8,
};
use vstd::prelude::*;
use vstd::utf8::*;

verus! {

broadcast use vstd::utf8::group_utf8_lib;

/// Index of the last `.` in `t[..j]`.
pub open spec fn last_dot(t: Seq<u8>, j: int) -> Option<int>
    decreases j,
{
    if j <= 0 || j > t.len() {
        None
    } else if t[j - 1] == 0x2e {
        Some(j - 1)
    } else {
        last_dot(t, j - 1)
    }
}

/// The image extensions raylib decodes: png, jpg, jpeg, gif, bmp, tga, ico.
pub open spec fn image_ext(e: Seq<u8>) -> bool {
    ||| e == seq![0x70u8, 0x6eu8, 0x67u8]
    ||| e == seq![0x6au8, 0x70u8, 0x67u8]
    ||| e == seq![0x6au8, 0x70u8, 0x65u8, 0x67u8]
    ||| e == seq![0x67u8, 0x69u8, 0x66u8]
    ||| e == seq![0x62u8, 0x6du8, 0x70u8]
    ||| e == seq![0x74u8, 0x67u8, 0x61u8]
    ||| e == seq![0x69u8, 0x63u8, 0x6fu8]
}

/// A link target is an image when the lower-cased text after its last `.`
/// (surrounding whitespace trimmed) is an image extension.
pub open spec fn image_target_spec(x: Seq<u8>) -> bool {
    let t = trim_bytes(x);
    match last_dot(t, t.len() as int) {
        Some(i) => image_ext(utf8(lowercase(decode_utf8(t.subrange(i + 1, t.len() as int))))),
        None => false,
    }
}

fn is_three(b: &[u8], x: u8, y: u8, z: u8) -> (r: bool)
    ensures
        r == (b@ == seq![x, y, z]),
{
    if b.len() == 3 && b[0] == x && b[1] == y && b[2] == z {
        assert(b@ =~= seq![x, y, z]);
        true
    } else {
        assert(b@.len() != 3 || b@[0] != x || b@[1] != y || b@[2] != z);
        false
    }
}

fn is_four(b: &[u8], w: u8, x: u8, y: u8, z: u8) -> (r: bool)
    ensures
        r == (b@ == seq![w, x, y, z]),
{
    if b.len() == 4 && b[0] == w && b[1] == x && b[2] == y && b[3] == z {
        assert(b@ =~= seq![w, x, y, z]);
        true
    } else {
        assert(b@.len() != 4 || b@[0] != w || b@[1] != x || b@[2] != y || b@[3] != z);
        false
    }
}

/// Whether the lower-cased extension bytes name an image format.
pub fn is_image_extension(e: &[u8]) -> (r: bool)
    ensures
        r == image_ext(e@),
{
    is_three(e, 0x70, 0x6e, 0x67) || is_three(e, 0x6a, 0x70, 0x67) || is_four(
        e,
        0x6a,
        0x70,
        0x65,
        0x67,
    ) || is_three(e, 0x67, 0x69, 0x66) || is_three(e, 0x62, 0x6d, 0x70) || is_three(
        e,
        0x74,
        0x67,
        0x61,
    ) || is_three(e, 0x69, 0x63, 0x6f)
}

/// Whether a wikilink target names an image the editor can draw.
pub fn is_image_target(target: &str) -> (r: bool)
    ensures
        r == image_target_spec(sb(target)),
{
    let t = trim(target);
    let b = t.as_bytes();
    let n = b.len();
    let mut j = n;
    while j > 0 && b[j - 1] != 0x2e
        invariant
            j <= n == b@.len(),
            last_dot(b@, n as int) == last_dot(b@, j as int),
        decreases j,
    {
        j = j - 1;
    }
    if j == 0 {
        return false;
    }
    let i = j - 1;
    proof {
        lemma_ends_boundary(b@);
        lemma_ascii_boundary(b@, i as int);
    }
    let ext = str_slice(t, i + 1, n);
    let lower = to_lowercase(ext);
    let lb = lower.as_str().as_bytes();
    proof {
        assert(ext@ == decode_utf8(sb(ext)));
    }
    is_image_extension(lb)
}

/// `.thumb.png`, the ending of a thumbnail's file name.
pub open spec fn thumb_suffix() -> Seq<u8> {
    seq![0x2eu8, 0x74u8, 0x68u8, 0x75u8, 0x6du8, 0x62u8, 0x2eu8, 0x70u8, 0x6eu8, 0x67u8]
}

/// The file name of an image's thumbnail: the image's name without its
/// last extension, then `.thumb.png`.
pub open spec fn thumb_name_spec(name: Seq<u8>) -> Seq<u8> {
    match last_dot(name, name.len() as int) {
        Some(d) => name.subrange(0, d) + thumb_suffix(),
        None => name + thumb_suffix(),
    }
}

/// The file name of the thumbnail of the image named `name` (see
/// [`thumb_name_spec`]).
pub fn thumb_file_name(name: &str) -> (r: String)
    ensures
        utf8(r@) == thumb_name_spec(sb(name)),
{
    let b = name.as_bytes();
    let n = b.len();
    let mut j = n;
    while j > 0 && b[j - 1] != 0x2e
        invariant
            j <= n == b@.len(),
            last_dot(b@, n as int) == last_dot(b@, j as int),
        decreases j,
    {
        j = j - 1;
    }
    proof {
        lemma_ends_boundary(b@);
    }
    let end = if j == 0 {
        n
    } else {
        proof {
            lemma_ascii_boundary(b@, j - 1);
        }
        j - 1
    };
    let mut s = to_string(str_slice(name, 0, end));
    let suffix: [u8; 10] = [0x2e, 0x74, 0x68, 0x75, 0x6d, 0x62, 0x2e, 0x70, 0x6e, 0x67];
    let ghost head = utf8(s@);
    let mut k: usize = 0;
    while k < 10
        invariant
            k <= 10,
            suffix@ == thumb_suffix(),
            utf8(s@) == head + thumb_suffix().take(k as int),
        decreases 10 - k,
    {
        push_ascii(&mut s, suffix[k]);
        assert(thumb_suffix().take(k + 1) =~= thumb_suffix().take(k as int).push(suffix@[k as int]));
        k = k + 1;
    }
    assert(thumb_suffix().take(10) =~= thumb_suffix());
    assert(head =~= (if j == 0 {
        b@
    } else {
        b@.subrange(0, j - 1)
    }));
    s
}

} // verus!
