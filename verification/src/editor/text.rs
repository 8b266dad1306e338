//! The serialized SDF font-atlas format: its header check, where its parts
//! lie, the glyph metrics it stores, and the glyph set every atlas is baked
//! for.

use crate::strings::string_push;
use vstd::prelude::*;
use vstd::slice::slice_subrange;

verus! {

/// `SDF1`: the first four bytes of a serialized atlas.
pub open spec fn sdf_magic() -> Seq<u8> {
    seq![0x53u8, 0x44u8, 0x46u8, 0x31u8]
}

/// The format version this build reads and writes.
pub const SDF_CACHE_VERSION: u32 = 1;

/// The little-endian `u32` stored at `off`.
pub open spec fn le_u32(b: Seq<u8>, off: int) -> int {
    b[off] + 0x100 * b[off + 1] + 0x1_0000 * b[off + 2] + 0x100_0000 * b[off + 3]
}

/// The `len` bytes at `off`, when the cache holds them.
pub fn take(cache: &[u8], off: usize, len: usize) -> (r: Option<&[u8]>)
    requires
        off + len <= usize::MAX,
    ensures
        match r {
            Some(s) => off + len <= cache@.len() && s@ == cache@.subrange(
                off as int,
                off + len,
            ),
            None => off + len > cache@.len(),
        },
{
    if off + len <= cache.len() {
        Some(slice_subrange(cache, off, off + len))
    } else {
        None
    }
}

/// The little-endian `u32` at `off`, when the cache holds four bytes there.
pub fn u32_at(cache: &[u8], off: usize) -> (r: Option<u32>)
    requires
        off + 4 <= usize::MAX,
    ensures
        match r {
            Some(v) => off + 4 <= cache@.len() && v == le_u32(cache@, off as int),
            None => off + 4 > cache@.len(),
        },
{
    match take(cache, off, 4) {
        Some(s) => {
            let v: u32 = s[0] as u32 + 0x100 * (s[1] as u32) + 0x1_0000 * (s[2] as u32)
                + 0x100_0000 * (s[3] as u32);
            Some(v)
        },
        None => None,
    }
}

/// The little-endian two's-complement `i32` at `off`, when the cache holds
/// four bytes there.
pub fn i32_at(cache: &[u8], off: usize) -> (r: Option<i32>)
    requires
        off + 4 <= usize::MAX,
    ensures
        match r {
            Some(v) => off + 4 <= cache@.len() && v == (if le_u32(cache@, off as int) < 0x8000_0000 {
                le_u32(cache@, off as int)
            } else {
                le_u32(cache@, off as int) - 0x1_0000_0000
            }),
            None => off + 4 > cache@.len(),
        },
{
    match u32_at(cache, off) {
        Some(u) => {
            if u < 0x8000_0000 {
                Some(u as i32)
            } else {
                let neg: i64 = u as i64 - 0x1_0000_0000;
                Some(neg as i32)
            }
        },
        None => None,
    }
}

/// A serialized atlas passes the header check: at least the 28 header
/// bytes, the `SDF1` magic, this version, and a non-empty glyph table.
pub open spec fn sdf_cache_ok_spec(b: Seq<u8>) -> bool {
    &&& b.len() >= 28
    &&& b.subrange(0, 4) == sdf_magic()
    &&& le_u32(b, 4) == SDF_CACHE_VERSION
    &&& le_u32(b, 8) > 0
}

/// Headless validity check of a serialized atlas (see [`sdf_cache_ok_spec`]).
pub fn sdf_cache_ok(cache: &[u8]) -> (r: bool)
    ensures
        r == sdf_cache_ok_spec(cache@),
{
    if cache.len() < 28 {
        return false;
    }
    let magic = match take(cache, 0, 4) {
        Some(m) => m,
        None => return false,
    };
    if !(magic[0] == 0x53 && magic[1] == 0x44 && magic[2] == 0x46 && magic[3] == 0x31) {
        assert(magic@[0] != 0x53 || magic@[1] != 0x44 || magic@[2] != 0x46 || magic@[3] != 0x31);
        assert(cache@.subrange(0, 4) != sdf_magic()) by {
            if cache@.subrange(0, 4) == sdf_magic() {
                assert(magic@ == sdf_magic());
            }
        }
        return false;
    }
    assert(magic@ =~= sdf_magic());
    match u32_at(cache, 4) {
        Some(v) => {
            if v != SDF_CACHE_VERSION {
                return false;
            }
        },
        None => return false,
    }
    match u32_at(cache, 8) {
        Some(n) => n > 0,
        None => false,
    }
}

/// The glyph set baked into every atlas: the printable characters of
/// U+0020..=U+00FF (U+007F left out), then the en and em dashes, the curly
/// quotes, the bullet and the ellipsis.
pub open spec fn charset_spec() -> Seq<char> {
    Seq::new(95, |i: int| (i + 32) as char) + Seq::new(128, |i: int| (i + 128) as char) + seq![
        '\u{2013}',
        '\u{2014}',
        '\u{2018}',
        '\u{2019}',
        '\u{201c}',
        '\u{201d}',
        '\u{2022}',
        '\u{2026}',
    ]
}

/// The glyph set baked into every atlas (see [`charset_spec`]).
pub fn charset() -> (r: String)
    ensures
        r@ == charset_spec(),
{
    let mut s = crate::strings::empty_string();
    let mut c: u32 = 32;
    while c <= 255
        invariant
            32 <= c <= 256,
            s@ == (if c <= 127 {
                Seq::new((c - 32) as nat, |i: int| (i + 32) as char)
            } else {
                Seq::new(95, |i: int| (i + 32) as char) + Seq::new(
                    (c - 128) as nat,
                    |i: int| (i + 128) as char,
                )
            }),
        decreases 256 - c,
    {
        if c != 127 {
            let byte = c as u8;
            let ch = byte as char;
            string_push(&mut s, ch);
        }
        c = c + 1;
    }
    string_push(&mut s, '\u{2013}');
    string_push(&mut s, '\u{2014}');
    string_push(&mut s, '\u{2018}');
    string_push(&mut s, '\u{2019}');
    string_push(&mut s, '\u{201c}');
    string_push(&mut s, '\u{201d}');
    string_push(&mut s, '\u{2022}');
    string_push(&mut s, '\u{2026}');
    s
}

/// The little-endian two's-complement `i32` stored at `off`.
pub open spec fn le_i32(b: Seq<u8>, off: int) -> int {
    if le_u32(b, off) < 0x8000_0000 {
        le_u32(b, off)
    } else {
        le_u32(b, off) - 0x1_0000_0000
    }
}

/// Where the parts of a serialized atlas lie, as its header declares them.
pub struct SdfLayout {
    pub glyph_count: usize,
    pub width: usize,
    pub height: usize,
    pub format: i32,
    pub bpp: usize,
    /// `width * height * bpp`: the pixel bytes that start at byte 28.
    pub pixel_bytes: usize,
    /// Start of the glyph rectangles, after the pixels and the metrics.
    pub rect_off: usize,
}

/// A serialized atlas holds what its header declares: the 28 header bytes,
/// a glyph count and sizes that are not zero, then the pixels, 16 bytes of
/// metrics per glyph and 16 bytes of rectangle per glyph.
pub open spec fn sdf_fits(b: Seq<u8>) -> bool {
    &&& b.len() >= 28
    &&& le_u32(b, 8) > 0
    &&& le_u32(b, 12) > 0
    &&& le_u32(b, 16) > 0
    &&& le_u32(b, 24) > 0
    &&& 28 + le_u32(b, 12) * le_u32(b, 16) * le_u32(b, 24) + 32 * le_u32(b, 8) <= b.len()
}

/// The layout of a serialized atlas, when it passes the header check (see
/// [`sdf_cache_ok_spec`]: magic and version) and holds what its header
/// declares (see [`sdf_fits`]); none for malformed or version-mismatched
/// bytes.
pub fn sdf_layout(cache: &[u8]) -> (r: Option<SdfLayout>)
    ensures
        r is Some <==> sdf_cache_ok_spec(cache@) && sdf_fits(cache@),
        r matches Some(l) ==> {
            &&& l.glyph_count == le_u32(cache@, 8)
            &&& l.width == le_u32(cache@, 12)
            &&& l.height == le_u32(cache@, 16)
            &&& l.format == le_i32(cache@, 20)
            &&& l.bpp == le_u32(cache@, 24)
            &&& l.pixel_bytes == l.width * l.height * l.bpp
            &&& l.rect_off == 28 + l.pixel_bytes + 16 * l.glyph_count
        },
{
    if !sdf_cache_ok(cache) {
        return None;
    }
    let n = match u32_at(cache, 8) {
        Some(v) => v,
        None => return None,
    };
    let w = match u32_at(cache, 12) {
        Some(v) => v,
        None => return None,
    };
    let h = match u32_at(cache, 16) {
        Some(v) => v,
        None => return None,
    };
    let format = match i32_at(cache, 20) {
        Some(v) => v,
        None => return None,
    };
    let bpp = match u32_at(cache, 24) {
        Some(v) => v,
        None => return None,
    };
    if n == 0 || w == 0 || h == 0 || bpp == 0 {
        return None;
    }
    let (w2, h2, b2) = (w as u128, h as u128, bpp as u128);
    assert(w2 * h2 <= 0xffff_ffff * 0xffff_ffffu128) by (nonlinear_arith)
        requires
            w2 <= 0xffff_ffff,
            h2 <= 0xffff_ffff,
    ;
    let wh: u128 = w2 * h2;
    assert(wh * b2 <= 0xffff_ffff * 0xffff_ffff * 0xffff_ffffu128) by (nonlinear_arith)
        requires
            wh <= 0xffff_ffff * 0xffff_ffffu128,
            b2 <= 0xffff_ffff,
    ;
    let pb: u128 = wh * b2;
    let total: u128 = 28 + pb + 32 * (n as u128);
    if total > cache.len() as u128 {
        return None;
    }
    Some(
        SdfLayout {
            glyph_count: n as usize,
            width: w as usize,
            height: h as usize,
            format,
            bpp: bpp as usize,
            pixel_bytes: pb as usize,
            rect_off: (28 + pb + 16 * (n as u128)) as usize,
        },
    )
}

/// One glyph's metrics: its code point, drawing offsets and advance.
#[derive(Debug, Clone, Copy, PartialEq, Eq)]
pub struct GlyphMetrics {
    pub value: i32,
    pub offset_x: i32,
    pub offset_y: i32,
    pub advance_x: i32,
}

/// The metrics of each glyph of an atlas laid out as `layout` says: four
/// little-endian `i32`s per glyph, in glyph order, right after the pixels.
pub fn glyph_metrics(cache: &[u8], layout: &SdfLayout) -> (r: Vec<GlyphMetrics>)
    requires
        28 + layout.pixel_bytes + 32 * layout.glyph_count <= cache@.len(),
    ensures
        r@.len() == layout.glyph_count,
        forall|i: int|
            0 <= i < r@.len() ==> {
                let off = 28 + layout.pixel_bytes + 16 * i;
                &&& (#[trigger] r@[i]).value == le_i32(cache@, off)
                &&& r@[i].offset_x == le_i32(cache@, off + 4)
                &&& r@[i].offset_y == le_i32(cache@, off + 8)
                &&& r@[i].advance_x == le_i32(cache@, off + 12)
            },
{
    let clen = cache.len();
    let n = layout.glyph_count;
    let base = 28 + layout.pixel_bytes;
    let mut out: Vec<GlyphMetrics> = Vec::new();
    let mut i: usize = 0;
    while i < n
        invariant
            i <= n == layout.glyph_count,
            base == 28 + layout.pixel_bytes,
            base + 32 * n <= cache@.len() == clen,
            out@.len() == i,
            forall|k: int|
                0 <= k < i ==> {
                    let off = base + 16 * k;
                    &&& (#[trigger] out@[k]).value == le_i32(cache@, off)
                    &&& out@[k].offset_x == le_i32(cache@, off + 4)
                    &&& out@[k].offset_y == le_i32(cache@, off + 8)
                    &&& out@[k].advance_x == le_i32(cache@, off + 12)
                },
        decreases n - i,
    {
        let off = base + 16 * i;
        let value = match i32_at(cache, off) {
            Some(v) => v,
            None => 0,
        };
        let offset_x = match i32_at(cache, off + 4) {
            Some(v) => v,
            None => 0,
        };
        let offset_y = match i32_at(cache, off + 8) {
            Some(v) => v,
            None => 0,
        };
        let advance_x = match i32_at(cache, off + 12) {
            Some(v) => v,
            None => 0,
        };
        out.push(GlyphMetrics { value, offset_x, offset_y, advance_x });
        i = i + 1;
    }
    out
}

/// The four little-endian bytes of `v` (taken below 2^32).
pub open spec fn u32_bytes(v: int) -> Seq<u8> {
    seq![
        (v % 0x100) as u8,
        ((v / 0x100) % 0x100) as u8,
        ((v / 0x1_0000) % 0x100) as u8,
        ((v / 0x100_0000) % 0x100) as u8,
    ]
}

/// The four little-endian two's-complement bytes of `v`.
pub open spec fn i32_bytes(v: int) -> Seq<u8> {
    u32_bytes(
        if v < 0 {
            v + 0x1_0000_0000
        } else {
            v
        },
    )
}

/// The 16 bytes that store one glyph's metrics.
pub open spec fn glyph_bytes(g: GlyphMetrics) -> Seq<u8> {
    i32_bytes(g.value as int) + i32_bytes(g.offset_x as int) + i32_bytes(g.offset_y as int)
        + i32_bytes(g.advance_x as int)
}

/// The bytes that store the metrics of a sequence of glyphs, in order.
pub open spec fn metrics_bytes(ms: Seq<GlyphMetrics>) -> Seq<u8>
    decreases ms.len(),
{
    if ms.len() == 0 {
        Seq::empty()
    } else {
        metrics_bytes(ms.drop_last()) + glyph_bytes(ms.last())
    }
}

/// The 28 header bytes of a serialized atlas: the magic, this version, the
/// glyph count, width, height, pixel format and bytes per pixel.
pub open spec fn sdf_header(count: int, width: int, height: int, format: int, bpp: int) -> Seq<u8> {
    sdf_magic() + u32_bytes(SDF_CACHE_VERSION as int) + u32_bytes(count) + u32_bytes(width)
        + u32_bytes(height) + i32_bytes(format) + u32_bytes(bpp)
}

/// A serialized atlas: its header, then the pixels, the glyph metrics and
/// the glyph rectangles.
pub open spec fn sdf_bytes(
    width: int,
    height: int,
    format: int,
    bpp: int,
    pixels: Seq<u8>,
    ms: Seq<GlyphMetrics>,
    rects: Seq<u8>,
) -> Seq<u8> {
    sdf_header(ms.len() as int, width, height, format, bpp) + pixels + metrics_bytes(ms) + rects
}

/// Appends the little-endian bytes of `v`.
fn push_u32(out: &mut Vec<u8>, v: u32)
    ensures
        final(out)@ == old(out)@ + u32_bytes(v as int),
{
    let b0 = (v & 0xff) as u8;
    let b1 = ((v >> 8) & 0xff) as u8;
    let b2 = ((v >> 16) & 0xff) as u8;
    let b3 = ((v >> 24) & 0xff) as u8;
    proof {
        assert(v & 0xff == v % 0x100) by (bit_vector);
        assert((v >> 8) & 0xff == (v / 0x100) % 0x100) by (bit_vector);
        assert((v >> 16) & 0xff == (v / 0x1_0000) % 0x100) by (bit_vector);
        assert((v >> 24) & 0xff == (v / 0x100_0000) % 0x100) by (bit_vector);
    }
    let ghost before = out@;
    out.push(b0);
    out.push(b1);
    out.push(b2);
    out.push(b3);
    assert(out@ =~= before + u32_bytes(v as int));
}

/// Appends the little-endian two's-complement bytes of `v`.
fn push_i32(out: &mut Vec<u8>, v: i32)
    ensures
        final(out)@ == old(out)@ + i32_bytes(v as int),
{
    let u: u32 = if v < 0 {
        (v as i64 + 0x1_0000_0000) as u32
    } else {
        v as u32
    };
    push_u32(out, u);
}

/// Serializes an atlas: its sizes and pixel format, its pixels, its glyph
/// metrics and the bytes of its glyph rectangles (see [`sdf_bytes`]).
pub fn serialize_sdf(
    width: u32,
    height: u32,
    format: i32,
    bpp: u32,
    pixels: &[u8],
    metrics: &[GlyphMetrics],
    rects: &[u8],
) -> (r: Vec<u8>)
    requires
        metrics@.len() <= u32::MAX,
    ensures
        r@ == sdf_bytes(
            width as int,
            height as int,
            format as int,
            bpp as int,
            pixels@,
            metrics@,
            rects@,
        ),
{
    let mut out: Vec<u8> = Vec::new();
    out.push(0x53);
    out.push(0x44);
    out.push(0x46);
    out.push(0x31);
    assert(out@ =~= sdf_magic());
    push_u32(&mut out, SDF_CACHE_VERSION);
    push_u32(&mut out, metrics.len() as u32);
    push_u32(&mut out, width);
    push_u32(&mut out, height);
    push_i32(&mut out, format);
    push_u32(&mut out, bpp);
    let ghost head = out@;
    let mut i: usize = 0;
    while i < pixels.len()
        invariant
            i <= pixels@.len(),
            out@ == head + pixels@.take(i as int),
        decreases pixels@.len() - i,
    {
        out.push(pixels[i]);
        assert(pixels@.take(i + 1) =~= pixels@.take(i as int).push(pixels@[i as int]));
        i = i + 1;
    }
    assert(pixels@.take(i as int) =~= pixels@);
    let ghost with_pixels = out@;
    let mut j: usize = 0;
    assert(metrics@.take(0) =~= Seq::<GlyphMetrics>::empty());
    while j < metrics.len()
        invariant
            j <= metrics@.len(),
            out@ == with_pixels + metrics_bytes(metrics@.take(j as int)),
        decreases metrics@.len() - j,
    {
        let g = metrics[j];
        let ghost before = out@;
        push_i32(&mut out, g.value);
        push_i32(&mut out, g.offset_x);
        push_i32(&mut out, g.offset_y);
        push_i32(&mut out, g.advance_x);
        proof {
            let t = metrics@.take(j + 1);
            assert(t.drop_last() =~= metrics@.take(j as int));
            assert(t.last() == g);
            assert(out@ =~= with_pixels + metrics_bytes(t));
        }
        j = j + 1;
    }
    assert(metrics@.take(j as int) =~= metrics@);
    let ghost with_metrics = out@;
    let mut k: usize = 0;
    while k < rects.len()
        invariant
            k <= rects@.len(),
            out@ == with_metrics + rects@.take(k as int),
        decreases rects@.len() - k,
    {
        out.push(rects[k]);
        assert(rects@.take(k + 1) =~= rects@.take(k as int).push(rects@[k as int]));
        k = k + 1;
    }
    assert(rects@.take(k as int) =~= rects@);
    out
}

/// Four bytes that are the little-endian bytes of `v` read back as `v`.
pub proof fn lemma_read_u32(b: Seq<u8>, off: int, v: int)
    requires
        0 <= off,
        off + 4 <= b.len(),
        0 <= v < 0x1_0000_0000,
        b.subrange(off, off + 4) == u32_bytes(v),
    ensures
        le_u32(b, off) == v,
{
    let w = u32_bytes(v);
    assert(b[off] == w[0]);
    assert(b[off + 1] == w[1]);
    assert(b[off + 2] == w[2]);
    assert(b[off + 3] == w[3]);
    let u = v as u32;
    assert(u % 0x100 + 0x100 * ((u / 0x100) % 0x100) + 0x1_0000 * ((u / 0x1_0000) % 0x100) + 0x100_0000
        * ((u / 0x100_0000) % 0x100) == u) by (bit_vector);
}

/// Four bytes that are the two's-complement bytes of `v` read back as `v`.
pub proof fn lemma_read_i32(b: Seq<u8>, off: int, v: int)
    requires
        0 <= off,
        off + 4 <= b.len(),
        -0x8000_0000 <= v < 0x8000_0000,
        b.subrange(off, off + 4) == i32_bytes(v),
    ensures
        le_i32(b, off) == v,
{
    lemma_read_u32(
        b,
        off,
        if v < 0 {
            v + 0x1_0000_0000
        } else {
            v
        },
    );
}

/// The metrics bytes are 16 per glyph.
pub proof fn lemma_metrics_len(ms: Seq<GlyphMetrics>)
    ensures
        metrics_bytes(ms).len() == 16 * ms.len(),
    decreases ms.len(),
{
    if ms.len() > 0 {
        lemma_metrics_len(ms.drop_last());
    }
}

/// The bytes of glyph `i` sit at `16 * i` in the metrics bytes.
pub proof fn lemma_metrics_bytes(ms: Seq<GlyphMetrics>, i: int)
    requires
        0 <= i < ms.len(),
    ensures
        metrics_bytes(ms).subrange(16 * i, 16 * i + 16) == glyph_bytes(ms[i]),
    decreases ms.len(),
{
    lemma_metrics_len(ms);
    let init = ms.drop_last();
    lemma_metrics_len(init);
    if i < ms.len() - 1 {
        lemma_metrics_bytes(init, i);
        assert(metrics_bytes(ms).subrange(16 * i, 16 * i + 16) =~= metrics_bytes(init).subrange(
            16 * i,
            16 * i + 16,
        ));
    } else {
        assert(metrics_bytes(ms).subrange(16 * i, 16 * i + 16) =~= glyph_bytes(ms.last()));
    }
}

/// The header reads back its fields.
pub proof fn lemma_header_fields(count: u32, width: u32, height: u32, format: i32, bpp: u32)
    ensures
        ({
            let h = sdf_header(count as int, width as int, height as int, format as int, bpp as int);
            &&& h.len() == 28
            &&& h.subrange(0, 4) == sdf_magic()
            &&& le_u32(h, 4) == SDF_CACHE_VERSION
            &&& le_u32(h, 8) == count
            &&& le_u32(h, 12) == width
            &&& le_u32(h, 16) == height
            &&& le_i32(h, 20) == format
            &&& le_u32(h, 24) == bpp
        }),
{
    let h = sdf_header(count as int, width as int, height as int, format as int, bpp as int);
    assert(h.subrange(0, 4) =~= sdf_magic());
    assert(h.subrange(4, 8) =~= u32_bytes(SDF_CACHE_VERSION as int));
    lemma_read_u32(h, 4, SDF_CACHE_VERSION as int);
    assert(h.subrange(8, 12) =~= u32_bytes(count as int));
    lemma_read_u32(h, 8, count as int);
    assert(h.subrange(12, 16) =~= u32_bytes(width as int));
    lemma_read_u32(h, 12, width as int);
    assert(h.subrange(16, 20) =~= u32_bytes(height as int));
    lemma_read_u32(h, 16, height as int);
    assert(h.subrange(20, 24) =~= i32_bytes(format as int));
    lemma_read_i32(h, 20, format as int);
    assert(h.subrange(24, 28) =~= u32_bytes(bpp as int));
    lemma_read_u32(h, 24, bpp as int);
}

/// A field of the first `p.len()` bytes reads the same with more bytes
/// after them.
proof fn lemma_le_prefix(p: Seq<u8>, q: Seq<u8>, off: int)
    requires
        0 <= off,
        off + 4 <= p.len(),
    ensures
        le_u32(p + q, off) == le_u32(p, off),
        le_i32(p + q, off) == le_i32(p, off),
{
    assert((p + q)[off] == p[off]);
    assert((p + q)[off + 1] == p[off + 1]);
    assert((p + q)[off + 2] == p[off + 2]);
    assert((p + q)[off + 3] == p[off + 3]);
}

/// The four fields of a glyph's 16 bytes.
proof fn lemma_glyph_parts(g: GlyphMetrics)
    ensures
        glyph_bytes(g).len() == 16,
        glyph_bytes(g).subrange(0, 4) == i32_bytes(g.value as int),
        glyph_bytes(g).subrange(4, 8) == i32_bytes(g.offset_x as int),
        glyph_bytes(g).subrange(8, 12) == i32_bytes(g.offset_y as int),
        glyph_bytes(g).subrange(12, 16) == i32_bytes(g.advance_x as int),
{
    let gb = glyph_bytes(g);
    assert(gb.subrange(0, 4) =~= i32_bytes(g.value as int));
    assert(gb.subrange(4, 8) =~= i32_bytes(g.offset_x as int));
    assert(gb.subrange(8, 12) =~= i32_bytes(g.offset_y as int));
    assert(gb.subrange(12, 16) =~= i32_bytes(g.advance_x as int));
}

/// Four bytes inside a stretch are the matching four of that stretch.
proof fn lemma_sub4(b: Seq<u8>, off: int, s: Seq<u8>, k: int)
    requires
        0 <= off,
        off + s.len() <= b.len(),
        b.subrange(off, off + s.len()) == s,
        0 <= k,
        k + 4 <= s.len(),
    ensures
        b.subrange(off + k, off + k + 4) == s.subrange(k, k + 4),
{
    let w = b.subrange(off, off + s.len());
    assert forall|j: int| 0 <= j < 4 implies #[trigger] b.subrange(off + k, off + k + 4)[j] == s.subrange(
        k,
        k + 4,
    )[j] by {
        assert(w[k + j] == b[off + k + j]);
    }
    assert(b.subrange(off + k, off + k + 4) =~= s.subrange(k, k + 4));
}

/// The metrics of glyph `i` read back from where a serialized atlas puts
/// them.
proof fn lemma_glyph_reads_back(head: Seq<u8>, ms: Seq<GlyphMetrics>, rects: Seq<u8>, i: int)
    requires
        0 <= i < ms.len(),
    ensures
        ({
            let b = head + metrics_bytes(ms) + rects;
            let off = head.len() + 16 * i;
            &&& le_i32(b, off) == ms[i].value
            &&& le_i32(b, off + 4) == ms[i].offset_x
            &&& le_i32(b, off + 8) == ms[i].offset_y
            &&& le_i32(b, off + 12) == ms[i].advance_x
        }),
{
    let m = metrics_bytes(ms);
    let b = head + m + rects;
    let off = head.len() + 16 * i;
    lemma_metrics_len(ms);
    lemma_metrics_bytes(ms, i);
    let g = ms[i];
    let gb = glyph_bytes(g);
    lemma_glyph_parts(g);
    assert(b.subrange(off, off + 16) =~= m.subrange(16 * i, 16 * i + 16));
    lemma_sub4(b, off, gb, 0);
    lemma_sub4(b, off, gb, 4);
    lemma_sub4(b, off, gb, 8);
    lemma_sub4(b, off, gb, 12);
    lemma_read_i32(b, off, g.value as int);
    lemma_read_i32(b, off + 4, g.offset_x as int);
    lemma_read_i32(b, off + 8, g.offset_y as int);
    lemma_read_i32(b, off + 12, g.advance_x as int);
}

/// A serialized atlas reads back: it passes the header check, holds what
/// its header declares, the header gives back the count, sizes and format,
/// and the metrics of every glyph sit where the layout puts them.
pub proof fn lemma_sdf_round_trip(
    width: u32,
    height: u32,
    format: i32,
    bpp: u32,
    pixels: Seq<u8>,
    ms: Seq<GlyphMetrics>,
    rects: Seq<u8>,
)
    requires
        0 < ms.len() <= u32::MAX,
        width > 0,
        height > 0,
        bpp > 0,
        pixels.len() == width * height * bpp,
        rects.len() == 16 * ms.len(),
    ensures
        ({
            let b = sdf_bytes(
                width as int,
                height as int,
                format as int,
                bpp as int,
                pixels,
                ms,
                rects,
            );
            &&& sdf_cache_ok_spec(b)
            &&& sdf_fits(b)
            &&& le_u32(b, 8) == ms.len()
            &&& le_u32(b, 12) == width
            &&& le_u32(b, 16) == height
            &&& le_i32(b, 20) == format
            &&& le_u32(b, 24) == bpp
            &&& forall|i: int|
                0 <= i < ms.len() ==> {
                    let off = 28 + pixels.len() + 16 * i;
                    &&& le_i32(b, off) == (#[trigger] ms[i]).value
                    &&& le_i32(b, off + 4) == ms[i].offset_x
                    &&& le_i32(b, off + 8) == ms[i].offset_y
                    &&& le_i32(b, off + 12) == ms[i].advance_x
                }
        }),
{
    let n = ms.len() as u32;
    let h = sdf_header(n as int, width as int, height as int, format as int, bpp as int);
    let rest = pixels + metrics_bytes(ms) + rects;
    let b = sdf_bytes(width as int, height as int, format as int, bpp as int, pixels, ms, rects);
    lemma_header_fields(n, width, height, format, bpp);
    lemma_metrics_len(ms);
    assert(b =~= h + rest);
    lemma_le_prefix(h, rest, 4);
    lemma_le_prefix(h, rest, 8);
    lemma_le_prefix(h, rest, 12);
    lemma_le_prefix(h, rest, 16);
    lemma_le_prefix(h, rest, 20);
    lemma_le_prefix(h, rest, 24);
    assert(b.subrange(0, 4) =~= h.subrange(0, 4));
    assert forall|i: int| 0 <= i < ms.len() implies {
        let off = 28 + pixels.len() + 16 * i;
        &&& le_i32(b, off) == (#[trigger] ms[i]).value
        &&& le_i32(b, off + 4) == ms[i].offset_x
        &&& le_i32(b, off + 8) == ms[i].offset_y
        &&& le_i32(b, off + 12) == ms[i].advance_x
    } by {
        assert(b =~= (h + pixels) + metrics_bytes(ms) + rects);
        lemma_glyph_reads_back(h + pixels, ms, rects, i);
    }
}

} // verus!
