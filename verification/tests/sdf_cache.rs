use rust_graph::editor::text::{
    charset, glyph_metrics, i32_at, sdf_cache_ok, sdf_layout, serialize_sdf, take, u32_at,
    GlyphMetrics, SDF_CACHE_VERSION,
};

fn header(version: u32, glyphs: u32) -> Vec<u8> {
    let mut out = b"SDF1".to_vec();
    out.extend_from_slice(&version.to_le_bytes());
    out.extend_from_slice(&glyphs.to_le_bytes());
    out.extend_from_slice(&[0u8; 16]);
    out
}

#[test]
fn garbage_bytes_fail_the_header_check() {
    assert!(!sdf_cache_ok(b"garbage"));
    assert!(!sdf_cache_ok(&[]));
}

#[test]
fn well_formed_header_passes() {
    assert!(sdf_cache_ok(&header(SDF_CACHE_VERSION, 1)));
    assert!(!sdf_cache_ok(&header(SDF_CACHE_VERSION, 0)));
    assert!(!sdf_cache_ok(&header(2, 5)));
    let mut bad = header(SDF_CACHE_VERSION, 1);
    bad[0] = b'X';
    assert!(!sdf_cache_ok(&bad));
    assert!(!sdf_cache_ok(&header(SDF_CACHE_VERSION, 1)[..27]));
}

#[test]
fn little_endian_reads() {
    let b = [0x78u8, 0x56, 0x34, 0x12, 0xff, 0xff, 0xff, 0xff];
    assert_eq!(u32_at(&b, 0), Some(0x1234_5678));
    assert_eq!(i32_at(&b, 4), Some(-1));
    assert_eq!(u32_at(&b, 5), None);
    assert_eq!(take(&b, 2, 3), Some(&b[2..5]));
    assert_eq!(take(&b, 6, 3), None);
}

#[test]
fn charset_holds_latin1_and_punctuation() {
    let s = charset();
    assert_eq!(s.chars().count(), 95 + 128 + 8);
    assert!(s.starts_with(" !\"#"));
    assert!(!s.contains('\u{7f}'));
    assert!(s.contains('ÿ'));
    assert!(s.ends_with('\u{2026}'));
}

fn sample_metrics() -> Vec<GlyphMetrics> {
    vec![
        GlyphMetrics { value: 65, offset_x: 1, offset_y: -2, advance_x: 9 },
        GlyphMetrics { value: 0x2026, offset_x: -7, offset_y: 3, advance_x: 12 },
    ]
}

#[test]
fn serialized_atlas_reads_back() {
    let pixels: Vec<u8> = (0..24).map(|i| i as u8).collect();
    let rects: Vec<u8> = (0..32).map(|i| (100 + i) as u8).collect();
    let metrics = sample_metrics();
    let bytes = serialize_sdf(4, 3, -5, 2, &pixels, &metrics, &rects);
    assert_eq!(bytes.len(), 28 + 24 + 32 + 32);
    assert_eq!(&bytes[0..4], b"SDF1");
    assert!(sdf_cache_ok(&bytes));
    let layout = sdf_layout(&bytes).expect("layout");
    assert_eq!(layout.glyph_count, 2);
    assert_eq!(layout.width, 4);
    assert_eq!(layout.height, 3);
    assert_eq!(layout.format, -5);
    assert_eq!(layout.bpp, 2);
    assert_eq!(layout.pixel_bytes, 24);
    assert_eq!(layout.rect_off, 28 + 24 + 32);
    assert_eq!(glyph_metrics(&bytes, &layout), metrics);
    assert_eq!(&bytes[28..52], &pixels[..]);
    assert_eq!(&bytes[layout.rect_off..], &rects[..]);
}

#[test]
fn truncated_or_empty_atlases_have_no_layout() {
    let pixels = vec![0u8; 24];
    let rects = vec![0u8; 32];
    let bytes = serialize_sdf(4, 3, 1, 2, &pixels, &sample_metrics(), &rects);
    assert!(sdf_layout(&bytes[..bytes.len() - 1]).is_none());
    assert!(sdf_layout(&bytes[..27]).is_none());
    let empty = serialize_sdf(4, 3, 1, 2, &pixels, &[], &[]);
    assert!(sdf_layout(&empty).is_none());
    let zero_width = serialize_sdf(0, 3, 1, 2, &[], &sample_metrics(), &rects);
    assert!(sdf_layout(&zero_width).is_none());
}

#[test]
fn version_mismatched_or_unmarked_atlases_have_no_layout() {
    let pixels = vec![0u8; 24];
    let rects = vec![0u8; 32];
    let bytes = serialize_sdf(4, 3, 1, 2, &pixels, &sample_metrics(), &rects);
    assert!(sdf_layout(&bytes).is_some());
    let mut newer = bytes.clone();
    let v = u32::from_le_bytes([newer[4], newer[5], newer[6], newer[7]]) + 1;
    newer[4..8].copy_from_slice(&v.to_le_bytes());
    assert!(sdf_layout(&newer).is_none());
    let mut unmarked = bytes.clone();
    unmarked[0] = b'X';
    assert!(sdf_layout(&unmarked).is_none());
}
