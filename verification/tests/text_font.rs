use pixelkit::text::font::{is_thai, is_thai_combining, is_tone_mark, Face, FaceId, FaceRun, FontSet};
use pixelkit::text::substitute::{Placement, SubstitutedGlyph};
use pixelkit::text::glyph::GlyphShape;

fn push16(bytes: &mut Vec<u8>, v: u16) {
    bytes.extend_from_slice(&v.to_be_bytes());
}

/// A TrueType file with six empty glyphs: .notdef, NO NU (1), MAI THO (2),
/// SARA AM (3), NIKHAHIT (4) and SARA AA (5).
fn thai_font() -> &'static [u8] {
    build_font(&[(0x0e19, 1), (0x0e32, 5), (0x0e33, 3), (0x0e49, 2), (0x0e4d, 4)])
}

/// The same six glyphs mapped from `A` (1) and `B` (2) instead.
fn latin_font() -> &'static [u8] {
    build_font(&[(0x41, 1), (0x42, 2)])
}

fn build_font(mappings: &[(u16, u16)]) -> &'static [u8] {
    let mut head = vec![0u8; 54];
    head[18..20].copy_from_slice(&1000u16.to_be_bytes());
    let mut maxp = vec![0, 0, 0x50, 0];
    push16(&mut maxp, 6);
    let mut hhea = vec![0u8; 36];
    hhea[4..6].copy_from_slice(&800u16.to_be_bytes());
    hhea[34..36].copy_from_slice(&6u16.to_be_bytes());
    let mut hmtx = Vec::new();
    for advance in [500u16, 600, 0, 400, 0, 300] {
        push16(&mut hmtx, advance);
        push16(&mut hmtx, 0);
    }
    let loca = vec![0u8; 14];
    let glyf: Vec<u8> = Vec::new();
    let mut cmap = Vec::new();
    for v in [0u16, 1, 3, 1, 0, 12] {
        push16(&mut cmap, v);
    }
    cmap.extend_from_slice(&[0, 0]); // (offset is 32 bits)
    cmap.truncate(12);
    let mut sub = Vec::new();
    let segments = mappings.len() as u16 + 1;
    for v in [4u16, 16 + 8 * segments, 0, 2 * segments, 0, 0, 0] {
        push16(&mut sub, v);
    }
    for &(code, _) in mappings {
        push16(&mut sub, code);
    }
    push16(&mut sub, 0xffff);
    push16(&mut sub, 0);
    for &(code, _) in mappings {
        push16(&mut sub, code);
    }
    push16(&mut sub, 0xffff);
    for &(code, glyph) in mappings {
        push16(&mut sub, glyph.wrapping_sub(code));
    }
    push16(&mut sub, 1);
    for _ in 0..segments {
        push16(&mut sub, 0);
    }
    cmap.extend_from_slice(&sub);

    let tables: Vec<(&[u8; 4], Vec<u8>)> = vec![
        (b"cmap", cmap),
        (b"glyf", glyf),
        (b"head", head),
        (b"hhea", hhea),
        (b"hmtx", hmtx),
        (b"loca", loca),
        (b"maxp", maxp),
    ];
    let mut font = vec![0, 1, 0, 0];
    push16(&mut font, tables.len() as u16);
    font.extend_from_slice(&[0, 0, 0, 0, 0, 0]);
    let mut offset = 12 + 16 * tables.len() as u32;
    for (tag, data) in &tables {
        font.extend_from_slice(*tag);
        font.extend_from_slice(&[0, 0, 0, 0]);
        font.extend_from_slice(&offset.to_be_bytes());
        font.extend_from_slice(&(data.len() as u32).to_be_bytes());
        offset += data.len() as u32;
    }
    for (_, data) in &tables {
        font.extend_from_slice(data);
    }
    Box::leak(font.into_boxed_slice())
}

fn glyph(glyph: u16, cluster: usize, at: usize) -> SubstitutedGlyph {
    SubstitutedGlyph { glyph, cluster, placement: Placement::Kept(at) }
}

#[test]
fn sara_am_after_a_tone_mark_puts_its_ring_below_the_tone() {
    let face = Face::from_bytes(thai_font()).expect("a well-formed face");
    // น + ้ + ำ, as น้ำ is typed: the ring goes before the tone mark, the tail after.
    let glyphs = face.map_characters("น้ำ", 0);
    assert_eq!(glyphs, vec![glyph(1, 0, 0), glyph(4, 6, 1), glyph(2, 3, 2), glyph(5, 6, 3)]);
}

#[test]
fn sara_am_with_no_tone_mark_is_passed_through() {
    let face = Face::from_bytes(thai_font()).unwrap();
    let glyphs = face.map_characters("นำ", 10);
    assert_eq!(glyphs, vec![glyph(1, 10, 0), glyph(3, 13, 1)]);
    assert_eq!(face.map_characters("A", 0), vec![glyph(0, 0, 0)], "an unmapped character draws .notdef");
}

#[test]
fn a_face_answers_for_its_characters() {
    let face = Face::from_bytes(thai_font()).unwrap();
    assert!(face.covers('น'));
    assert!(!face.covers('A'));
    assert_eq!(face.glyph_for('ำ'), Some(3));
    assert_eq!(face.glyph_character(2), Some('้'));
    assert_eq!(face.glyph_character(0), None);
    assert!(!face.is_mark(2), "with no GDEF nothing is a mark");
}

#[test]
fn characters_fall_back_through_the_chain() {
    let thai = Box::leak(Box::new(Face::from_bytes(thai_font()).unwrap()));
    let other = Box::leak(Box::new(Face::from_bytes(thai_font()).unwrap()));
    let mut set = FontSet::new();
    let first = set.add(thai);
    let second = set.add(other);
    assert_eq!((first, second), (FaceId(0), FaceId(1)));
    assert_eq!(set.len(), 2);
    assert!(!set.is_empty());
}

#[test]
fn thai_character_classes() {
    assert!(is_tone_mark('\u{0E48}') && is_tone_mark('\u{0E4C}'));
    assert!(!is_tone_mark('\u{0E4D}'));
    assert!(is_thai_combining('\u{0E31}') && is_thai_combining('\u{0E4D}'));
    assert!(!is_thai_combining('น'));
    assert!(is_thai('น') && !is_thai('A'));
}

#[test]
fn garbage_is_not_a_face() {
    assert!(Face::from_bytes(b"not a font at all").is_none());
}

#[test]
fn shaping_reads_each_glyph_advance_and_plans_nothing_without_layout_tables() {
    let face = Face::from_bytes(thai_font()).unwrap();
    let plan = face.shape("น้ำ", 4);
    assert_eq!(plan.glyphs, face.map_characters("น้ำ", 4));
    assert_eq!(plan.advances, vec![600, 0, 0, 300]);
    assert!(plan.adjustments.is_empty());
    assert_eq!(face.advance(5), 300);
    assert_eq!(face.advance(40), 300, "past the full records the last advance holds");
}

#[test]
fn text_splits_into_runs_where_the_face_changes() {
    let thai = Box::leak(Box::new(Face::from_bytes(thai_font()).unwrap()));
    let latin = Box::leak(Box::new(Face::from_bytes(latin_font()).unwrap()));
    let mut set = FontSet::new();
    let thai_id = set.add(thai);
    let latin_id = set.add(latin);
    set.set_fallbacks(thai_id, &[latin_id]);
    assert_eq!(set.face_for(thai_id, 'A').1, latin_id);
    assert_eq!(set.face_for(thai_id, 'น').1, thai_id);
    assert_eq!(set.face_for(thai_id, '?').1, thai_id, "nobody covers it: the style's own face");
    let runs = set.runs(thai_id, "นAB น");
    assert_eq!(
        runs,
        vec![
            FaceRun { face: thai_id, start: 0, end: 3 },
            FaceRun { face: latin_id, start: 3, end: 5 },
            FaceRun { face: thai_id, start: 5, end: 9 },
        ]
    );
    assert!(set.runs(latin_id, "").is_empty());
    assert_eq!(set.runs(latin_id, "น"), vec![FaceRun { face: latin_id, start: 0, end: 3 }], "no fallback chain");
}

#[test]
fn glyph_records_and_metrics_come_from_the_face() {
    let face = Face::from_bytes(thai_font()).unwrap();
    assert_eq!(face.glyph_shape(1), Some(GlyphShape::Empty), "a zero-length record is an empty glyph");
    assert_eq!(face.glyph_shape(6), None, "past the last glyph");
    let metrics = face.font_metrics();
    assert_eq!((metrics.units_per_em, metrics.ascender, metrics.glyph_count), (1000, 800, 6));
}

#[test]
fn a_style_is_usable_only_with_registered_fallbacks() {
    let thai = Box::leak(Box::new(Face::from_bytes(thai_font()).unwrap()));
    let mut set = FontSet::new();
    let id = set.add(thai);
    assert!(set.is_usable(id));
    assert!(!set.is_usable(FaceId(3)));
    set.set_fallbacks(id, &[FaceId(9)]);
    assert!(!set.is_usable(id), "a fallback that names no face");
}
