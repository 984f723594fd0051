use pixelkit::text::glyph::{parse_simple_glyph, GlyphPoint};
use pixelkit::text::glyph::{parse_components, Component, ComponentTransform};

fn point(x: i32, y: i32) -> GlyphPoint {
    GlyphPoint { x, y, on_curve: true }
}

#[test]
fn short_deltas_decode_to_a_triangle() {
    let data = [0, 2, 0, 0, 0x37, 0x33, 0x27, 10, 20, 10, 20, 20];
    let contours = parse_simple_glyph(&data, 0, 1).expect("a whole glyph");
    assert_eq!(contours, vec![vec![point(10, 20), point(30, 20), point(20, 40)]]);
}

#[test]
fn repeated_flags_long_deltas_and_skipped_instructions() {
    let data = [
        0, 0, 0, 3, // end points
        0, 1, 0xff, // one byte of instructions
        0x09, 3, // flag "on curve", repeated three more times
        0, 100, 0xff, 0xce, 0, 0, 0, 25, // x deltas
        0, 0, 0, 0, 0, 10, 0, 0, // y deltas
    ];
    let contours = parse_simple_glyph(&data, 0, 2).expect("a whole glyph");
    // The one-point contour is dropped; the second runs over points 1..=3.
    assert_eq!(contours, vec![vec![point(50, 0), point(50, 10), point(75, 10)]]);
}

#[test]
fn a_glyph_with_no_contours_is_empty_and_a_cut_one_is_refused() {
    assert_eq!(parse_simple_glyph(&[], 0, 0), Some(Vec::new()));
    let data = [0, 2, 0, 0, 0x37, 0x33, 0x27, 10, 20, 10, 20, 20];
    for cut in 0..data.len() {
        assert_eq!(parse_simple_glyph(&data[..cut], 0, 1), None, "cut at {cut}");
    }
}

#[test]
fn composite_records_give_their_components() {
    let data = [
        0xAA, 0xBB, // something before
        0x00, 0x23, 0x00, 0x05, 0xFF, 0xFE, 0x01, 0x2C, // words, offsets, more: glyph 5 at (-2, 300)
        0x00, 0x0A, 0x00, 0x06, 0xF0, 0x10, 0x20, 0x00, // bytes, offsets, scale 0.5: glyph 6 at (-16, 16)
    ];
    let components = parse_components(&data, 2).expect("two whole records");
    assert_eq!(
        components,
        vec![
            Component { glyph: 5, dx: -2, dy: 300, transform: ComponentTransform::Identity },
            Component { glyph: 6, dx: -16, dy: 16, transform: ComponentTransform::Scale(0x2000) },
        ]
    );
    // Point-matched arguments give no offset.
    let matched = [0x00, 0x00, 0x00, 0x07, 0x03, 0x04];
    assert_eq!(
        parse_components(&matched, 0),
        Some(vec![Component { glyph: 7, dx: 0, dy: 0, transform: ComponentTransform::Identity }])
    );
    // A record that promises more than there is.
    assert_eq!(parse_components(&data[..15], 2), None);
    let two_by_two = [0x00, 0x82, 0x00, 0x01, 0x01, 0x02, 0x40, 0x00, 0x00, 0x00, 0x00, 0x00, 0xC0, 0x00];
    assert_eq!(
        parse_components(&two_by_two, 0),
        Some(vec![Component { glyph: 1, dx: 1, dy: 2, transform: ComponentTransform::TwoByTwo(0x4000, 0, 0, -0x4000) }])
    );
}
