use pixelkit::raster::blend::{all_zero, blend_channels, blend_coverage_span, blend_pixel, max_span, pack_row_1bit};

#[test]
fn blending_a_colour_over_itself_changes_nothing() {
    for colour in [0x0000_0000, 0x0012_3456, 0x00ff_ffff, 0x0080_8080] {
        for alpha in 1..=254u8 {
            assert_eq!(blend_channels(colour, colour, alpha), colour);
        }
    }
}

#[test]
fn a_channel_never_bleeds_into_its_neighbour() {
    // Exhaustive over one channel pair: the 16-bit lane bound the vector
    // kernels depend on either holds for every input or it does not.
    for destination in 0..=255u32 {
        for alpha in 0..=255u8 {
            let blended = blend_channels(destination * 0x0001_0001, 0x0000_ff00, alpha);
            assert!(blended <= 0x00ff_ffff, "{blended:#08x} left the lanes");
        }
    }
}

#[test]
fn the_ends_of_the_coverage_range_are_exact() {
    assert_eq!(blend_pixel(0x0011_2233, 0x00ff_ffff, 0), 0x0011_2233);
    assert_eq!(blend_pixel(0x0011_2233, 0x00ff_ffff, 255), 0x00ff_ffff);
    // Arithmetic alone would not give either: at coverage 0 the weights
    // are 255 and 1, which moves an opaque destination by a step.
    assert_ne!(blend_channels(0x00ff_ffff, 0x0000_0000, 0), 0x00ff_ffff);
}

#[test]
fn a_span_stops_at_the_shorter_of_its_two_slices() {
    let mut pixels = [0u32; 4];
    blend_coverage_span(&mut pixels, 0x00ff_ffff, &[255, 255]);
    assert_eq!(pixels, [0x00ff_ffff, 0x00ff_ffff, 0, 0]);

    let mut pixels = [0u32; 2];
    blend_coverage_span(&mut pixels, 0x00ff_ffff, &[255; 8]);
    assert_eq!(pixels, [0x00ff_ffff; 2]);
}

#[test]
fn packing_pads_the_last_byte_with_zeros() {
    let mut packed = [0xffu8; 2];
    pack_row_1bit(&[255, 0, 255, 0, 0, 0, 0, 0, 255], 128, &mut packed);
    assert_eq!(packed[0], 0b1010_0000);
    assert_eq!(packed[1], 0b1000_0000, "seven padding bits, all zero");
}

#[test]
fn a_zero_threshold_prints_every_dot() {
    // `>= threshold`, so a threshold of zero is satisfied by blank paper.
    let mut packed = [0u8; 1];
    pack_row_1bit(&[0; 8], 0, &mut packed);
    assert_eq!(packed[0], 0xff);
}

#[test]
fn emptiness_is_recognised_and_a_single_dot_is_not_lost() {
    assert!(all_zero(&[]));
    assert!(all_zero(&[0; 1000]));
    for position in 0..1000 {
        let mut bytes = vec![0u8; 1000];
        bytes[position] = 1;
        assert!(!all_zero(&bytes), "lost the dot at {position}");
    }
}

#[test]
fn max_span_keeps_the_larger_coverage_and_stops_at_the_shorter_slice() {
    let mut destination = [10u8, 200, 30, 40];
    max_span(&mut destination, &[50, 100, 255]);
    assert_eq!(destination, [50, 200, 255, 40]);
}

#[test]
fn half_coverage_lands_between_the_two_colours() {
    let mixed = blend_pixel(0x0000_0000, 0x00ff_ffff, 128);
    let red = (mixed >> 16) & 0xff;
    assert!(red > 100 && red < 156, "{mixed:#08x}");
}
