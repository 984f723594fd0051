use pixelkit::raster::bitmap::{alpha_of, argb, rgb_of, Bitmap};

#[test]
fn packing_and_unpacking_a_pixel_round_trips() {
    let pixel = argb(0x80, 0x00_11_22_33);
    assert_eq!(alpha_of(pixel), 0x80);
    assert_eq!(rgb_of(pixel), 0x00_11_22_33);
}

#[test]
fn a_new_bitmap_is_fully_transparent() {
    let bitmap = Bitmap::new(3, 2);
    assert_eq!(bitmap.pixels.len(), 6);
    assert!(bitmap.pixels.iter().all(|&p| p == 0));
    assert_eq!(alpha_of(bitmap.pixel(1, 1)), 0);
}

#[test]
fn pixel_indexes_row_major() {
    let mut bitmap = Bitmap::new(3, 2);
    bitmap.pixels[3 + 2] = argb(255, 0xabcdef);
    assert_eq!(bitmap.pixel(2, 1), argb(255, 0xabcdef));
}

#[test]
fn packing_keeps_only_the_colour_bits() {
    let pixel = argb(0x7f, 0xff_12_34_56);
    assert_eq!(alpha_of(pixel), 0x7f);
    assert_eq!(rgb_of(pixel), 0x00_12_34_56);
}
