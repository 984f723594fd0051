use pixelkit::raster::kernel::CoverageBitmap;

#[test]
fn merging_a_row_is_the_same_as_merging_its_pixels() {
    let coverage: Vec<u8> = (0..12u16).map(|column| (column * 21 % 256) as u8).collect();
    let mut by_row = CoverageBitmap::new(16, 3);
    let mut by_pixel = CoverageBitmap::new(16, 3);

    for (x, y) in [(0usize, 0usize), (4, 1), (9, 1), (15, 2)] {
        by_row.blend_max_row(x, y, &coverage);
        for (offset, &cover) in coverage.iter().enumerate() {
            by_pixel.blend_max(x + offset, y, cover);
        }
    }
    assert_eq!(by_row.pixels, by_pixel.pixels);
}

#[test]
fn a_row_reaching_past_the_edge_is_cut_rather_than_wrapped_or_refused() {
    // An outline that overshoots its bounding box by a rounding step is a
    // rounding step, not a reason to panic in the middle of a receipt.
    let mut bitmap = CoverageBitmap::new(6, 2);
    bitmap.blend_max_row(4, 0, &[255; 10]);
    bitmap.blend_max_row(6, 0, &[255; 4]);
    bitmap.blend_max_row(0, 2, &[255; 4]);
    assert_eq!(bitmap.get(4, 0), 255);
    assert_eq!(bitmap.get(5, 0), 255);
    assert_eq!(bitmap.get(0, 1), 0, "coverage wrapped onto the next row");
    assert!(bitmap.pixels[6..].iter().all(|&pixel| pixel == 0));
}

#[test]
fn one_bit_conversion_packs_rows_the_way_a_thermal_printer_reads_them() {
    let mut bitmap = CoverageBitmap::new(9, 2);
    bitmap.blend_max(0, 0, 255);
    bitmap.blend_max(7, 0, 255);
    bitmap.blend_max(8, 1, 200);
    let rows = bitmap.to_1bit_rows(128);
    // 9 pixels wide is two bytes per row.
    assert_eq!(rows.len(), 4);
    assert_eq!(rows[0], 0b1000_0001);
    assert_eq!(rows[1], 0);
    assert_eq!(rows[2], 0);
    assert_eq!(rows[3], 0b1000_0000);
}

#[test]
fn thresholding_drops_faint_antialiasing_a_printer_cannot_render() {
    let mut bitmap = CoverageBitmap::new(8, 1);
    bitmap.blend_max(0, 0, 127);
    bitmap.blend_max(1, 0, 128);
    let rows = bitmap.to_1bit_rows(128);
    assert_eq!(rows[0], 0b0100_0000);
}

#[test]
fn a_pgm_header_describes_the_bitmap_that_follows() {
    let bitmap = CoverageBitmap::new(3, 2);
    let pgm = bitmap.to_pgm();
    assert!(pgm.starts_with(b"P5\n3 2\n255\n"));
    assert_eq!(pgm.len(), 11 + 6);
}

#[test]
fn a_new_coverage_bitmap_is_blank_until_something_lands() {
    let mut bitmap = CoverageBitmap::new(4, 4);
    assert!(bitmap.is_blank());
    bitmap.blend_max(3, 3, 1);
    assert!(!bitmap.is_blank());
    assert_eq!(bitmap.get(3, 3), 1);
    assert_eq!(bitmap.get(9, 9), 0, "outside reads as empty");
}
