use pixelkit::raster::painter::{Painter, Rect, WindowBuffer};

#[test]
fn blend_rect_is_clipped_and_alpha_ends_are_exact() {
    let mut buffer = WindowBuffer::new(4, 4);
    let mut painter = Painter::new(&mut buffer);
    painter.clear(0x000000);
    painter.blend_rect(Rect::new(-2, -2, 4, 4), 0xffffff, 255);
    painter.blend_rect(Rect::new(2, 2, 10, 10), 0xffffff, 0);
    assert_eq!(buffer.pixels[0], 0xffffff);
    assert_eq!(buffer.pixels[15], 0);
}

#[test]
fn lines_are_one_pixel_thick_and_clipped() {
    let mut buffer = WindowBuffer::new(4, 4);
    let mut painter = Painter::new(&mut buffer);
    painter.hline(-1, 1, 10, 0x00ff_ffff);
    painter.vline(2, -5, 100, 0x0000_00ff);
    for x in 0..4 {
        let expected = if x == 2 { 0x0000_00ff } else { 0x00ff_ffff };
        assert_eq!(buffer.pixels[4 + x], expected);
    }
    assert_eq!(buffer.pixels[2], 0x0000_00ff);
    assert_eq!(buffer.pixels[0], 0);
}
