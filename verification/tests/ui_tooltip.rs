use pixelkit::raster::painter::Rect;
use pixelkit::ui::tooltip::tooltip_origin;

#[test]
fn a_tooltip_sits_past_the_pointer_by_its_offset() {
    assert_eq!(tooltip_origin((20, 20), (10, 10), (50, 30), Rect::new(0, 0, 200, 100)), (30, 30));
}

#[test]
fn a_tooltip_near_the_edge_flips_inside_the_bounds() {
    // Near the bottom-right corner it flips left and up.
    assert_eq!(tooltip_origin((195, 95), (10, 10), (80, 30), Rect::new(0, 0, 200, 100)), (105, 55));
    // Flipping would leave the bounds too: it stops at their edge.
    assert_eq!(tooltip_origin((30, 95), (10, 10), (180, 200), Rect::new(0, 0, 200, 100)), (0, 0));
}
