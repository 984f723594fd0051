use pixelkit::raster::blend::blend_channels;
use pixelkit::raster::painter::{Painter, Rect, WindowBuffer, INLINE_CLIP_DEPTH};

#[test]
fn a_filled_rectangle_covers_exactly_its_bounds() {
    let mut buffer = WindowBuffer::new(8, 8);
    let mut painter = Painter::new(&mut buffer);
    painter.fill_rect(Rect::new(2, 3, 3, 2), 0x00ff_0000);
    for y in 0..8 {
        for x in 0..8 {
            let inside = (2..5).contains(&x) && (3..5).contains(&y);
            let expected = if inside { 0x00ff_0000 } else { 0 };
            assert_eq!(buffer.pixels[y * 8 + x], expected, "({x}, {y})");
        }
    }
}

#[test]
fn a_rounded_surface_leaves_its_corners_and_keeps_its_border() {
    let mut buffer = WindowBuffer::new(12, 12);
    Painter::new(&mut buffer).rounded_rect(
        Rect::new(1, 1, 10, 10),
        4,
        1,
        0x0011_2233,
        0x00aa_bbcc,
    );
    let pixel = |x: usize, y: usize| buffer.pixels[y * 12 + x];
    assert_eq!(pixel(1, 1), 0, "the square corner stays transparent");
    assert_eq!(pixel(5, 1), 0x00aa_bbcc, "the top edge is the border");
    assert_eq!(pixel(5, 2), 0x0011_2233, "the inside is the fill");
    assert_eq!(pixel(6, 6), 0x0011_2233, "the centre is filled");
}

#[test]
fn drawing_outside_the_buffer_is_clipped_rather_than_wrapped() {
    let mut buffer = WindowBuffer::new(4, 4);
    {
        // Entirely outside, in both directions: nothing at all.
        let mut painter = Painter::new(&mut buffer);
        painter.fill_rect(Rect::new(-10, -10, 5, 5), 0x00ff_ffff);
        painter.fill_rect(Rect::new(100, 100, 5, 5), 0x00ff_ffff);
        painter.put(-1, 0, 0x00ff_0000);
        painter.put(0, 99, 0x00ff_0000);
    }
    assert!(buffer.pixels.iter().all(|&pixel| pixel == 0));

    // Straddling the corner: the overlap is drawn and nothing wraps to the
    // far side.
    Painter::new(&mut buffer).fill_rect(Rect::new(-2, -2, 4, 4), 0x00ff_ffff);
    assert_eq!(buffer.pixels[0], 0x00ff_ffff);
    assert_eq!(buffer.pixels[1], 0x00ff_ffff);
    assert_eq!(buffer.pixels[2], 0, "clipped, not wrapped");
    assert_eq!(buffer.pixels[15], 0);
}

#[test]
fn painter_blending_a_colour_over_itself_changes_nothing() {
    // Antialiased text on a panel of its own colour. Weights summing to
    // 255 rather than 256 lose a step here, and every glyph edge grows a
    // dark fringe — the kind of artifact that gets blamed on the shaper.
    for colour in [0x0000_0000, 0x0012_3456, 0x00ff_ffff, 0x0080_8080] {
        for alpha in 1..=254u8 {
            assert_eq!(
                blend_channels(colour, colour, alpha),
                colour,
                "{colour:#08x} over itself at alpha {alpha}"
            );
        }
    }
}

#[test]
fn painter_a_channel_never_bleeds_into_its_neighbour() {
    // The two-channels-at-once trick is only safe while each product
    // stays inside its byte lane.
    let blended = blend_channels(0x00ff_00ff, 0x0000_ff00, 128);
    assert!(blended <= 0x00ff_ffff, "{blended:#08x} left the lanes");
    assert_eq!(blend_channels(0x0000_0000, 0x00ff_ffff, 255), 0x00ff_ffff);
    assert_eq!(blend_channels(0x00ff_ffff, 0x0000_0000, 255), 0x0000_0000);
}

#[test]
fn clearing_respects_the_clip() {
    // A widget painting its own background is the most ordinary thing a
    // widget does, and `clear` is the obvious way to reach for it.
    let mut buffer = WindowBuffer::new(6, 6);
    let mut painter = Painter::new(&mut buffer);
    painter.push_clip(Rect::new(1, 1, 2, 2));
    painter.clear(0x00ff_ffff);
    painter.pop_clip();

    let inked = buffer.pixels.iter().filter(|&&pixel| pixel != 0).count();
    assert_eq!(inked, 4, "clear escaped its region");

    // With no clip pushed it still means the whole window.
    Painter::new(&mut buffer).clear(0x0011_2233);
    assert!(buffer.pixels.iter().all(|&pixel| pixel == 0x0011_2233));
}

#[test]
fn blending_at_half_coverage_lands_halfway() {
    let mut buffer = WindowBuffer::new(2, 1);
    let mut painter = Painter::new(&mut buffer);
    painter.fill_rect(Rect::new(0, 0, 2, 1), 0x0000_0000);
    painter.blend(0, 0, 0x00ff_ffff, 128);
    let blended = buffer.pixels[0] & 0xff;
    assert!((126..=130).contains(&blended), "got {blended}");
}

#[test]
fn full_and_zero_coverage_short_circuit_correctly() {
    let mut buffer = WindowBuffer::new(2, 1);
    let mut painter = Painter::new(&mut buffer);
    painter.blend(0, 0, 0x00ff_ffff, 255);
    painter.blend(1, 0, 0x00ff_ffff, 0);
    assert_eq!(buffer.pixels[0], 0x00ff_ffff);
    assert_eq!(buffer.pixels[1], 0);
}

#[test]
fn a_blended_row_lands_exactly_where_pixel_by_pixel_blending_would() {
    // The whole point of the row form is that it is the same picture. If
    // it ever is not, every glyph on every screen is subtly wrong and the
    // committed screenshots are the only thing that would notice.
    let coverage: Vec<u8> = (0..40u16).map(|column| (column * 7 % 256) as u8).collect();

    let mut by_row = WindowBuffer::new(48, 4);
    let mut by_pixel = WindowBuffer::new(48, 4);
    for start in [-10i32, -1, 0, 3, 40, 47] {
        let mut painter = Painter::new(&mut by_row);
        painter.blend_coverage_row(start, 1, 0x00ff_8811, &coverage);

        let mut painter = Painter::new(&mut by_pixel);
        for (offset, &cover) in coverage.iter().enumerate() {
            painter.blend(start + offset as i32, 1, 0x00ff_8811, cover);
        }
    }
    assert_eq!(by_row.pixels, by_pixel.pixels);
}

#[test]
fn a_blended_row_is_cut_by_the_clip_rather_than_wrapped() {
    // A label that starts left of its column and runs past the right of
    // it. Both ends have to be cut, and nothing may appear on the row
    // above or below by running off the end of this one.
    let mut buffer = WindowBuffer::new(10, 3);
    let mut painter = Painter::new(&mut buffer);
    painter.push_clip(Rect::new(3, 1, 4, 1));
    painter.blend_coverage_row(-5, 1, 0x00ff_ffff, &[255; 30]);
    painter.blend_coverage_row(-5, 0, 0x00ff_ffff, &[255; 30]);
    painter.blend_coverage_row(-5, 2, 0x00ff_ffff, &[255; 30]);
    painter.pop_clip();

    for y in 0..3 {
        for x in 0..10 {
            let inside = y == 1 && (3..7).contains(&x);
            let expected = if inside { 0x00ff_ffff } else { 0 };
            assert_eq!(buffer.pixels[y * 10 + x], expected, "({x}, {y})");
        }
    }
}

#[test]
fn a_blended_row_entirely_outside_the_buffer_draws_nothing() {
    let mut buffer = WindowBuffer::new(8, 2);
    let mut painter = Painter::new(&mut buffer);
    painter.blend_coverage_row(-100, 0, 0x00ff_ffff, &[255; 20]);
    painter.blend_coverage_row(100, 0, 0x00ff_ffff, &[255; 20]);
    painter.blend_coverage_row(0, -1, 0x00ff_ffff, &[255; 20]);
    painter.blend_coverage_row(0, 2, 0x00ff_ffff, &[255; 20]);
    painter.blend_coverage_row(0, 0, 0x00ff_ffff, &[]);
    assert!(buffer.pixels.iter().all(|&pixel| pixel == 0));
}

#[test]
fn a_full_width_fill_covers_the_same_pixels_as_a_row_at_a_time_one() {
    // `fill_rect` takes a shortcut when a rectangle spans the buffer, and
    // a shortcut that got the last row wrong would show as a one-pixel
    // band nobody looks at directly.
    let mut whole = WindowBuffer::new(9, 6);
    Painter::new(&mut whole).fill_rect(Rect::new(0, 2, 9, 3), 0x0012_3456);

    let mut expected = WindowBuffer::new(9, 6);
    for y in 2..5 {
        for x in 0..9 {
            expected.pixels[y * 9 + x] = 0x0012_3456;
        }
    }
    assert_eq!(whole.pixels, expected.pixels);

    // And it must still be the clip that decides, not the rectangle asked
    // for: a full-width rectangle inside a narrower clip is not full width.
    let mut clipped = WindowBuffer::new(9, 6);
    let mut painter = Painter::new(&mut clipped);
    painter.push_clip(Rect::new(2, 0, 4, 6));
    painter.fill_rect(Rect::new(0, 0, 9, 6), 0x00ff_ffff);
    painter.pop_clip();
    let inked = clipped.pixels.iter().filter(|&&pixel| pixel != 0).count();
    assert_eq!(inked, 4 * 6, "the full-width shortcut escaped the clip");
}

#[test]
fn splitting_a_rectangle_partitions_it_exactly() {
    let rect = Rect::new(10, 20, 100, 50);
    let (top, rest) = rect.split_top(15);
    assert_eq!(top, Rect::new(10, 20, 100, 15));
    assert_eq!(rest, Rect::new(10, 35, 100, 35));
    assert_eq!(top.h + rest.h, rect.h);

    let (right, left) = rect.split_right(30);
    assert_eq!(right, Rect::new(80, 20, 30, 50));
    assert_eq!(left, Rect::new(10, 20, 70, 50));
    assert_eq!(right.w + left.w, rect.w);
}

#[test]
fn splitting_more_than_there_is_takes_everything() {
    let rect = Rect::new(0, 0, 10, 10);
    let (top, rest) = rect.split_top(999);
    assert_eq!(top.h, 10);
    assert_eq!(rest.h, 0);
}

#[test]
fn a_stroked_rectangle_draws_its_border_and_not_its_middle() {
    let mut buffer = WindowBuffer::new(8, 8);
    let mut painter = Painter::new(&mut buffer);
    painter.stroke_rect(Rect::new(1, 1, 6, 6), 1, 0x00ff_ffff);
    let pixel = |x: usize, y: usize| buffer.pixels[y * 8 + x];
    assert_eq!(pixel(1, 1), 0x00ff_ffff, "top-left corner");
    assert_eq!(pixel(6, 1), 0x00ff_ffff, "top-right corner");
    assert_eq!(pixel(1, 6), 0x00ff_ffff, "bottom-left corner");
    assert_eq!(pixel(3, 3), 0, "the middle is untouched");
}

#[test]
fn resizing_keeps_the_buffer_consistent_with_its_dimensions() {
    let mut buffer = WindowBuffer::new(4, 4);
    buffer.resize(10, 3);
    assert_eq!(buffer.pixels.len(), 30);
    assert_eq!((buffer.width, buffer.height), (10, 3));
}

#[test]
fn a_clip_cuts_what_falls_outside_it() {
    // The scrolling case: a row that starts above its viewport must be
    // cut at the top edge, not drawn over the header.
    let mut buffer = WindowBuffer::new(10, 10);
    let mut painter = Painter::new(&mut buffer);
    painter.push_clip(Rect::new(2, 2, 6, 6));
    painter.fill_rect(Rect::new(0, 0, 10, 10), 0x00ff_ffff);
    painter.pop_clip();

    for y in 0..10 {
        for x in 0..10 {
            let inside = (2..8).contains(&x) && (2..8).contains(&y);
            let expected = if inside { 0x00ff_ffff } else { 0 };
            assert_eq!(buffer.pixels[y * 10 + x], expected, "({x}, {y})");
        }
    }
}

#[test]
fn a_nested_clip_cannot_escape_its_parent() {
    // The property that makes nesting safe: a child asking for more than
    // its parent allows gets the intersection, not what it asked for.
    let mut buffer = WindowBuffer::new(10, 10);
    let mut painter = Painter::new(&mut buffer);
    painter.push_clip(Rect::new(2, 2, 4, 4));
    painter.push_clip(Rect::new(0, 0, 10, 10));
    assert_eq!(painter.clip(), Rect::new(2, 2, 4, 4));
    painter.fill_rect(Rect::new(0, 0, 10, 10), 0x00ff_ffff);
    painter.pop_clip();
    painter.pop_clip();

    assert_eq!(buffer.pixels[0], 0, "the parent's bound still held");
    assert_eq!(buffer.pixels[2 * 10 + 2], 0x00ff_ffff);
}

#[test]
fn popping_restores_exactly_what_was_there() {
    let mut buffer = WindowBuffer::new(10, 10);
    let mut painter = Painter::new(&mut buffer);
    let original = painter.clip();
    painter.push_clip(Rect::new(1, 1, 2, 2));
    painter.push_clip(Rect::new(1, 1, 1, 1));
    painter.pop_clip();
    assert_eq!(painter.clip(), Rect::new(1, 1, 2, 2));
    painter.pop_clip();
    assert_eq!(painter.clip(), original);
}

#[test]
fn ordinary_clip_nesting_stays_inline_and_deep_nesting_still_restores() {
    let mut buffer = WindowBuffer::new(64, 64);
    let mut painter = Painter::new(&mut buffer);
    let original = painter.clip();

    for inset in 0..INLINE_CLIP_DEPTH {
        let inset = inset as i32;
        painter.push_clip(Rect::new(inset, inset, 64 - inset * 2, 64 - inset * 2));
    }
    assert_eq!(painter.overflow_capacity(), 0);

    for inset in INLINE_CLIP_DEPTH..INLINE_CLIP_DEPTH + 3 {
        let inset = inset as i32;
        painter.push_clip(Rect::new(inset, inset, 64 - inset * 2, 64 - inset * 2));
    }
    assert_eq!(painter.overflow_len(), 3);

    for _ in 0..INLINE_CLIP_DEPTH + 3 {
        painter.pop_clip();
    }
    assert_eq!(painter.clip(), original);
    assert_eq!(painter.saved_depth(), 0);
    assert_eq!(painter.overflow_len(), 0);
}

#[test]
fn popping_more_than_was_pushed_leaves_the_clip_alone() {
    // A drawing bug should not become a panic in the middle of service.
    let mut buffer = WindowBuffer::new(4, 4);
    let mut painter = Painter::new(&mut buffer);
    painter.pop_clip();
    painter.pop_clip();
    assert_eq!(painter.clip(), Rect::new(0, 0, 4, 4));
    painter.fill_rect(Rect::new(0, 0, 4, 4), 0x00ff_ffff);
    assert!(buffer.pixels.iter().all(|&pixel| pixel == 0x00ff_ffff));
}

#[test]
fn a_clip_bounds_blending_as_well_as_filling() {
    // Text is drawn with `blend`, so a clip that only bound `fill_rect`
    // would cut the row's background and let its letters through.
    let mut buffer = WindowBuffer::new(6, 6);
    let mut painter = Painter::new(&mut buffer);
    painter.push_clip(Rect::new(2, 2, 2, 2));
    for y in 0..6 {
        for x in 0..6 {
            painter.blend(x, y, 0x00ff_ffff, 128);
            painter.blend(x, y, 0x00ff_ffff, 255);
        }
    }
    painter.pop_clip();

    let inked = buffer.pixels.iter().filter(|&&pixel| pixel != 0).count();
    assert_eq!(inked, 4, "only the clipped 2×2 should have ink");
}

#[test]
fn visibility_answers_before_anything_is_drawn() {
    let mut buffer = WindowBuffer::new(10, 10);
    let mut painter = Painter::new(&mut buffer);
    painter.push_clip(Rect::new(0, 4, 10, 4));
    // A table asks this per row so it can skip laying out what is
    // scrolled off; it must not skip a row that is only half visible.
    assert!(!painter.is_visible(Rect::new(0, 0, 10, 4)), "wholly above");
    assert!(painter.is_visible(Rect::new(0, 2, 10, 4)), "straddling");
    assert!(painter.is_visible(Rect::new(0, 4, 10, 1)), "inside");
    assert!(!painter.is_visible(Rect::new(0, 8, 10, 4)), "wholly below");
}

#[test]
fn intersecting_disjoint_rectangles_is_empty_rather_than_negative() {
    let a = Rect::new(0, 0, 5, 5);
    let b = Rect::new(50, 50, 5, 5);
    let overlap = a.intersect(b);
    assert!(overlap.is_empty());
    assert!(overlap.w >= 0 && overlap.h >= 0, "{overlap:?}");
}

#[test]
fn every_split_partitions_exactly() {
    let rect = Rect::new(10, 20, 100, 50);

    let (bottom, rest) = rect.split_bottom(15);
    assert_eq!(bottom, Rect::new(10, 55, 100, 15));
    assert_eq!(rest, Rect::new(10, 20, 100, 35));
    assert_eq!(bottom.h + rest.h, rect.h);

    let (left, rest) = rect.split_left(30);
    assert_eq!(left, Rect::new(10, 20, 30, 50));
    assert_eq!(rest, Rect::new(40, 20, 70, 50));
    assert_eq!(left.w + rest.w, rect.w);
}

#[test]
fn translating_moves_a_rectangle_without_resizing_it() {
    let rect = Rect::new(5, 5, 20, 10);
    let moved = rect.translate(-3, 7);
    assert_eq!(moved, Rect::new(2, 12, 20, 10));
    assert_eq!((moved.w, moved.h), (rect.w, rect.h));
}
