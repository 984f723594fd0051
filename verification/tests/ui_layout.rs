use pixelkit::raster::painter::Rect;
use pixelkit::ui::layout::{columns_per_row, grid, grid_content_height, grid_item, grid_visible_range};

// --- columns_per_row --------------------------------------------------

#[test]
fn columns_fill_the_width_without_overflowing_it() {
    // 3 columns of 20 with a 10 gap between them is 80; a 4th would be
    // 110, past the 100 available.
    assert_eq!(columns_per_row(100, 20, 10), 3);
}

#[test]
fn an_exact_fit_is_not_short_by_one() {
    // Exactly 3 columns of 20 with 10 gaps between: 20*3 + 10*2 = 80.
    assert_eq!(columns_per_row(80, 20, 10), 3);
}

#[test]
fn a_container_narrower_than_one_item_still_gets_one_column() {
    // Crowds, the same way a fixed table column keeps its width in a
    // panel too narrow for it rather than being asked to vanish.
    assert_eq!(columns_per_row(10, 64, 8), 1);
}

#[test]
fn zero_gap_packs_items_edge_to_edge() {
    assert_eq!(columns_per_row(100, 25, 0), 4);
}

#[test]
fn a_non_positive_item_width_has_no_columns() {
    assert_eq!(columns_per_row(100, 0, 8), 0);
    assert_eq!(columns_per_row(100, -5, 8), 0);
}

#[test]
fn a_negative_gap_is_treated_as_zero() {
    assert_eq!(columns_per_row(100, 25, -100), columns_per_row(100, 25, 0));
}

// --- grid_item ----------------------------------------------------------

#[test]
fn the_first_item_sits_at_the_origin() {
    let rect = grid_item((5, 5), (40, 30), (8, 8), 3, 0);
    assert_eq!(rect, Rect::new(5, 5, 40, 30));
}

#[test]
fn items_advance_across_a_row_then_wrap_to_the_next() {
    let origin = (0, 0);
    let item = (40, 30);
    let gap = (8, 8);
    let columns = 3;
    assert_eq!(
        grid_item(origin, item, gap, columns, 1),
        Rect::new(48, 0, 40, 30)
    );
    assert_eq!(
        grid_item(origin, item, gap, columns, 2),
        Rect::new(96, 0, 40, 30)
    );
    // Index 3 wraps: back to column 0, one row down.
    assert_eq!(
        grid_item(origin, item, gap, columns, 3),
        Rect::new(0, 38, 40, 30)
    );
    assert_eq!(
        grid_item(origin, item, gap, columns, 4),
        Rect::new(48, 38, 40, 30)
    );
}

#[test]
fn zero_columns_is_treated_as_one_rather_than_dividing_by_zero() {
    let rect = grid_item((0, 0), (10, 10), (0, 0), 0, 5);
    assert_eq!(rect, Rect::new(0, 50, 10, 10));
}

// --- grid -----------------------------------------------------------------

#[test]
fn a_grid_produces_exactly_count_rects_all_within_its_columns() {
    let area = Rect::new(0, 0, 130, 1_000); // 3 columns of 40 with 5 gaps
    let rects = grid(area, (40, 40), (5, 5), 10);
    assert_eq!(rects.len(), 10);
    for rect in &rects {
        assert!(
            rect.x >= area.x && rect.right() <= area.x + 130,
            "{rect:?} escaped the width"
        );
    }
    // Every rect is distinct — nothing landed on top of anything else.
    for i in 0..rects.len() {
        for j in (i + 1)..rects.len() {
            assert_ne!(rects[i], rects[j], "{i} and {j} landed on the same cell");
        }
    }
}

#[test]
fn a_grid_of_zero_items_is_empty_not_a_crash() {
    assert!(grid(Rect::new(0, 0, 200, 200), (40, 40), (8, 8), 0).is_empty());
}

#[test]
fn a_grid_with_a_non_positive_item_size_is_empty_not_a_crash() {
    assert!(grid(Rect::new(0, 0, 200, 200), (0, 40), (8, 8), 5).is_empty());
}

#[test]
fn a_grids_height_does_not_limit_how_many_rows_it_produces() {
    // A one-pixel-tall area still lays out every requested item — the
    // caller scrolls and clips, the layout does not truncate.
    let area = Rect::new(0, 0, 40, 1);
    let rects = grid(area, (40, 40), (0, 0), 20);
    assert_eq!(rects.len(), 20);
    assert_eq!(rects.last().unwrap().y, 19 * 40);
}

// --- grid_content_height ------------------------------------------------

#[test]
fn content_height_covers_exactly_the_rows_needed_with_no_trailing_gap() {
    // 7 items at 3 columns is 3 rows (3, 3, 1); 3 rows of 40 with 2 gaps
    // of 8 between them, and nothing after the last row.
    assert_eq!(grid_content_height(40, 8, 3, 7), 3 * 40 + 2 * 8);
}

#[test]
fn a_full_last_row_still_has_no_trailing_gap() {
    assert_eq!(grid_content_height(40, 8, 3, 6), 2 * 40 + 8);
}

#[test]
fn a_single_item_is_one_row_with_no_gap_at_all() {
    assert_eq!(grid_content_height(40, 8, 3, 1), 40);
}

#[test]
fn no_items_is_zero_height() {
    assert_eq!(grid_content_height(40, 8, 3, 0), 0);
    assert_eq!(grid_content_height(40, 8, 0, 5), 0);
}

// --- grid_visible_range ---------------------------------------------------

#[test]
fn nothing_scrolled_shows_the_first_rows_that_fit() {
    // 100px viewport, 40px rows (30 item + 10 gap): rows 0, 1, and the
    // one straddling the bottom edge — three rows of 4 columns.
    let (first, last) = grid_visible_range(100, 0, 30, 10, 4, 100);
    assert_eq!((first, last), (0, 12));
}

#[test]
fn scrolling_down_shifts_the_visible_window_by_whole_rows() {
    let (first, last) = grid_visible_range(100, 40, 30, 10, 4, 100);
    assert_eq!(first, 4, "the first row scrolled out");
    assert!(last > first);
}

#[test]
fn the_visible_range_never_reaches_past_the_item_count() {
    let (first, last) = grid_visible_range(1_000, 0, 30, 10, 4, 10);
    assert_eq!(last, 10);
    assert!(first <= last);
}

#[test]
fn an_empty_grid_has_nothing_visible() {
    assert_eq!(grid_visible_range(500, 0, 30, 10, 4, 0), (0, 0));
    assert_eq!(grid_visible_range(500, 0, 30, 10, 0, 20), (0, 0));
}
