use pixelkit::shell::keys::KeyInput;
use pixelkit::text::align::Align;
use pixelkit::ui::widget::{column_widths, navigate, Column, ScrollState, TableState};
use pixelkit::ui::widget::visible_rows;
use pixelkit::raster::painter::Rect;
use pixelkit::ui::widget::{table_scrollbar, widths_fit_check};
use pixelkit::ui::widget::{COLUMN_GAP, TABLE_GUTTER};

fn keys(count: usize) -> Vec<String> {
    (0..count).map(|index| format!("row-{index}")).collect()
}

// --- scrolling ------------------------------------------------------

#[test]
fn a_list_that_fits_cannot_be_scrolled() {
    // The commonest hand-written scroll bug: content drifts off the top
    // and cannot be brought back.
    let mut scroll = ScrollState::new();
    assert_eq!(scroll.scroll_by(500, 400, 200), 0);
    assert_eq!(scroll.offset(), 0);
    assert_eq!(ScrollState::max_offset(400, 200), 0);
}

#[test]
fn scrolling_clamps_at_both_ends() {
    let mut scroll = ScrollState::new();
    assert_eq!(scroll.scroll_by(-100, 100, 500), 0, "already at the top");

    scroll.scroll_by(1_000, 100, 500);
    assert_eq!(scroll.offset(), 400, "the last screenful, not past it");

    scroll.scroll_by(50, 100, 500);
    assert_eq!(scroll.offset(), 400);

    scroll.scroll_by(-1_000, 100, 500);
    assert_eq!(scroll.offset(), 0);
}

#[test]
fn a_shorter_list_pulls_the_view_back() {
    // A filter typed while scrolled to the bottom. Without clamping, the
    // table shows blank space and looks broken.
    let mut scroll = ScrollState::new();
    scroll.scroll_by(1_000, 100, 900);
    assert_eq!(scroll.offset(), 800);

    scroll.clamp_to(100, 150);
    assert_eq!(scroll.offset(), 50);

    scroll.clamp_to(100, 40);
    assert_eq!(scroll.offset(), 0, "everything fits now");
}

#[test]
fn revealing_moves_as_little_as_it_must() {
    let mut scroll = ScrollState::new();
    // Below the fold: scroll just far enough that it is the bottom row.
    scroll.bring_into_view(300, 30, 100, 1_000);
    assert_eq!(scroll.offset(), 230);

    // Already visible: nothing moves.
    scroll.bring_into_view(250, 30, 100, 1_000);
    assert_eq!(scroll.offset(), 230);

    // Above: to the top of it, not past.
    scroll.bring_into_view(100, 30, 100, 1_000);
    assert_eq!(scroll.offset(), 100);
}

// --- selection ------------------------------------------------------

#[test]
fn a_selection_follows_its_row_through_a_resort() {
    // The reason selection is by key. With an index, re-sorting moves the
    // selection to whatever now sits at that position — and on a stock
    // screen that is a manager acting on the wrong ingredient.
    let sorted_by_name = vec!["beef".to_owned(), "pork".to_owned(), "rice".to_owned()];
    let sorted_by_value = vec!["rice".to_owned(), "beef".to_owned(), "pork".to_owned()];

    let mut state = TableState::new();
    state.select(Some("pork".to_owned()));
    assert_eq!(state.selected_index(&sorted_by_name), Some(1));
    assert_eq!(state.selected_index(&sorted_by_value), Some(2));
    assert_eq!(state.selected(), Some("pork"), "still the pork");
}

#[test]
fn a_selection_whose_row_is_gone_is_forgotten() {
    let mut state = TableState::new();
    state.select(Some("pork".to_owned()));
    state.prune(&["beef".to_owned(), "rice".to_owned()]);
    assert_eq!(state.selected(), None);
}

#[test]
fn moving_the_selection_stops_at_the_ends() {
    let keys = keys(3);
    let mut state = TableState::new();

    state.move_by(1, &keys);
    assert_eq!(state.selected(), Some("row-0"), "down selects the first");

    state.move_by(-1, &keys);
    assert_eq!(state.selected(), Some("row-0"), "and stays there");

    state.move_by(10, &keys);
    assert_eq!(state.selected(), Some("row-2"), "not past the end");
}

#[test]
fn arrowing_up_into_an_unselected_table_lands_at_the_bottom() {
    let keys = keys(4);
    let mut state = TableState::new();
    state.move_by(-1, &keys);
    assert_eq!(state.selected(), Some("row-3"));
}

#[test]
fn an_empty_table_has_nothing_to_select() {
    let mut state = TableState::new();
    state.select(Some("gone".to_owned()));
    state.move_by(1, &[]);
    assert_eq!(state.selected(), None);
}

#[test]
fn the_navigation_keys_all_move_the_selection() {
    let keys = keys(50);
    let mut state = TableState::new();

    assert!(navigate(&mut state, &keys, 10, &[KeyInput::Down]));
    assert_eq!(state.selected(), Some("row-0"));

    navigate(&mut state, &keys, 10, &[KeyInput::PageDown]);
    assert_eq!(state.selected(), Some("row-10"));

    navigate(&mut state, &keys, 10, &[KeyInput::End]);
    assert_eq!(state.selected(), Some("row-49"));

    navigate(&mut state, &keys, 10, &[KeyInput::Home]);
    assert_eq!(state.selected(), Some("row-0"));

    assert!(
        !navigate(&mut state, &keys, 10, &[KeyInput::Up]),
        "already at the top, so nothing moved"
    );
    assert!(
        !navigate(&mut state, &keys, 10, &[KeyInput::Character('x')]),
        "a key the table does not use"
    );
}

#[test]
fn several_keys_in_one_frame_all_apply() {
    // Held arrow keys repeat faster than the screen redraws.
    let keys = keys(20);
    let mut state = TableState::new();
    navigate(
        &mut state,
        &keys,
        5,
        &[KeyInput::Down, KeyInput::Down, KeyInput::Down],
    );
    assert_eq!(state.selected(), Some("row-2"));
}

// --- columns --------------------------------------------------------

#[test]
fn columns_fill_their_width_exactly() {
    // A row that ends a pixel short of the panel looks like a rendering
    // fault, and one that ends a pixel over spills into the scrollbar.
    let columns = vec![
        Column::fixed("code", 100, Align::Left),
        Column::flex("name", 2, Align::Left),
        Column::fixed("value", 90, Align::Right),
        Column::flex("note", 1, Align::Left),
    ];
    for total in [400, 401, 402, 743, 1_000] {
        let widths = column_widths(&columns, total, 8);
        let used: i32 = widths.iter().sum::<i32>() + 8 * 3;
        assert_eq!(used, total, "at {total}px");
        assert!(widths.iter().all(|width| *width >= 0));
    }
}

#[test]
fn flexible_columns_share_in_proportion() {
    let columns = vec![
        Column::flex("a", 1, Align::Left),
        Column::flex("b", 3, Align::Left),
    ];
    let widths = column_widths(&columns, 408, 8);
    assert_eq!(widths, vec![100, 300]);
}

#[test]
fn a_narrow_panel_does_not_produce_negative_columns() {
    // A window dragged very small. Columns get nothing rather than a
    // negative width that would panic a rectangle somewhere later.
    let columns = vec![
        Column::fixed("code", 100, Align::Left),
        Column::flex("name", 1, Align::Left),
    ];
    let widths = column_widths(&columns, 20, 8);
    assert!(widths.iter().all(|width| *width >= 0), "{widths:?}");
    // The fixed column keeps its size and crowds the panel; the flexible
    // one gets nothing, which is the honest answer at 20 pixels.
    assert_eq!(widths, vec![100, 0]);
}

#[test]
fn no_columns_is_not_a_crash() {
    assert!(column_widths(&[], 500, 8).is_empty());
}

#[test]
fn only_fixed_columns_take_exactly_what_they_asked_for() {
    let columns = vec![
        Column::fixed("a", 100, Align::Left),
        Column::fixed("b", 50, Align::Right),
    ];
    assert_eq!(column_widths(&columns, 500, 8), vec![100, 50]);
}
#[test]
fn pruning_keeps_a_selection_whose_row_is_still_there() {
    let mut state = TableState::new();
    state.select(Some("rice".to_owned()));
    state.prune(&["beef".to_owned(), "rice".to_owned()]);
    assert_eq!(state.selected(), Some("rice"));
    assert!(state.is_selected("rice"));
    assert!(!state.is_selected("beef"));
    assert_eq!(state.selected_index(&["rice".to_owned()]), Some(0));
    assert_eq!(state.selected_index(&["beef".to_owned()]), None);
}

#[test]
fn scroll_by_reports_how_far_it_actually_moved() {
    let mut scroll = ScrollState::default();
    assert_eq!(scroll.scroll_by(30, 100, 500), 30);
    assert_eq!(scroll.scroll_by(1_000, 100, 500), 370);
    assert_eq!(scroll.scroll_by(-500, 100, 500), -400);
}

#[test]
fn columns_with_negative_weights_share_nothing() {
    let columns = vec![
        Column::fixed("code", 100, Align::Left),
        Column::flex("none", -3, Align::Left),
    ];
    assert_eq!(column_widths(&columns, 500, 8), vec![100, 0]);
}

#[test]
fn a_table_draws_only_the_rows_its_viewport_shows() {
    assert_eq!(visible_rows(0, 90, 30, 100), (0, 4));
    assert_eq!(visible_rows(45, 90, 30, 100), (1, 5));
    assert_eq!(visible_rows(0, 90, 30, 2), (0, 2), "never past the last row");
}

#[test]
fn a_table_scrollbar_shows_where_the_view_is() {
    let body = Rect::new(0, 30, 200, 100);
    assert_eq!(table_scrollbar(body, 100, 0), None, "everything fits");
    // 400 px of rows in 100: the thumb is a quarter of the track.
    let (track, thumb) = table_scrollbar(body, 400, 0).unwrap();
    assert_eq!(track, Rect::new(193, 30, 4, 100));
    assert_eq!(thumb, Rect::new(193, 30, 4, 25));
    let (_, thumb) = table_scrollbar(body, 400, 300).unwrap();
    assert_eq!(thumb, Rect::new(193, 105, 4, 25), "scrolled to the end, it sits at the bottom");
    // A thumb is never shorter than 20.
    let (_, thumb) = table_scrollbar(body, 10_000, 4_950).unwrap();
    assert_eq!(thumb, Rect::new(193, 70, 4, 20));
}

#[test]
fn a_column_layout_is_checked_before_it_is_computed() {
    let columns = [
        Column::fixed("Code", 80, Align::Left),
        Column::flex("Name", 2, Align::Left),
        Column::flex("Qty", 1, Align::Right),
    ];
    assert!(widths_fit_check(&columns, 500, 8));
    assert!(widths_fit_check(&[], 500, 8));
    let huge = [Column::fixed("A", i32::MAX, Align::Left), Column::fixed("B", i32::MAX, Align::Left)];
    assert!(!widths_fit_check(&huge, 500, 8), "the fixed widths alone overflow");
    let heavy = [Column::flex("A", i32::MAX, Align::Left)];
    assert!(!widths_fit_check(&heavy, 1_000, 8), "the spare width times the weight overflows");
}

#[test]
fn columns_never_reach_under_the_scrollbar() {
    let columns = vec![
        Column::flex("name", 1, Align::Left),
        Column::fixed("value", 120, Align::Right),
    ];
    for total in [300, 500, 743, 1_100] {
        let widths = column_widths(&columns, total - TABLE_GUTTER, COLUMN_GAP);
        let right_edge: i32 = widths.iter().sum::<i32>() + COLUMN_GAP;
        assert!(
            right_edge <= total - TABLE_GUTTER,
            "at {total}px the columns reach {right_edge}, into the gutter"
        );
    }
}

#[test]
fn home_and_end_pick_the_ends_even_with_nothing_selected() {
    let keys = keys(5);
    let mut state = TableState::new();
    assert!(navigate(&mut state, &keys, 10, &[KeyInput::Home]));
    assert_eq!(state.selected(), Some("row-0"));

    let mut state = TableState::new();
    assert!(navigate(&mut state, &keys, 10, &[KeyInput::End]));
    assert_eq!(state.selected(), Some("row-4"));

    let mut state = TableState::new();
    navigate(&mut state, &keys, 10, &[KeyInput::Down, KeyInput::Down, KeyInput::Home]);
    assert_eq!(state.selected(), Some("row-0"));
    navigate(&mut state, &keys, 10, &[KeyInput::End, KeyInput::Up]);
    assert_eq!(state.selected(), Some("row-3"));
}
