use pixelkit::raster::painter::Rect;
use pixelkit::shell::keys::KeyInput;
use pixelkit::ui::form::{arrow_delta, radio_rows, radio_select, step_selection, CHECKBOX_SIZE, RADIO_SIZE, TOGGLE_SIZE};

#[test]
fn radio_rows_share_the_height_equally() {
    let rows = radio_rows(Rect::new(0, 0, 150, 90), 3);
    assert_eq!(rows, vec![Rect::new(0, 0, 150, 30), Rect::new(0, 30, 150, 30), Rect::new(0, 60, 150, 30)]);
    // 100 / 3 rounds toward zero; the remainder is left at the bottom.
    let rows = radio_rows(Rect::new(5, 10, 40, 100), 3);
    assert_eq!(rows[2], Rect::new(5, 76, 40, 33));
    let rows = radio_rows(Rect::new(0, 0, 10, -7), 2);
    assert_eq!(rows[1], Rect::new(0, -3, 10, -3), "a negative height rounds toward zero too");
}

#[test]
fn arrows_count_down_minus_up() {
    let keys = [KeyInput::Down, KeyInput::Character('x'), KeyInput::Down, KeyInput::Up, KeyInput::Enter];
    assert_eq!(arrow_delta(&keys), 1);
    assert_eq!(arrow_delta(&[]), 0);
    assert_eq!(arrow_delta(&[KeyInput::Up, KeyInput::Up]), -2);
}

#[test]
fn stepping_wraps_at_both_ends() {
    assert_eq!(step_selection(2, 1, 3), 0, "down from the last wraps to the first");
    assert_eq!(step_selection(0, -1, 3), 2, "up from the first wraps to the last");
    assert_eq!(step_selection(1, 1, 3), 2);
    assert_eq!(step_selection(0, -7, 3), 2);
    assert_eq!(step_selection(0, 6, 3), 0);
    assert_eq!(step_selection(0, -3, 3), 0);
}

#[test]
fn control_sizes() {
    assert_eq!((CHECKBOX_SIZE, RADIO_SIZE, TOGGLE_SIZE), (18, 16, (36, 20)));
}

#[test]
fn an_empty_radio_group_keeps_its_selection_and_reports_nothing() {
    assert_eq!(radio_select(3, 0, Some(0), 1), (3, false));
}

#[test]
fn a_radio_selection_past_the_end_is_kept_to_the_last_option() {
    assert_eq!(radio_select(9, 3, None, 0), (2, false));
    assert_eq!(radio_select(9, 3, None, 1), (0, true));
}

#[test]
fn a_click_selects_its_row_and_arrows_then_step_from_it() {
    assert_eq!(radio_select(0, 4, Some(2), 0), (2, true));
    assert_eq!(radio_select(2, 4, Some(2), 0), (2, false), "clicking the selected row changes nothing");
    assert_eq!(radio_select(0, 4, Some(3), 1), (0, true), "down from the last row wraps to the first");
    assert_eq!(radio_select(1, 4, None, -3), (2, true));
}

#[test]
fn arrow_keys_wrap_at_both_ends() {
    let items = 3;
    let mut selected = 2; // last
    let (next, _) = radio_select(selected, items, None, arrow_delta(&[KeyInput::Down]));
    selected = next;
    assert_eq!(selected, 0, "down from the last wraps to the first");

    let (next, _) = radio_select(selected, items, None, arrow_delta(&[KeyInput::Up]));
    selected = next;
    assert_eq!(selected, 2, "up from the first wraps to the last");
    assert_eq!(radio_select(1, 1, None, 1), (0, true), "a lone option stays selected");
}

#[test]
fn an_empty_radio_group_does_not_panic() {
    let (_, changed) = radio_select(0, 0, None, arrow_delta(&[KeyInput::Down]));
    assert!(!changed);
}
