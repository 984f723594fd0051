use pixelkit::raster::painter::Rect;
use pixelkit::shell::input::Input;
use pixelkit::shell::keys::{KeyInput, Modifiers, MouseButton};

fn at(x: i32, y: i32) -> Input {
    let mut input = Input::new();
    input.cursor_moved(x, y);
    input
}

#[test]
fn a_click_belongs_to_exactly_one_widget() {
    // Two widgets overlapping the same point. Without claiming, both fire
    // and the one drawn underneath usually wins.
    let mut input = at(10, 10);
    input.mouse(MouseButton::Left, true);

    let over = Rect::new(0, 0, 20, 20);
    assert!(input.take_click(over), "the first claimant gets it");
    assert!(!input.take_click(over), "and there is nothing left to take");
}

#[test]
fn a_click_outside_is_not_claimed_and_stays_available() {
    let mut input = at(50, 50);
    input.mouse(MouseButton::Left, true);

    assert!(!input.take_click(Rect::new(0, 0, 20, 20)));
    assert!(
        input.take_click(Rect::new(40, 40, 20, 20)),
        "a widget that does contain it can still claim it"
    );
}

#[test]
fn holding_the_button_persists_across_frames_but_the_click_does_not() {
    // Held is state; the press is an edge.
    let mut input = at(10, 10);
    input.mouse(MouseButton::Left, true);
    let area = Rect::new(0, 0, 20, 20);

    assert!(input.pressing(area));
    input.end_frame();
    assert!(input.pressing(area), "still held");
    assert!(!input.take_click(area), "but not clicked again");

    input.mouse(MouseButton::Left, false);
    assert!(!input.pressing(area));
}

#[test]
fn a_drag_that_leaves_the_window_does_not_stay_held() {
    let mut input = at(10, 10);
    input.mouse(MouseButton::Left, true);
    input.cursor_left();

    assert!(!input.pressing(Rect::new(0, 0, 20, 20)));
    assert!(!input.hovering(Rect::new(0, 0, 20, 20)));
    assert_eq!(input.cursor(), None);
}

#[test]
fn keys_arrive_in_the_order_they_were_typed() {
    let mut input = Input::new();
    for character in "341".chars() {
        input.key(KeyInput::Character(character));
    }
    input.key(KeyInput::Enter);

    assert_eq!(
        input.keys(),
        &[
            KeyInput::Character('3'),
            KeyInput::Character('4'),
            KeyInput::Character('1'),
            KeyInput::Enter,
        ]
    );
    assert_eq!(input.take_keys().len(), 4);
    assert!(input.keys().is_empty(), "taken means taken");
}

#[test]
fn a_focused_widget_can_consume_keys_without_leaving_any_for_another() {
    let mut input = Input::new();
    input.key(KeyInput::Character('4'));
    input.key(KeyInput::Enter);
    let seen = input.consume_keys(|keys| keys.to_vec());
    assert_eq!(
        seen,
        vec![KeyInput::Character('4'), KeyInput::Enter],
        "the widget sees the original order"
    );
    assert!(input.keys().is_empty(), "the keys were claimed");
}

#[test]
fn a_right_click_is_separate_from_a_left_one() {
    let mut input = at(10, 10);
    let area = Rect::new(0, 0, 20, 20);
    input.mouse(MouseButton::Right, true);

    assert!(!input.take_click(area), "not a left click");
    assert!(input.take_context_click(area));
    assert!(!input.take_context_click(area));
}

#[test]
fn a_press_lands_where_the_cursor_was_not_where_it_ends_up() {
    let mut input = at(10, 10);
    input.mouse(MouseButton::Left, true);
    input.cursor_moved(90, 90);

    assert!(input.take_click(Rect::new(0, 0, 20, 20)));
}

#[test]
fn a_press_with_the_cursor_outside_the_window_claims_nothing() {
    let mut input = Input::new();
    input.mouse(MouseButton::Left, true);
    assert!(!input.take_click(Rect::new(0, 0, 1_000, 1_000)));
}

#[test]
fn unclaimed_presses_and_keys_do_not_survive_the_frame() {
    let mut input = at(10, 10);
    input.mouse(MouseButton::Left, true);
    input.mouse(MouseButton::Right, true);
    input.key(KeyInput::Enter);
    input.end_frame();
    assert!(!input.take_click(Rect::new(0, 0, 20, 20)));
    assert!(!input.take_context_click(Rect::new(0, 0, 20, 20)));
    assert!(input.keys().is_empty());
    assert_eq!(input.cursor(), Some((10, 10)), "the cursor stays where it is");
}

#[test]
fn a_middle_button_records_nothing() {
    let mut input = at(5, 5);
    input.mouse(MouseButton::Middle, true);
    assert!(!input.take_click(Rect::new(0, 0, 20, 20)));
    assert!(!input.pressing(Rect::new(0, 0, 20, 20)));
    let shift = Modifiers { shift: true, ..Modifiers::default() };
    input.modifiers_changed(shift);
    assert_eq!(input.modifiers(), shift);
}

#[test]
fn accel_reads_logo_on_macos_and_control_elsewhere() {
    let ctrl_only = Modifiers { control: true, ..Modifiers::default() };
    let logo_only = Modifiers { logo: true, ..Modifiers::default() };
    assert!(logo_only.accel(true));
    assert!(!ctrl_only.accel(true));
    assert!(ctrl_only.accel(false));
    assert!(!logo_only.accel(false));
}

#[test]
fn a_claimed_click_flips_a_toggle_once() {
    let mut input = at(5, 5);
    input.mouse(MouseButton::Left, true);
    let area = Rect::new(0, 0, 10, 10);
    let mut on = false;
    assert!(input.take_toggle(area, &mut on));
    assert!(on);
    assert!(!input.take_toggle(area, &mut on), "the click is gone");
    assert!(on, "and the value stays as it was");
}
