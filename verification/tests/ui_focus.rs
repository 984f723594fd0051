use pixelkit::shell::keys::{KeyInput, Modifiers};
use pixelkit::ui::focus::Focus;

fn shift() -> Modifiers {
    Modifiers {
        shift: true,
        ..Modifiers::default()
    }
}

/// Run one simulated frame: apply Tab handling, then register `count`
/// widgets, returning which indices reported themselves focused.
fn frame(
    focus: &mut Focus,
    keys: &[KeyInput],
    modifiers: Modifiers,
    count: usize,
) -> Vec<usize> {
    focus.handle_tab(keys, modifiers);
    (0..count).filter(|_| focus.register()).collect()
}

#[test]
fn nothing_is_focused_until_something_is_asked_for() {
    let mut focus = Focus::new();
    assert_eq!(focus.current(), None);
    assert!(!focus.register());
    assert!(!focus.register());
}

#[test]
fn tab_focuses_the_first_widget_from_nothing_focused() {
    let mut focus = Focus::new();
    frame(&mut focus, &[], Modifiers::default(), 3); // establish the count
    assert_eq!(
        frame(&mut focus, &[KeyInput::Tab], Modifiers::default(), 3),
        vec![0]
    );
}

#[test]
fn shift_tab_focuses_the_last_widget_from_nothing_focused() {
    let mut focus = Focus::new();
    frame(&mut focus, &[], Modifiers::default(), 3);
    assert_eq!(frame(&mut focus, &[KeyInput::Tab], shift(), 3), vec![2]);
}

#[test]
fn repeated_tabs_step_through_every_widget_and_wrap() {
    let mut focus = Focus::new();
    frame(&mut focus, &[], Modifiers::default(), 3);
    assert_eq!(
        frame(&mut focus, &[KeyInput::Tab], Modifiers::default(), 3),
        vec![0]
    );
    assert_eq!(
        frame(&mut focus, &[KeyInput::Tab], Modifiers::default(), 3),
        vec![1]
    );
    assert_eq!(
        frame(&mut focus, &[KeyInput::Tab], Modifiers::default(), 3),
        vec![2]
    );
    assert_eq!(
        frame(&mut focus, &[KeyInput::Tab], Modifiers::default(), 3),
        vec![0],
        "wraps back to the first"
    );
}

#[test]
fn shift_tab_steps_backwards_and_wraps() {
    let mut focus = Focus::new();
    frame(&mut focus, &[], Modifiers::default(), 3);
    frame(&mut focus, &[KeyInput::Tab], Modifiers::default(), 3); // focus 0
    assert_eq!(
        frame(&mut focus, &[KeyInput::Tab], shift(), 3),
        vec![2],
        "backwards from the first wraps to the last"
    );
}

#[test]
fn several_tabs_in_one_frame_all_apply() {
    // A key repeated faster than the screen redraws, same as
    // `navigate`'s equivalent test for table selection.
    let mut focus = Focus::new();
    frame(&mut focus, &[], Modifiers::default(), 5);
    assert_eq!(
        frame(
            &mut focus,
            &[KeyInput::Tab, KeyInput::Tab, KeyInput::Tab],
            Modifiers::default(),
            5
        ),
        vec![2]
    );
}

#[test]
fn a_field_removed_since_last_frame_leaves_focus_nowhere_for_one_frame_then_it_recovers() {
    let mut focus = Focus::new();
    frame(&mut focus, &[], Modifiers::default(), 5);
    focus.set(4); // the last of the five

    // The screen now only draws two widgets.
    let seen = frame(&mut focus, &[], Modifiers::default(), 2);
    assert!(seen.is_empty(), "index 4 does not exist among 2 widgets");

    // The next frame's Tab handling clamps the stale index into the
    // count that frame actually established, and focus is valid again.
    let seen = frame(&mut focus, &[], Modifiers::default(), 2);
    assert_eq!(seen, vec![1], "clamped to the new last index");
}

#[test]
fn advance_wraps_for_deltas_larger_than_the_count() {
    let mut focus = Focus::new();
    frame(&mut focus, &[], Modifiers::default(), 3);
    focus.set(0);
    focus.advance(10); // 10 mod 3 == 1
    assert_eq!(focus.current(), Some(1));
    focus.advance(-10); // back down, wrapping
    assert_eq!(focus.current(), Some(0));
}

#[test]
fn arrow_keys_are_ignored_unless_a_screen_opts_in() {
    let mut focus = Focus::new();
    frame(&mut focus, &[], Modifiers::default(), 3);
    focus.handle_tab(&[], Modifiers::default());
    focus.handle_arrows(
        &[KeyInput::Down, KeyInput::Character('a')],
        KeyInput::Right,
        KeyInput::Left,
    );
    assert_eq!(
        focus.current(),
        None,
        "Down was not the key this screen chose"
    );
}

#[test]
fn arrow_keys_move_focus_once_a_screen_wires_them_up() {
    let mut focus = Focus::new();
    frame(&mut focus, &[], Modifiers::default(), 3);
    focus.handle_tab(&[], Modifiers::default());
    focus.handle_arrows(&[KeyInput::Right], KeyInput::Right, KeyInput::Left);
    assert_eq!(focus.current(), Some(0));
    focus.handle_tab(&[], Modifiers::default());
    focus.handle_arrows(&[KeyInput::Left], KeyInput::Right, KeyInput::Left);
    assert_eq!(
        focus.current(),
        Some(2),
        "left from the first wraps to the last"
    );
}

#[test]
fn set_and_clear_override_whatever_tab_would_have_done() {
    let mut focus = Focus::new();
    frame(&mut focus, &[], Modifiers::default(), 3);
    focus.set(1);
    assert_eq!(focus.current(), Some(1));
    focus.clear();
    assert_eq!(focus.current(), None);
}

#[test]
fn with_no_focusable_widgets_at_all_nothing_panics() {
    let mut focus = Focus::new();
    focus.handle_tab(&[KeyInput::Tab], Modifiers::default());
    focus.handle_arrows(&[KeyInput::Down], KeyInput::Down, KeyInput::Up);
    assert_eq!(focus.current(), None);
}
