use pixelkit::shell::keys::{
    committed_text, function_key, interpret_key, translate, translate_button, KeyInput, LogicalKey, Modifiers, MouseButton,
    NamedKey, PointerButton,
};

#[test]
fn escape_reaches_the_application_rather_than_closing_the_window() {
    assert_eq!(translate(&LogicalKey::Named(NamedKey::Escape), None), Some(KeyInput::Escape));
}

#[test]
fn digits_arrive_the_same_from_the_numpad_and_the_top_row() {
    // Top row: reported as a character.
    assert_eq!(translate(&LogicalKey::Character("7".to_string()), Some("7")), Some(KeyInput::Character('7')));
    // Numpad on platforms that report it as an unnamed key with text.
    assert_eq!(translate(&LogicalKey::Named(NamedKey::Other), Some("7")), Some(KeyInput::Character('7')));
}

#[test]
fn the_keypad_operators_all_translate() {
    for symbol in ['+', '-', '*', '/', '.'] {
        assert_eq!(
            translate(&LogicalKey::Character(symbol.to_string()), None),
            Some(KeyInput::Character(symbol)),
            "{symbol} should reach the application"
        );
    }
}

#[test]
fn function_keys_are_distinguished_from_characters() {
    assert_eq!(translate(&LogicalKey::Named(NamedKey::Function(1)), None), Some(KeyInput::Function(1)));
    assert_ne!(
        translate(&LogicalKey::Named(NamedKey::Function(1)), None),
        translate(&LogicalKey::Named(NamedKey::Function(2)), None)
    );
    assert_eq!(function_key(NamedKey::Function(24)), Some(24));
    assert_eq!(function_key(NamedKey::Function(25)), None, "F25 and beyond are not function keys here");
    assert_eq!(function_key(NamedKey::Tab), None);
}

#[test]
fn a_key_with_no_meaning_is_ignored_rather_than_guessed_at() {
    assert_eq!(translate(&LogicalKey::Named(NamedKey::Other), None), None);
    assert_eq!(translate(&LogicalKey::Unidentified, None), None);
    assert_eq!(translate(&LogicalKey::Unidentified, Some("x")), Some(KeyInput::Character('x')));
}

#[test]
fn the_navigation_keys_a_table_needs_all_arrive() {
    for (named, expected) in [
        (NamedKey::Tab, KeyInput::Tab),
        (NamedKey::Delete, KeyInput::Delete),
        (NamedKey::Home, KeyInput::Home),
        (NamedKey::End, KeyInput::End),
        (NamedKey::PageUp, KeyInput::PageUp),
        (NamedKey::PageDown, KeyInput::PageDown),
    ] {
        assert_eq!(translate(&LogicalKey::Named(named), None), Some(expected));
    }
}

#[test]
fn tab_is_a_key_rather_than_a_character() {
    assert_eq!(translate(&LogicalKey::Named(NamedKey::Tab), Some("\t")), Some(KeyInput::Tab));
}

#[test]
fn the_buttons_a_mouse_has_translate_and_the_extra_ones_do_not() {
    assert_eq!(translate_button(PointerButton::Left), Some(MouseButton::Left));
    assert_eq!(translate_button(PointerButton::Right), Some(MouseButton::Right));
    assert_eq!(translate_button(PointerButton::Middle), Some(MouseButton::Middle));
    assert_eq!(translate_button(PointerButton::Back), None);
    assert_eq!(translate_button(PointerButton::Other(9)), None);
}

#[test]
fn a_key_commits_its_text_only_when_pressed() {
    let key = LogicalKey::Character("a".to_string());
    assert_eq!(committed_text(&key, Some("A")), "A");
    assert_eq!(committed_text(&key, Some("")), "a", "missing text falls back to the key's own");
    assert_eq!(committed_text(&LogicalKey::Named(NamedKey::Tab), Some("\t")), "");
    let shift = Modifiers { shift: true, ..Modifiers::default() };
    let pressed = interpret_key(&key, Some("A"), "KeyA", true, false, shift).unwrap();
    assert_eq!((pressed.key, pressed.text.as_str(), pressed.physical.as_str()), (KeyInput::Character('a'), "A", "KeyA"));
    assert!(pressed.pressed && !pressed.repeat && pressed.modifiers == shift);
    let released = interpret_key(&key, Some("A"), "KeyA", false, false, shift).unwrap();
    assert_eq!(released.text, "", "a release commits nothing");
    assert_eq!(interpret_key(&LogicalKey::Named(NamedKey::Other), None, "AltLeft", true, false, shift), None);
}
