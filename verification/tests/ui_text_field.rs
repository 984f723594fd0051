use pixelkit::shell::keys::KeyInput;
use pixelkit::text::font::is_thai_combining;
use pixelkit::ui::text_field::TextFieldState;

/// Every Thai cluster boundary in a string, as byte offsets.
fn boundaries(text: &str) -> Vec<usize> {
    let mut offsets = vec![0];
    for (index, character) in text.char_indices() {
        if index > 0 && !is_thai_combining(character) {
            offsets.push(index);
        }
    }
    offsets.push(text.len());
    offsets.dedup();
    offsets
}

/// A word of each awkward shape: tone on an upper vowel, below-vowel with
/// a tone above, sara am, and Latin mixed in.
const AWKWARD: &str = "น้ำพริกเผาปุ๋ยก็ ABC 12";

#[test]
fn the_caret_only_ever_rests_on_a_cluster_boundary() {
    // Walking right from the start, then left from the end. A caret
    // between ก and its tone mark is a position no reader recognises,
    // and backspacing from it changes the word rather than deleting a
    // letter.
    let allowed = boundaries(AWKWARD);

    let mut field = TextFieldState::with_text(AWKWARD);
    field.home();
    let mut seen = vec![field.caret()];
    while field.caret() < AWKWARD.len() {
        let before = field.caret();
        field.move_right();
        assert!(field.caret() > before, "the caret stopped moving");
        assert!(
            allowed.contains(&field.caret()),
            "rightwards, caret landed at {} which is inside a cluster",
            field.caret()
        );
        seen.push(field.caret());
    }

    field.end();
    while field.caret() > 0 {
        let before = field.caret();
        field.move_left();
        assert!(field.caret() < before);
        assert!(
            allowed.contains(&field.caret()),
            "leftwards, caret landed at {} which is inside a cluster",
            field.caret()
        );
    }

    // And the two directions agree about where the stops are.
    assert_eq!(seen, allowed);
}

#[test]
fn backspace_removes_a_letter_rather_than_a_mark() {
    // น้ำ is three characters and two letters. Deleting one character at
    // a time would leave น with no tone mark — a different word, and the
    // typist saw nothing disappear.
    let mut field = TextFieldState::with_text("น้ำ");
    assert_eq!(field.text().chars().count(), 3);

    field.backspace();
    assert_eq!(field.text(), "น้", "ำ is one letter");
    field.backspace();
    assert_eq!(field.text(), "", "and น้ is the other, mark and all");
}

#[test]
fn delete_forwards_removes_a_whole_cluster_too() {
    let mut field = TextFieldState::with_text("ก็ข");
    field.home();
    field.delete();
    assert_eq!(field.text(), "ข", "ก and its mark went together");
    field.delete();
    assert_eq!(field.text(), "");
    field.delete();
    assert_eq!(field.text(), "", "and deleting past the end is harmless");
}

#[test]
fn backspacing_from_the_start_is_harmless() {
    let mut field = TextFieldState::with_text("ข้าว");
    field.home();
    field.backspace();
    assert_eq!(field.text(), "ข้าว");
    assert_eq!(field.caret(), 0);
}

#[test]
fn deleting_from_every_position_leaves_valid_text() {
    // Exhaustive, because the failure is silent: the string stays valid
    // UTF-8 and simply means something else.
    for start in boundaries(AWKWARD) {
        let mut field = TextFieldState::with_text(AWKWARD);
        field.home();
        while field.caret() < start {
            field.move_right();
        }
        field.backspace();
        // The caret must sit at a cluster boundary, which is about what
        // is to its *right*: a mark there has been separated from the
        // base it belongs to. A mark to its left is ordinary — that is
        // simply the end of a complete cluster, which น้ is.
        assert!(
            !field.text()[field.caret()..]
                .chars()
                .next()
                .is_some_and(is_thai_combining),
            "backspacing at {start} left the caret inside a cluster: {:?}",
            field.text()
        );
        // Whatever remains must not begin with a combining mark, which
        // would be a mark with no base to attach to.
        assert!(
            !field
                .text()
                .chars()
                .next()
                .is_some_and(is_thai_combining),
            "backspacing at {start} left {:?} starting with a mark",
            field.text()
        );
    }
}

#[test]
fn typing_a_thai_word_reads_back_as_it_was_typed() {
    let mut field = TextFieldState::new();
    for character in "ข้าวผัด".chars() {
        field.insert(character);
    }
    assert_eq!(field.text(), "ข้าวผัด");
    assert_eq!(field.caret(), field.text().len());
}

#[test]
fn a_frame_of_keys_applies_in_order_and_reports_a_change() {
    let mut field = TextFieldState::new();
    let typed: Vec<KeyInput> = "rice".chars().map(KeyInput::Character).collect();
    assert!(field.apply(&typed));
    assert_eq!(field.text(), "rice");

    assert!(field.apply(&[KeyInput::Backspace, KeyInput::Backspace]));
    assert_eq!(field.text(), "ri");

    // Movement is not a change.
    assert!(!field.apply(&[KeyInput::Home, KeyInput::Right, KeyInput::End]));
    assert_eq!(field.text(), "ri");
}

#[test]
fn control_characters_are_not_typed_into_the_field() {
    // Tab arrives with text "\t" on some platforms, and a literal tab in
    // a search box is a character nobody can see or delete.
    let mut field = TextFieldState::new();
    assert!(!field.apply(&[
        KeyInput::Character('\t'),
        KeyInput::Character('\n'),
        KeyInput::Enter,
        KeyInput::Escape,
    ]));
    assert!(field.is_empty());
}

#[test]
fn inserting_in_the_middle_lands_where_the_caret_is() {
    let mut field = TextFieldState::with_text("ac");
    field.move_left();
    field.insert('b');
    assert_eq!(field.text(), "abc");
    assert_eq!(field.caret(), 2);
}

#[test]
fn an_empty_field_moves_nowhere() {
    let mut field = TextFieldState::new();
    field.move_left();
    field.move_right();
    field.backspace();
    field.delete();
    assert!(field.is_empty());
    assert_eq!(field.caret(), 0);
}
#[test]
fn set_text_and_clear_put_the_caret_where_they_should() {
    let mut field = TextFieldState::new();
    field.set_text("ข้าว");
    assert_eq!(field.text(), "ข้าว");
    assert_eq!(field.caret(), "ข้าว".len());
    field.clear();
    assert!(field.is_empty());
    assert_eq!(field.caret(), 0);
}

#[test]
fn the_caret_counts_bytes_not_characters() {
    let mut field = TextFieldState::with_text("aก");
    assert_eq!(field.caret(), 4);
    field.move_left();
    assert_eq!(field.caret(), 1);
    field.home();
    field.end();
    assert_eq!(field.caret(), 4);
}

#[test]
fn delete_and_backspace_through_apply_report_changes_only_when_they_remove_something() {
    let mut field = TextFieldState::with_text("ab");
    assert!(!field.apply(&[KeyInput::Delete]), "nothing after the caret");
    assert!(field.apply(&[KeyInput::Left, KeyInput::Delete]));
    assert_eq!(field.text(), "a");
    assert!(!field.apply(&[KeyInput::Home, KeyInput::Backspace]));
}
