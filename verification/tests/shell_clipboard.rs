use pixelkit::shell::clipboard::Clipboard;

#[test]
fn a_new_clipboard_reads_empty_or_foreign_text_without_failing() {
    let mut clipboard = Clipboard::new();
    clipboard.clear();
    assert_eq!(clipboard.text(), None);
}

#[test]
fn copied_text_reads_back() {
    let mut clipboard = Clipboard::new();
    assert!(clipboard.set_text("ข้าวผัด 2"));
    assert_eq!(clipboard.text(), Some("ข้าวผัด 2".to_owned()));
}

#[test]
fn copying_replaces_what_was_there() {
    let mut clipboard = Clipboard::new();
    assert!(clipboard.set_text("first"));
    assert!(clipboard.set_text("second"));
    assert_eq!(clipboard.text(), Some("second".to_owned()));
}

#[test]
fn clearing_reads_empty_again() {
    let mut clipboard = Clipboard::new();
    assert!(clipboard.set_text("something"));
    clipboard.clear();
    assert_eq!(clipboard.text(), None);
}

#[test]
fn an_empty_string_is_still_a_copy() {
    let mut clipboard = Clipboard::default();
    assert!(clipboard.set_text(""));
    assert_eq!(clipboard.text(), Some(String::new()));
}
