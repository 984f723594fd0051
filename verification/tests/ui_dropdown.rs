use pixelkit::ui::dropdown::Dropdown;
use pixelkit::raster::painter::Rect;

#[test]
fn a_new_dropdown_is_closed_and_closing_keeps_it_closed() {
    let mut dropdown = Dropdown::new();
    assert!(!dropdown.is_open());
    dropdown.close();
    assert!(!dropdown.is_open());
    assert!(!Dropdown::default().is_open());
}

#[test]
fn clicking_the_field_opens_and_closes_the_popup() {
    let mut dropdown = Dropdown::new();
    let field = Rect::new(10, 10, 100, 24);
    dropdown.toggle(field, vec!["Small".to_string(), "Large".to_string()]);
    assert!(dropdown.is_open());
    assert_eq!(dropdown.field(), Some(field));
    assert_eq!(dropdown.options(), &["Small".to_string(), "Large".to_string()]);
    dropdown.toggle(field, Vec::new());
    assert!(!dropdown.is_open());
    assert!(dropdown.options().is_empty());
    assert_eq!(dropdown.field(), None);
}

#[test]
fn the_popup_hangs_below_unless_it_only_fits_above() {
    let bounds = Rect::new(0, 0, 200, 200);
    let options = || vec!["a".to_string(), "b".to_string(), "c".to_string()];
    let mut low = Dropdown::new();
    low.toggle(Rect::new(0, 150, 100, 20), options());
    assert_eq!(low.popup_rect(30, bounds), Some(Rect::new(0, 60, 100, 90)), "no room below: above");
    let mut high = Dropdown::new();
    high.toggle(Rect::new(0, 20, 100, 20), options());
    assert_eq!(high.popup_rect(30, bounds), Some(Rect::new(0, 40, 100, 90)));
    let mut cramped = Dropdown::new();
    cramped.toggle(Rect::new(0, 60, 100, 20), options());
    assert_eq!(cramped.popup_rect(60, bounds), Some(Rect::new(0, 80, 100, 180)), "room neither way: below");
    assert_eq!(Dropdown::new().popup_rect(30, bounds), None);
}

#[test]
fn a_pick_a_stray_click_or_escape_closes_the_popup() {
    for (picked, clicked, escape) in [(true, false, false), (false, true, false), (false, false, true)] {
        let mut dropdown = Dropdown::new();
        dropdown.toggle(Rect::new(0, 0, 10, 10), vec!["x".to_string()]);
        dropdown.settle(picked, clicked, escape);
        assert!(!dropdown.is_open());
    }
    let mut dropdown = Dropdown::new();
    dropdown.toggle(Rect::new(0, 0, 10, 10), vec!["x".to_string()]);
    dropdown.settle(false, false, false);
    assert!(dropdown.is_open(), "nothing happened: it stays open");
}
