use pixelkit::shell::platform::system_accent;

#[test]
fn an_unknown_accent_is_none_rather_than_a_guess() {
    // Either state is honest: a resolved color, or no claim at all.
    if let Some([r, g, b]) = system_accent() {
        let _ = (r, g, b);
    }
}
