use pixelkit::ui::palette::Appearance;

#[test]
fn modes_parse_with_short_and_explicit_names() {
    assert_eq!("light".parse(), Ok(Appearance::IndustrialLight));
    assert_eq!("industrial-dark".parse(), Ok(Appearance::IndustrialDark));
}

#[test]
fn dark_canvas_is_graphite_and_light_canvas_is_near_white() {
    let light = Appearance::IndustrialLight.palette().canvas;
    let dark = Appearance::IndustrialDark.palette().canvas;
    assert!(light > 0x00f0_f0f0);
    let dark_r = (dark >> 16) & 0xff;
    let dark_g = (dark >> 8) & 0xff;
    let dark_b = dark & 0xff;
    assert!(dark_r.abs_diff(dark_g) <= 4 && dark_g.abs_diff(dark_b) <= 4);
}

#[test]
fn an_unknown_appearance_names_itself_and_what_was_expected() {
    let refused = "sepia".parse::<Appearance>();
    assert_eq!(
        refused,
        Err("unknown appearance \"sepia\"; expected light or dark".to_owned())
    );
    assert_eq!(Appearance::parse("dark"), Ok(Appearance::IndustrialDark));
    assert_eq!(Appearance::parse("industrial-light"), Ok(Appearance::IndustrialLight));
    assert_eq!(Appearance::default(), Appearance::IndustrialLight);
    assert_eq!(Appearance::HELP, "light or dark");
}
