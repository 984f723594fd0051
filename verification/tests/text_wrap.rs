use pixelkit::text::wrap::break_at;

#[test]
fn a_line_breaks_after_its_last_space() {
    // "hello world": overflowing at the `r` of "world", the break goes after the space.
    assert_eq!(break_at("hello world", 0, 8, Some(5)), 6);
    // A space at or before the start of the line does not count.
    assert_eq!(break_at("hello world", 6, 8, Some(5)), 8);
    assert_eq!(break_at("hello world", 0, 8, None), 8);
}

#[test]
fn a_break_never_lands_before_a_combining_mark() {
    // ก า ้ : breaking at the tone mark (byte 6) walks back to before it... and
    // า is not a combining mark, so the break is at byte 3.
    assert_eq!(break_at("กา้", 0, 6, None), 3);
    // ก ั ้ : both marks belong to ก, so the break walks back over both.
    assert_eq!(break_at("xกั้", 0, 7, None), 1);
}

#[test]
fn a_line_of_nothing_but_marks_falls_back_to_the_overflow() {
    // Walking back would leave the line empty: break where it overflowed.
    assert_eq!(break_at("ก้ั", 0, 3, None), 3);
    assert_eq!(break_at("ab", 1, 2, None), 2);
}
