use bevy_instanced_text::measure::intrinsic_char_widths;
use bevy_instanced_text::text::TextSpan;

fn intrinsic_widths(buffer: &String, cell: f32) -> (f32, f32) {
    let (max_chars, min_chars) = intrinsic_char_widths(buffer);
    (max_chars as f32 * cell, min_chars as f32 * cell)
}

#[test]
fn intrinsic_width_max_is_widest_line() {
    let buffer = String::from("short\nfourteen chars\nmid");
    let (max_w, _min_w) = intrinsic_widths(&buffer, 10.0);
    assert_eq!(max_w, 140.0, "max-content = widest line's char count × cell");
}

#[test]
fn intrinsic_width_min_is_longest_word() {
    let buffer = String::from("a soft wrapping budget");
    let (_max_w, min_w) = intrinsic_widths(&buffer, 10.0);
    assert_eq!(min_w, 80.0, "min-content = longest unbreakable run × cell");
}

#[test]
fn intrinsic_width_ignores_trailing_newline() {
    let buffer = String::from("abcd\n");
    let (max_w, _min_w) = intrinsic_widths(&buffer, 10.0);
    assert_eq!(max_w, 40.0);
}

#[test]
fn intrinsic_char_widths_of_empty_text_are_zero() {
    assert_eq!(intrinsic_char_widths(&TextSpan::new("")), (0, 0));
}

#[test]
fn intrinsic_char_widths_break_words_at_tabs_and_newlines() {
    assert_eq!(intrinsic_char_widths(&TextSpan::new("ab\tcdef\nxyz")), (7, 4));
}
