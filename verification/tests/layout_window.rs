use bevy_instanced_text::layout::{
    approx_display_rows_for_line, layout_window_start, total_display_rows, visible_line_window, HiddenLines,
};
use bevy_instanced_text::text::TextSpan;
use std::collections::HashSet;

#[test]
fn approx_rows_divide_line_length_by_budget() {
    let t = TextSpan::new("abcdefghij\n\nxyz");
    assert_eq!(approx_display_rows_for_line(&t, 0, None), 1);
    assert_eq!(approx_display_rows_for_line(&t, 0, Some(4)), 3);
    assert_eq!(approx_display_rows_for_line(&t, 0, Some(5)), 2);
    assert_eq!(approx_display_rows_for_line(&t, 1, Some(4)), 1);
    assert_eq!(approx_display_rows_for_line(&t, 2, Some(4)), 1);
    assert_eq!(approx_display_rows_for_line(&t, 9, Some(4)), 1);
}

#[test]
fn hidden_lines_report_visibility() {
    let mut set = HashSet::new();
    set.insert(2usize);
    let hidden = HiddenLines::new(set);
    assert!(hidden.is_visible(1));
    assert!(!hidden.is_visible(2));
    let none = HiddenLines::default();
    assert!(none.is_visible(2));
}

#[test]
fn visible_window_without_wrap_is_row_range() {
    let t = TextSpan::new("0\n1\n2\n3\n4\n5\n6\n7\n8\n9");
    assert_eq!(visible_line_window(&t, 3, 5, None, None), 3..6);
    assert_eq!(visible_line_window(&t, 0, 100, None, None), 0..10);
    assert_eq!(visible_line_window(&t, 50, 60, None, None), 10..10);
}

#[test]
fn visible_window_counts_wrapped_rows_and_skips_hidden() {
    // Line 0 takes three rows at a budget of 2; line 2 is hidden.
    let t = TextSpan::new("aaaaaa\nb\nc\nd\ne");
    let mut set = HashSet::new();
    set.insert(2usize);
    let hidden = HiddenLines::new(set);
    assert_eq!(visible_line_window(&t, 3, 4, Some(2), Some(&hidden)), 1..4);
    assert_eq!(visible_line_window(&t, 1, 2, Some(2), None), 1..1);
}

#[test]
fn window_start_fast_path_without_wrap_or_folding() {
    let t = TextSpan::new("a\nb\nc\nd");
    assert_eq!(layout_window_start(&t, 2, None, None), (2, 2));
    // Past the end: the line clamps to the line count, the row stays.
    assert_eq!(layout_window_start(&t, 9, None, None), (4, 9));
    // A hidden line after the window start does not matter.
    let mut set = HashSet::new();
    set.insert(3usize);
    let hidden = HiddenLines::new(set);
    assert_eq!(layout_window_start(&t, 2, None, Some(&hidden)), (2, 2));
}

#[test]
fn window_start_walks_when_folded_or_wrapped() {
    let t = TextSpan::new("a\nb\nc\nd");
    let mut set = HashSet::new();
    set.insert(0usize);
    let hidden = HiddenLines::new(set);
    // Line 0 takes no row: row 2 is reached at line 3.
    assert_eq!(layout_window_start(&t, 2, None, Some(&hidden)), (3, 2));
    let w = TextSpan::new("abcdef\nxy\nz");
    // At a budget of 2 line 0 takes 3 rows.
    assert_eq!(layout_window_start(&w, 2, Some(2), None), (1, 3));
}

#[test]
fn total_rows_count_shown_lines_or_wrapped_rows() {
    let t = TextSpan::new("abcdef\nxy\n\nz");
    assert_eq!(total_display_rows(&t, None, None), 4);
    let mut set = HashSet::new();
    set.insert(1usize);
    let hidden = HiddenLines::new(set);
    assert_eq!(total_display_rows(&t, None, Some(&hidden)), 3);
    assert_eq!(total_display_rows(&t, Some(2), None), 3 + 1 + 1 + 1);
    assert_eq!(total_display_rows(&t, Some(2), Some(&hidden)), 3 + 1 + 1);
}
