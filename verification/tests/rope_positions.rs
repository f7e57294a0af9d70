use bevy_instanced_text::rope_view::{char_pos_at, checked_char_pos_at, copy_selection_text, RowHit, TextViewSelectionState};
use ropey::Rope;

fn sel(start: Option<usize>, end: Option<usize>) -> TextViewSelectionState {
    TextViewSelectionState { selection_start: start, selection_end: end }
}

#[test]
fn column_positions_clamp_to_line() {
    let rope = Rope::from_str("hello\nhi\nlast");
    assert_eq!(char_pos_at(&rope, 0, 2, None), 2);
    // Past the line's end: the last column before its newline.
    assert_eq!(char_pos_at(&rope, 0, 40, None), 5);
    assert_eq!(char_pos_at(&rope, 1, 1, None), 7);
    // The last line has no newline, yet one column is still taken off.
    assert_eq!(char_pos_at(&rope, 2, 40, None), 12);
}

#[test]
fn rows_past_the_text_go_to_its_end() {
    let rope = Rope::from_str("ab\ncd");
    assert_eq!(char_pos_at(&rope, 2, 0, None), 5);
    assert_eq!(char_pos_at(&rope, 9, 3, Some(RowHit { buffer_line: 0, buffer_byte_offset: 0, byte_in_row: 0 })), 5);
}

#[test]
fn shaped_row_hit_maps_bytes_to_chars() {
    // "é" takes two bytes: byte 3 of line 1 ("aéb") is the 'b'.
    let rope = Rope::from_str("xy\naéb\n");
    let hit = RowHit { buffer_line: 1, buffer_byte_offset: 0, byte_in_row: 3 };
    assert_eq!(char_pos_at(&rope, 1, 0, Some(hit)), 5);
    // Byte 2 is inside 'é': the char holding it.
    let inside = RowHit { buffer_line: 1, buffer_byte_offset: 0, byte_in_row: 2 };
    assert_eq!(char_pos_at(&rope, 1, 0, Some(inside)), 4);
    // A wrapped continuation row starts 2 bytes into its line.
    let wrapped = RowHit { buffer_line: 1, buffer_byte_offset: 2, byte_in_row: 1 };
    assert_eq!(char_pos_at(&rope, 1, 0, Some(wrapped)), 5);
    // Bytes past the end clamp to the end of the text.
    let far = RowHit { buffer_line: 1, buffer_byte_offset: 0, byte_in_row: 100 };
    assert_eq!(char_pos_at(&rope, 1, 0, Some(far)), 7);
    // A buffer line past the last clamps to the line count.
    let past = RowHit { buffer_line: 30, buffer_byte_offset: 0, byte_in_row: 0 };
    assert_eq!(char_pos_at(&rope, 0, 0, Some(past)), 7);
}

#[test]
fn copy_text_orders_and_clamps_endpoints() {
    let rope = Rope::from_str("hello world");
    assert_eq!(copy_selection_text(&sel(Some(0), Some(5)), &rope), Some("hello".to_string()));
    assert_eq!(copy_selection_text(&sel(Some(11), Some(6)), &rope), Some("world".to_string()));
    assert_eq!(copy_selection_text(&sel(Some(8), Some(99)), &rope), Some("rld".to_string()));
}

#[test]
fn copy_text_needs_both_endpoints_and_a_nonempty_range() {
    let rope = Rope::from_str("hello");
    assert_eq!(copy_selection_text(&sel(Some(1), None), &rope), None);
    assert_eq!(copy_selection_text(&sel(None, Some(3)), &rope), None);
    assert_eq!(copy_selection_text(&sel(Some(2), Some(2)), &rope), None);
    assert_eq!(copy_selection_text(&sel(Some(7), Some(9)), &rope), None);
    assert_eq!(copy_selection_text(&TextViewSelectionState::default(), &rope), None);
}

#[test]
fn only_line_feeds_break_rope_lines() {
    // Past the last line the position is the end of the text; a carriage
    // return or a Unicode line separator starts no new line.
    let cr = Rope::from_str("a\rb");
    assert_eq!(char_pos_at(&cr, 1, 0, None), 3);
    let sep = Rope::from_str("a\u{2028}b");
    assert_eq!(char_pos_at(&sep, 1, 0, None), 3);
    let lf = Rope::from_str("a\nb");
    assert_eq!(char_pos_at(&lf, 1, 0, None), 2);
}

#[test]
fn checked_positions_refuse_overflowing_hits() {
    let rope = Rope::from_str("hello\nworld");
    let hit = RowHit { buffer_line: 1, buffer_byte_offset: 0, byte_in_row: 2 };
    assert_eq!(checked_char_pos_at(&rope, 1, 0, Some(hit)), Some(8));
    let huge = RowHit { buffer_line: 1, buffer_byte_offset: usize::MAX - 3, byte_in_row: 0 };
    assert_eq!(checked_char_pos_at(&rope, 1, 0, Some(huge)), None);
    // Past the last line the hit is not read.
    assert_eq!(checked_char_pos_at(&rope, 5, 0, Some(huge)), Some(11));
}
