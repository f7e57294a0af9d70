use bevy_instanced_text::anchor::TextEdit;
use bevy_instanced_text::focus::{
    char_pos_in_text, drag_selection, next_click_count, press_mode, press_selection, selection_text,
};
use bevy_instanced_text::rope_view::RowHit;
use bevy_instanced_text::selection::{Selection, SelectionCollection, SelectionMode};
use bevy_instanced_text::state::{CursorState, SelectionState};
use bevy_instanced_text::text::TextSpan;

fn state_with(collection: SelectionCollection) -> SelectionState {
    SelectionState { selections: collection }
}

#[test]
fn cursor_and_selection_state_defaults() {
    let c = CursorState::default();
    assert_eq!((c.cursor_pos, c.last_cursor_pos, c.last_cursor_pos_for_blink), (0, 0, 0));
    let s = SelectionState::default();
    assert_eq!(s.cursor_count(), 1);
    assert!(!s.has_multiple_cursors());
    assert_eq!(s.primary_range(), None);
}

#[test]
fn primary_cursor_round_trip() {
    let mut s = state_with(SelectionCollection::with_cursor(2));
    s.selections.add_cursor(9);
    let cursor = CursorState { cursor_pos: 5, last_cursor_pos: 0, last_cursor_pos_for_blink: 0 };
    s.apply_primary_cursor(&cursor);
    assert_eq!(s.selection_ranges(), vec![(5, 5)]);
    let mut back = CursorState::default();
    s.refresh_primary_cursor(&mut back);
    assert_eq!(back.cursor_pos, 5);
}

#[test]
fn apply_primary_with_anchor_keeps_existing_anchor() {
    let mut s = state_with(SelectionCollection::with_selection(6, 2));
    let cursor = CursorState { cursor_pos: 9, last_cursor_pos: 6, last_cursor_pos_for_blink: 0 };
    s.apply_primary_with_anchor(&cursor, 6);
    assert_eq!(s.primary_selection().anchor_offset(), 2);
    assert_eq!(s.primary_range(), Some((2, 9)));

    let mut t = state_with(SelectionCollection::with_cursor(4));
    let cursor = CursorState { cursor_pos: 1, last_cursor_pos: 4, last_cursor_pos_for_blink: 0 };
    t.apply_primary_with_anchor(&cursor, 4);
    assert_eq!(t.primary_range(), Some((1, 4)));
}

#[test]
fn adding_cursors_clamps_to_content() {
    let content = TextSpan::new("hello");
    let mut s = SelectionState::default();
    s.add_cursor_at(&content, 99);
    assert_eq!(s.selection_ranges(), vec![(0, 0), (5, 5)]);
    s.add_cursor_with_range(&content, 50, 3);
    assert_eq!(s.selection_ranges(), vec![(0, 0), (3, 5)]);
    assert!(s.has_multiple_cursors());
    assert_eq!(s.cursor_count(), 2);
    let mut cursor = CursorState::default();
    s.clear_secondary_cursors(&mut cursor);
    assert_eq!(s.cursor_count(), 1);
    assert_eq!(cursor.cursor_pos, 0);
}

#[test]
fn apply_selection_edits_moves_cursors() {
    let mut s = state_with(SelectionCollection::with_cursor(3));
    s.selections.record_edit(TextEdit::insert(0, 2));
    s.apply_selection_edits();
    assert_eq!(s.selection_ranges(), vec![(5, 5)]);
}

#[test]
fn selection_text_simple_and_block() {
    let content = TextSpan::new("abcd\nefgh\nijkl");
    let simple = state_with(SelectionCollection::with_selection(7, 2));
    assert_eq!(selection_text(&simple, &content), Some("cd\nef".to_string()));

    let mut block = state_with(SelectionCollection::with_selection(12, 1));
    block.selections.primary_mut().mode = SelectionMode::Block;
    // Columns 1..2 of lines 0..=2.
    assert_eq!(selection_text(&block, &content), Some("b\nf\nj".to_string()));

    let cursor = state_with(SelectionCollection::with_cursor(3));
    assert_eq!(selection_text(&cursor, &content), None);

    let past_end = state_with(SelectionCollection::with_selection(30, 20));
    assert_eq!(selection_text(&past_end, &content), None);
}

#[test]
fn block_selection_with_equal_columns_copies_nothing() {
    let content = TextSpan::new("abcd\nefgh");
    let mut block = state_with(SelectionCollection::with_selection(7, 2));
    block.selections.primary_mut().mode = SelectionMode::Block;
    assert_eq!(selection_text(&block, &content), None);
}

#[test]
fn click_counting_and_modes() {
    assert_eq!(next_click_count(0, false), 1);
    assert_eq!(next_click_count(1, true), 2);
    assert_eq!(next_click_count(2, true), 3);
    assert_eq!(next_click_count(3, true), 3);
    assert_eq!(next_click_count(2, false), 1);
    assert_eq!(press_mode(1, false), SelectionMode::Simple);
    assert_eq!(press_mode(2, false), SelectionMode::Semantic);
    assert_eq!(press_mode(3, false), SelectionMode::Line);
    assert_eq!(press_mode(2, true), SelectionMode::Block);
}

#[test]
fn press_and_drag_select_words_and_lines() {
    let content = TextSpan::new("hello world\nsecond line\n");
    let mut s = state_with(SelectionCollection::with_cursor(0));
    s.selections.add_cursor(20);
    press_selection(&mut s, &content, 7, SelectionMode::Semantic);
    assert_eq!(s.selection_ranges(), vec![(6, 11)]);
    press_selection(&mut s, &content, 14, SelectionMode::Line);
    assert_eq!(s.selection_ranges(), vec![(12, 24)]);
    press_selection(&mut s, &content, 3, SelectionMode::Simple);
    assert_eq!(s.selection_ranges(), vec![(3, 3)]);
    assert_eq!(s.primary_selection().mode, SelectionMode::Simple);

    drag_selection(&mut s, &content, 3, 9, SelectionMode::Simple);
    assert_eq!(s.primary_selection().head_offset(), 9);
    assert_eq!(s.primary_selection().anchor_offset(), 3);
    drag_selection(&mut s, &content, 2, 8, SelectionMode::Semantic);
    assert_eq!(s.selection_ranges(), vec![(0, 11)]);
    drag_selection(&mut s, &content, 4, 4, SelectionMode::Simple);
    assert_eq!(s.selection_ranges(), vec![(4, 4)]);
}

#[test]
fn drag_backwards_keeps_reversed_direction() {
    let content = TextSpan::new("one two three");
    let mut s = SelectionState::default();
    drag_selection(&mut s, &content, 9, 5, SelectionMode::Semantic);
    let p: &Selection = s.primary_selection();
    assert!(p.is_reversed());
    assert_eq!(p.range(), (4, 13));
}

#[test]
fn text_positions_from_rows_and_columns() {
    let t = TextSpan::new("hello\nhi\nlast");
    assert_eq!(char_pos_in_text(&t, 0, 2, None), 2);
    assert_eq!(char_pos_in_text(&t, 0, 40, None), 5);
    assert_eq!(char_pos_in_text(&t, 1, 1, None), 7);
    assert_eq!(char_pos_in_text(&t, 2, 40, None), 13);
    assert_eq!(char_pos_in_text(&t, 5, 0, None), 13);
}

#[test]
fn text_positions_from_shaped_row_hits() {
    let t = TextSpan::new("xy\naéb\n");
    let hit = |buffer_line, buffer_byte_offset, byte_in_row| Some(RowHit { buffer_line, buffer_byte_offset, byte_in_row });
    assert_eq!(char_pos_in_text(&t, 1, 0, hit(1, 0, 3)), 5);
    assert_eq!(char_pos_in_text(&t, 1, 0, hit(1, 1, 2)), 5);
    assert_eq!(char_pos_in_text(&t, 1, 0, hit(1, 0, 100)), 7);
    assert_eq!(char_pos_in_text(&t, 0, 0, hit(30, 0, 0)), 7);
    assert_eq!(char_pos_in_text(&t, 0, 0, hit(0, 0, 1)), 1);
}
