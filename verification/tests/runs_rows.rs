use bevy_instanced_text::rows::{buffer_to_display, number_rows, rows_in_buffer_span, RowPosition, RowSpan};
use bevy_instanced_text::runs::{block_row_spans, slice_run_ranges, stack_run_ranges};

fn row(display_row: u32, buffer_row: u32, buffer_byte_offset: usize, text_len: usize) -> RowSpan {
    RowSpan { display_row, buffer_row, buffer_byte_offset, text_len }
}

#[test]
fn runs_clip_to_chunk_and_rebase() {
    // "the quick fox runs": the fox run (10..13) lies in the second chunk (10..18).
    let runs = vec![10..13];
    assert!(slice_run_ranges(&runs, 0..10).is_empty());
    assert_eq!(slice_run_ranges(&runs, 10..18), vec![(0, 0..3)]);
}

#[test]
fn runs_partially_inside_are_clipped() {
    let runs = vec![0..4, 3..9, 9..12, 15..20];
    assert_eq!(slice_run_ranges(&runs, 2..10), vec![(0, 0..2), (1, 1..7), (2, 7..8)]);
    assert!(slice_run_ranges(&runs, 12..15).is_empty());
    assert!(slice_run_ranges(&Vec::new(), 0..5).is_empty());
}

#[test]
fn buffer_position_maps_to_wrapped_row() {
    // Buffer line 1 wraps into display rows 1 (bytes 0..10) and 2 (10..18).
    let rows = vec![row(0, 0, 0, 5), row(1, 1, 0, 10), row(2, 1, 10, 8), row(3, 2, 0, 4)];
    assert_eq!(buffer_to_display(&rows, 1, 3), Some((1, 3)));
    assert_eq!(buffer_to_display(&rows, 1, 12), Some((2, 2)));
    assert_eq!(buffer_to_display(&rows, 1, 40), Some((2, 8)));
    assert_eq!(buffer_to_display(&rows, 0, 2), Some((0, 2)));
    assert_eq!(buffer_to_display(&rows, 7, 0), None);
}

#[test]
fn buffer_position_before_first_visible_row_is_none() {
    let rows = vec![row(5, 3, 20, 10)];
    assert_eq!(buffer_to_display(&rows, 3, 4), None);
    assert_eq!(buffer_to_display(&rows, 3, 25), Some((5, 5)));
}

#[test]
fn span_rows_get_their_positions() {
    let rows = vec![row(0, 0, 0, 5), row(1, 1, 0, 10), row(2, 1, 10, 8), row(3, 2, 0, 4), row(4, 3, 0, 1)];
    assert_eq!(
        rows_in_buffer_span(&rows, 1, 2),
        vec![(1, RowPosition::First), (2, RowPosition::Middle), (3, RowPosition::Last)]
    );
    assert_eq!(rows_in_buffer_span(&rows, 3, 3), vec![(4, RowPosition::Only)]);
    assert_eq!(
        rows_in_buffer_span(&rows, 0, 0),
        vec![(0, RowPosition::Only)]
    );
    assert!(rows_in_buffer_span(&rows, 9, 12).is_empty());
    assert_eq!(
        rows_in_buffer_span(&rows, 2, 3),
        vec![(3, RowPosition::First), (4, RowPosition::Last)]
    );
}

#[test]
fn stacked_runs_cover_their_texts_in_order() {
    // Texts "fn ", "", "main", "()": the empty one gets no run.
    assert_eq!(stack_run_ranges(&[3, 0, 4, 2]), vec![(0, 0..3), (2, 3..7), (3, 7..9)]);
    assert!(stack_run_ranges(&[]).is_empty());
    assert!(stack_run_ranges(&[0, 0]).is_empty());
}

#[test]
fn block_row_spans_number_rows_block_after_block() {
    assert_eq!(block_row_spans(&[1, 3, 2]), vec![(0, 0), (1, 3), (4, 5)]);
    assert_eq!(block_row_spans(&[0, 2, 0]), vec![(0, 0), (0, 1), (2, 1)]);
    assert!(block_row_spans(&[]).is_empty());
}

#[test]
fn rows_are_numbered_line_after_line() {
    let lines = vec![(0u32, vec![(0usize, 4usize), (4, 3)]), (2, vec![]), (3, vec![(0, 5)])];
    let got = number_rows(10, &lines);
    assert_eq!(
        got,
        vec![(row(10, 0, 0, 4), false), (row(11, 0, 4, 3), true), (row(12, 3, 0, 5), false)]
    );
    assert!(number_rows(0, &[]).is_empty());
}
