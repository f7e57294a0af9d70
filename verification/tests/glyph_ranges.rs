use bevy_instanced_text::glyph::VirtualByteRanges;

fn line_with_virtuals(ranges: Vec<std::ops::Range<usize>>) -> VirtualByteRanges {
    VirtualByteRanges { ranges }
}

#[test]
fn source_to_concat_skips_preceding_virtuals() {
    // "fn foo([: i32 v])bar" — virtual "[: i32 v]" at concat bytes 7..16.
    let line = line_with_virtuals(vec![7..16]);
    assert_eq!(line.concat_byte_for_source_byte(0), 0);
    assert_eq!(line.concat_byte_for_source_byte(7), 16);
    assert_eq!(line.concat_byte_for_source_byte(10), 19);
}

#[test]
fn concat_to_source_skips_back_over_virtuals() {
    let line = line_with_virtuals(vec![7..16]);
    assert_eq!(line.source_byte_for_concat_byte(0, false), 0);
    assert_eq!(line.source_byte_for_concat_byte(7, false), 7);
    assert_eq!(line.source_byte_for_concat_byte(16, false), 7);
    assert_eq!(line.source_byte_for_concat_byte(19, false), 10);
}

#[test]
fn concat_to_source_snaps_inside_virtual_range() {
    let line = line_with_virtuals(vec![7..16]);
    assert_eq!(line.source_byte_for_concat_byte(10, false), 7);
    assert_eq!(line.source_byte_for_concat_byte(10, true), 7);
}

#[test]
fn virtual_range_at_concat_byte_finds_containing_range() {
    let line = line_with_virtuals(vec![2..5]);
    assert!(line.virtual_range_at_concat_byte(1).is_none());
    assert_eq!(line.virtual_range_at_concat_byte(2), Some(2..5));
    assert_eq!(line.virtual_range_at_concat_byte(4), Some(2..5));
    assert!(line.virtual_range_at_concat_byte(5).is_none());
}

#[test]
fn multiple_virtuals_compose() {
    // "a[X]b[YY]c" with virtuals 1..4 and 5..9.
    let line = line_with_virtuals(vec![1..4, 5..9]);
    assert_eq!(line.concat_byte_for_source_byte(0), 0);
    assert_eq!(line.concat_byte_for_source_byte(1), 4);
    assert_eq!(line.concat_byte_for_source_byte(2), 9);
    assert_eq!(line.concat_byte_for_source_byte(3), 10);

    assert_eq!(line.source_byte_for_concat_byte(0, false), 0);
    assert_eq!(line.source_byte_for_concat_byte(4, false), 1);
    assert_eq!(line.source_byte_for_concat_byte(9, false), 2);
    assert_eq!(line.source_byte_for_concat_byte(10, false), 3);
}

#[test]
fn source_of_concat_round_trips_every_source_byte() {
    let line = line_with_virtuals(vec![1..4, 5..9, 12..13]);
    for source in 0..20usize {
        let concat = line.concat_byte_for_source_byte(source);
        assert_eq!(line.source_byte_for_concat_byte(concat, false), source);
        assert_eq!(line.source_byte_for_concat_byte(concat, true), source);
    }
}

#[test]
fn no_virtual_ranges_is_identity() {
    let line = line_with_virtuals(Vec::new());
    assert_eq!(line.concat_byte_for_source_byte(5), 5);
    assert_eq!(line.source_byte_for_concat_byte(5, false), 5);
    assert!(line.virtual_range_at_concat_byte(0).is_none());
}

#[test]
fn concat_bytes_count_the_virtual_bytes_before_them() {
    let ranges = vec![2..4, 6..9];
    let line = line_with_virtuals(ranges.clone());
    let virtual_before = |c: usize| -> usize {
        ranges.iter().map(|r| if r.start >= c { 0 } else { r.end.min(c) - r.start }).sum()
    };
    for source in 0..8usize {
        let c = line.concat_byte_for_source_byte(source);
        assert!(ranges.iter().all(|r| !(r.start <= c && c < r.end)));
        assert_eq!(c - virtual_before(c), source);
    }
    for c in 0..12usize {
        assert_eq!(line.source_byte_for_concat_byte(c, false), c - virtual_before(c));
    }
    assert_eq!(line.concat_byte_for_source_byte(3), 5);
    assert_eq!(line.source_byte_for_concat_byte(7, true), 4);
}
