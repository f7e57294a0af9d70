use bevy_instanced_text::anchor::TextEdit;
use bevy_instanced_text::selection::{Selection, SelectionCollection, SelectionMode};

#[test]
fn selection_basic_queries() {
    let s = Selection::new(8, 3);
    assert_eq!(s.head_offset(), 8);
    assert_eq!(s.anchor_offset(), 3);
    assert_eq!((s.start(), s.end()), (3, 8));
    assert_eq!(s.range(), (3, 8));
    assert!(s.has_selection());
    assert!(!s.is_cursor());
    assert!(!s.is_reversed());
    assert_eq!(s.len(), 5);
    assert!(!s.is_empty());
    assert!(s.contains(3));
    assert!(s.contains(7));
    assert!(!s.contains(8));
    let c = Selection::cursor(4);
    assert!(c.is_cursor() && c.is_empty());
    assert_eq!(c.mode, SelectionMode::Simple);
    let r = Selection::with_mode(1, 6, SelectionMode::Block);
    assert!(r.is_reversed());
    assert_eq!(r.mode, SelectionMode::Block);
    assert_eq!(SelectionMode::default(), SelectionMode::Simple);
}

#[test]
fn selection_overlap_adjacency_and_merge() {
    let a = Selection::new(5, 2);
    let b = Selection::new(9, 5);
    let c = Selection::new(4, 7);
    let d = Selection::new(12, 10);
    assert!(!a.overlaps(&b));
    assert!(a.is_adjacent(&b));
    assert!(!b.is_adjacent(&a));
    assert!(a.can_merge(&b) && b.can_merge(&a));
    assert!(a.overlaps(&c));
    assert!(!a.can_merge(&d));
    // Merge keeps self's direction and mode.
    let m = a.merge(&b);
    assert_eq!(m.range(), (2, 9));
    assert!(!m.is_reversed());
    assert_eq!(m.head_offset(), 9);
    let rev = Selection::with_mode(2, 5, SelectionMode::Line);
    let m2 = rev.merge(&b);
    assert_eq!(m2.range(), (2, 9));
    assert!(m2.is_reversed());
    assert_eq!(m2.mode, SelectionMode::Line);
}

#[test]
fn selection_moves_and_collapses() {
    let mut s = Selection::new(6, 2);
    s.move_head(9, true);
    assert_eq!((s.head_offset(), s.anchor_offset()), (9, 2));
    s.move_head(4, false);
    assert_eq!((s.head_offset(), s.anchor_offset()), (4, 4));
    let mut t = Selection::new(2, 8);
    t.collapse_to_head();
    assert_eq!(t.range(), (2, 2));
    let mut u = Selection::new(2, 8);
    u.collapse_to_start();
    assert_eq!((u.head_offset(), u.anchor_offset()), (2, 2));
    let mut v = Selection::new(2, 8);
    v.collapse_to_end();
    assert_eq!((v.head_offset(), v.anchor_offset()), (8, 8));
}

#[test]
fn selection_adjust_follows_edits() {
    let mut s = Selection::new(10, 4);
    s.adjust(&TextEdit::insert(4, 3));
    // head is left-biased, anchor right-biased: the anchor moves past inserted text.
    assert_eq!((s.head_offset(), s.anchor_offset()), (13, 7));
    s.adjust(&TextEdit::delete(0, 8));
    assert_eq!((s.head_offset(), s.anchor_offset()), (5, 0));
}

#[test]
fn selection_equality_and_order() {
    let a = Selection::new(5, 2);
    let b = Selection::new(5, 2);
    assert!(a == b);
    assert!(Selection::cursor(3) != Selection::cursor(4));
    assert!(Selection::new(4, 2) < Selection::new(3, 5));
    assert!(Selection::new(2, 3) < Selection::new(2, 6));
    assert!(Selection::cursor(7) > Selection::new(6, 1));
}

#[test]
fn collection_starts_with_one_cursor() {
    let c = SelectionCollection::new();
    assert_eq!(c.len(), 1);
    assert!(!c.is_empty());
    assert!(c.is_single_cursor());
    assert!(!c.has_selection());
    assert!(!c.is_multiple());
    assert_eq!(c.cursor_pos(), 0);
    assert_eq!(c.version(), 0);
    let d = SelectionCollection::default();
    assert_eq!(d.ranges(), vec![(0, 0)]);
    let e = SelectionCollection::with_cursor(7);
    assert_eq!(e.cursor_pos(), 7);
    let f = SelectionCollection::with_selection(9, 3);
    assert_eq!(f.primary().range(), (3, 9));
    assert!(f.has_selection());
}

#[test]
fn add_cursor_sorts_and_merges() {
    let mut c = SelectionCollection::with_cursor(10);
    c.add_cursor(2);
    c.add_cursor(6);
    assert_eq!(c.ranges(), vec![(2, 2), (6, 6), (10, 10)]);
    assert!(c.is_multiple());
    assert_eq!(c.version(), 2);
    // A duplicate cursor merges with the existing one; its index is returned.
    let idx = c.add_cursor(6);
    assert_eq!(c.ranges(), vec![(2, 2), (6, 6), (10, 10)]);
    assert_eq!(idx, 1);
    // An overlapping range swallows what it covers.
    c.add_selection_range(7, 1);
    assert_eq!(c.ranges(), vec![(1, 7), (10, 10)]);
    // Adjacent selections merge too.
    c.add_selection(Selection::new(10, 7));
    assert_eq!(c.ranges(), vec![(1, 10)]);
}

#[test]
fn clear_secondary_set_and_move() {
    let mut c = SelectionCollection::with_cursor(1);
    c.add_cursor(5);
    c.add_cursor(9);
    c.clear_secondary();
    assert_eq!(c.len(), 1);
    let v = c.version();
    c.clear_secondary();
    assert_eq!(c.version(), v);
    c.set_selection(8, 2);
    assert_eq!(c.ranges(), vec![(2, 8)]);
    c.set_cursor(4);
    assert_eq!(c.ranges(), vec![(4, 4)]);
    c.move_primary(9, true);
    assert_eq!(c.primary().range(), (4, 9));
    c.move_primary(3, false);
    assert_eq!(c.primary().range(), (3, 3));
}

#[test]
fn move_all_dedups_when_not_extending() {
    let mut c = SelectionCollection::with_cursor(2);
    c.add_cursor(3);
    c.add_cursor(8);
    c.move_all(|p| if p < 5 { 4 } else { p + 1 }, false);
    assert_eq!(c.ranges(), vec![(4, 4), (9, 9)]);
    c.move_all(|p| p + 1, true);
    assert_eq!(c.ranges(), vec![(4, 5), (9, 10)]);
}

#[test]
fn collapse_all_variants() {
    let mut c = SelectionCollection::with_selection(5, 1);
    c.add_selection_range(7, 12);
    c.collapse_all_to_head();
    assert_eq!(c.ranges(), vec![(5, 5), (7, 7)]);

    let mut d = SelectionCollection::with_selection(5, 1);
    d.add_selection_range(7, 12);
    d.collapse_all_to_start();
    assert_eq!(d.ranges(), vec![(1, 1), (7, 7)]);

    let mut e = SelectionCollection::with_selection(5, 1);
    e.add_selection_range(7, 12);
    e.collapse_all_to_end();
    assert_eq!(e.ranges(), vec![(5, 5), (12, 12)]);
}

#[test]
fn pending_edits_shift_every_selection() {
    let mut c = SelectionCollection::with_cursor(2);
    c.add_selection_range(9, 6);
    c.record_edit(TextEdit::insert(0, 3));
    assert_eq!(c.ranges(), vec![(2, 2), (6, 9)]);
    c.apply_pending_edits();
    assert_eq!(c.ranges(), vec![(5, 5), (9, 12)]);
    // A deletion that swallows the gap merges the selections.
    c.record_edit(TextEdit::delete(5, 9));
    c.apply_pending_edits();
    assert_eq!(c.ranges(), vec![(5, 8)]);
}

#[test]
fn lookups_by_offset_and_index() {
    let mut c = SelectionCollection::with_selection(4, 1);
    c.add_selection_range(10, 7);
    assert!(c.any_contains(2));
    assert!(!c.any_contains(5));
    assert_eq!(c.selection_at(8).map(|s| s.range()), Some((7, 10)));
    assert!(c.selection_at(4).is_none());
    assert_eq!(c.get(1).map(|s| s.range()), Some((7, 10)));
    assert!(c.get(2).is_none());
    assert_eq!(c.iter().count(), 2);
    assert_eq!(c.to_head_anchor_pairs(), vec![(4, Some(1)), (10, Some(7))]);
    let mut d = SelectionCollection::with_cursor(3);
    assert_eq!(d.to_head_anchor_pairs(), vec![(3, None)]);
    d.primary_mut().move_head(6, true);
    assert_eq!(d.primary().range(), (3, 6));
    if let Some(s) = d.get_mut(0) {
        s.collapse_to_start();
    }
    assert_eq!(d.cursor_pos(), 3);
    for s in d.iter_mut() {
        s.move_head(1, false);
    }
    assert_eq!(d.cursor_pos(), 1);
    let e = d.clone();
    assert_eq!(e.ranges(), d.ranges());
}

#[test]
fn merging_keeps_every_selected_offset() {
    let inputs = [(3usize, 1usize), (2, 6), (9, 12), (12, 12), (20, 15), (14, 14)];
    let mut c = SelectionCollection::with_selection(inputs[0].0, inputs[0].1);
    for &(h, a) in &inputs[1..] {
        c.add_selection_range(h, a);
    }
    let ranges = c.ranges();
    for &(h, a) in &inputs {
        let (s, e) = (h.min(a), h.max(a));
        assert!(ranges.iter().any(|&(rs, re)| rs <= s && e <= re), "({s}, {e}) lost in {ranges:?}");
    }
    for w in ranges.windows(2) {
        assert!(w[0].1 < w[1].0, "not separated: {ranges:?}");
    }
}

#[test]
fn add_returns_index_of_the_selection_holding_the_new_one() {
    let mut c = SelectionCollection::with_cursor(10);
    assert_eq!(c.add_cursor(2), 0);
    assert_eq!(c.ranges(), vec![(2, 2), (10, 10)]);
    assert_eq!(c.version(), 1);
    assert_eq!(c.add_selection_range(9, 12), 1);
    assert_eq!(c.ranges(), vec![(2, 2), (9, 12)]);
    assert_eq!(c.add_selection(Selection::new(5, 4)), 1);
    assert_eq!(c.ranges(), vec![(2, 2), (4, 5), (9, 12)]);
}

#[test]
fn move_primary_keeps_the_collection_sorted() {
    let mut c = SelectionCollection::with_cursor(2);
    c.add_cursor(10);
    c.move_primary(20, false);
    assert_eq!(c.ranges(), vec![(10, 10), (20, 20)]);
    assert_eq!(c.version(), 2);
    c.move_primary(20, false);
    assert_eq!(c.ranges(), vec![(20, 20)]);
}

#[test]
fn move_all_extending_merges_overlaps() {
    let mut c = SelectionCollection::with_selection(4, 2);
    c.add_selection_range(8, 6);
    assert_eq!(c.ranges(), vec![(2, 4), (6, 8)]);
    c.move_all(|h| h + 3, true);
    assert_eq!(c.ranges(), vec![(2, 11)]);
    assert_eq!(c.version(), 2);
}

#[test]
fn applying_pending_edits_twice_changes_nothing() {
    let mut c = SelectionCollection::with_selection(4, 1);
    c.add_selection_range(10, 7);
    c.record_edit(TextEdit::insert(2, 5));
    c.apply_pending_edits();
    let (ranges, version) = (c.ranges(), c.version());
    c.apply_pending_edits();
    assert_eq!(c.ranges(), ranges);
    assert_eq!(c.version(), version);
    assert_eq!(ranges, vec![(1, 9), (12, 15)]);
}

#[test]
fn adding_keeps_the_covered_offsets() {
    let mut c = SelectionCollection::with_selection(2, 5);
    c.add_selection_range(9, 12);
    c.add_selection(Selection::new(4, 8));
    assert_eq!(c.ranges(), vec![(2, 8), (9, 12)]);
    for p in 0..15usize {
        let before = (2..=5).contains(&p) || (9..=12).contains(&p) || (4..=8).contains(&p);
        let after = c.ranges().iter().any(|&(s, e)| s <= p && p <= e);
        assert_eq!(after, before);
    }
}

#[test]
fn move_all_hands_each_head_to_a_stateful_closure() {
    let mut c = SelectionCollection::with_selection(4, 2);
    c.add_selection_range(8, 6);
    let mut args = Vec::new();
    c.move_all(
        |h| {
            args.push(h);
            h + 3
        },
        true,
    );
    assert_eq!(args, vec![4, 8]);
    assert_eq!(c.ranges(), vec![(2, 11)]);
    assert_eq!(c.version(), 2);
}
