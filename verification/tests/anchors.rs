use bevy_instanced_text::anchor::{Anchor, AnchorBias, AnchorSet, TextEdit};

#[test]
fn text_edit_constructors_and_delta() {
    let ins = TextEdit::insert(4, 3);
    assert_eq!((ins.start, ins.old_end, ins.new_end), (4, 4, 7));
    assert!(ins.is_insertion());
    assert!(!ins.is_deletion());
    assert_eq!(ins.delta(), 3);

    let del = TextEdit::delete(2, 6);
    assert_eq!((del.start, del.old_end, del.new_end), (2, 6, 2));
    assert!(del.is_deletion());
    assert!(!del.is_insertion());
    assert_eq!(del.delta(), -4);

    let rep = TextEdit::replace(1, 5, 2);
    assert_eq!((rep.start, rep.old_end, rep.new_end), (1, 5, 3));
    assert!(!rep.is_insertion());
    assert!(!rep.is_deletion());
    assert_eq!(rep.delta(), -2);
}

#[test]
fn adjust_offset_before_after_and_inside() {
    let ins = TextEdit::insert(5, 2);
    assert_eq!(AnchorSet::adjust_offset(3, AnchorBias::Left, &ins), 3);
    assert_eq!(AnchorSet::adjust_offset(9, AnchorBias::Left, &ins), 11);
    // At the insertion point the bias decides.
    assert_eq!(AnchorSet::adjust_offset(5, AnchorBias::Left, &ins), 5);
    assert_eq!(AnchorSet::adjust_offset(5, AnchorBias::Right, &ins), 7);

    let del = TextEdit::delete(2, 6);
    assert_eq!(AnchorSet::adjust_offset(4, AnchorBias::Right, &del), 2);
    assert_eq!(AnchorSet::adjust_offset(6, AnchorBias::Left, &del), 2);
    assert_eq!(AnchorSet::adjust_offset(10, AnchorBias::Left, &del), 6);
}

#[test]
fn anchor_constructors_set_bias() {
    let a = Anchor::at(3);
    assert_eq!((a.offset, a.bias, a.version), (3, AnchorBias::Left, 0));
    let b = Anchor::at_right(3);
    assert_eq!(b.bias, AnchorBias::Right);
    let c = Anchor::default();
    assert_eq!((c.offset, c.bias), (0, AnchorBias::Left));
    assert_eq!(AnchorBias::default(), AnchorBias::Left);
    let d = Anchor::with_id(42, 7, AnchorBias::Right);
    assert_eq!((d.id, d.offset, d.bias, d.version), (42, 7, AnchorBias::Right, 0));
}

#[test]
fn anchors_order_by_offset_then_bias() {
    let left = Anchor::with_id(1, 3, AnchorBias::Left);
    let right = Anchor::with_id(2, 3, AnchorBias::Right);
    let later = Anchor::with_id(3, 4, AnchorBias::Left);
    assert!(left < right);
    assert!(right < later);
    assert!(AnchorBias::Left < AnchorBias::Right);
    assert_eq!(
        Anchor::with_id(1, 3, AnchorBias::Left).partial_cmp(&Anchor::with_id(9, 3, AnchorBias::Left)),
        Some(std::cmp::Ordering::Equal)
    );
}

#[test]
fn anchor_set_insert_keeps_offset_order_and_stamps_version() {
    let mut set = AnchorSet::new();
    assert!(set.is_empty());
    set.record_edit(TextEdit::insert(0, 0));
    let id_b = set.insert(Anchor::with_id(20, 8, AnchorBias::Left));
    let id_a = set.insert(Anchor::with_id(10, 2, AnchorBias::Left));
    let id_c = set.insert(Anchor::with_id(30, 5, AnchorBias::Right));
    assert_eq!((id_a, id_b, id_c), (10, 20, 30));
    let offsets: Vec<usize> = set.iter().map(|a| a.offset).collect();
    assert_eq!(offsets, vec![2, 5, 8]);
    assert!(set.iter().all(|a| a.version == 1));
    assert_eq!(set.len(), 3);
    assert_eq!(set.version(), 1);
}

#[test]
fn anchor_set_get_remove() {
    let mut set = AnchorSet::new();
    set.insert(Anchor::with_id(1, 4, AnchorBias::Left));
    set.insert(Anchor::with_id(2, 9, AnchorBias::Left));
    assert_eq!(set.get(2).map(|a| a.offset), Some(9));
    assert!(set.get(3).is_none());
    if let Some(a) = set.get_mut(1) {
        a.offset = 6;
    }
    assert_eq!(set.get(1).map(|a| a.offset), Some(6));
    let removed = set.remove(1);
    assert_eq!(removed.map(|a| a.id), Some(1));
    assert!(set.remove(1).is_none());
    assert_eq!(set.len(), 1);
}

#[test]
fn pending_edits_resolve_then_apply() {
    let mut set = AnchorSet::new();
    let a = set.anchor_at(10, AnchorBias::Left);
    let b = set.anchor_at(3, AnchorBias::Right);
    set.record_edit(TextEdit::insert(3, 4));
    // Not applied yet: stored offsets unchanged, resolve sees the edit.
    assert_eq!(set.get(a.id).map(|x| x.offset), Some(10));
    assert_eq!(set.resolve(&a), 14);
    assert_eq!(set.resolve(&b), 7);
    set.apply_pending_edits();
    assert_eq!(set.get(a.id).map(|x| x.offset), Some(14));
    assert_eq!(set.get(b.id).map(|x| x.offset), Some(7));
    assert!(set.iter().all(|x| x.version == 1));
    // Nothing pending: resolving is the stored offset.
    assert_eq!(set.resolve(set.get(a.id).unwrap()), 14);
}

#[test]
fn apply_pending_edits_resorts_collapsed_anchors() {
    let mut set = AnchorSet::new();
    set.insert(Anchor::with_id(1, 2, AnchorBias::Right));
    set.insert(Anchor::with_id(2, 5, AnchorBias::Left));
    set.insert(Anchor::with_id(3, 9, AnchorBias::Left));
    set.record_edit(TextEdit::delete(1, 6));
    set.apply_pending_edits();
    let got: Vec<(u64, usize)> = set.iter().map(|a| (a.id, a.offset)).collect();
    // Both collapsed anchors land at 1; left bias sorts first.
    assert_eq!(got, vec![(2, 1), (1, 1), (3, 4)]);
}

#[test]
fn anchors_in_range_is_inclusive() {
    let mut set = AnchorSet::new();
    for (id, off) in [(1u64, 0usize), (2, 3), (3, 5), (4, 8)] {
        set.insert(Anchor::with_id(id, off, AnchorBias::Left));
    }
    let ids: Vec<u64> = set.anchors_in_range(3, 8).iter().map(|a| a.id).collect();
    assert_eq!(ids, vec![2, 3, 4]);
    assert!(set.anchors_in_range(6, 7).is_empty());
}

#[test]
fn clear_drops_anchors_and_edits() {
    let mut set = AnchorSet::new();
    let a = set.anchor_at(5, AnchorBias::Left);
    set.record_edit(TextEdit::insert(0, 2));
    set.clear();
    assert!(set.is_empty());
    assert_eq!(set.resolve(&a), 5);
    assert_eq!(set.version(), 1);
    let copy = set.clone();
    assert_eq!(copy.len(), 0);
}

#[test]
fn applying_edits_matches_resolving_them() {
    let mut set = AnchorSet::new();
    let anchors: Vec<Anchor> = [(0usize, AnchorBias::Left), (4, AnchorBias::Right), (4, AnchorBias::Left), (9, AnchorBias::Right)]
        .iter()
        .map(|&(o, b)| set.anchor_at(o, b))
        .collect();
    set.record_edit(TextEdit::insert(4, 2));
    set.record_edit(TextEdit::delete(1, 3));
    set.record_edit(TextEdit::replace(5, 8, 1));
    let resolved: Vec<usize> = anchors.iter().map(|a| set.resolve(a)).collect();
    set.apply_pending_edits();
    for (a, want) in anchors.iter().zip(resolved) {
        assert_eq!(set.get(a.id).map(|x| x.offset), Some(want));
    }
}

#[test]
fn anchor_at_takes_an_identifier_no_anchor_has() {
    let mut set = AnchorSet::new();
    for id in 0u64..4 {
        set.insert(Anchor::with_id(id, 1, AnchorBias::Left));
    }
    let before: Vec<u64> = set.iter().map(|a| a.id).collect();
    let a = set.anchor_at(2, AnchorBias::Right);
    assert!(!before.contains(&a.id));
    assert_eq!(set.len(), 5);
    assert_eq!(set.get(a.id).map(|x| (x.offset, x.bias)), Some((2, AnchorBias::Right)));
}
