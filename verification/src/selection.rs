//! Selection and cursor types.
//!
//! Selections are anchor-based and edit-resilient: a selection is a cursor
//! (`head`) plus the point where the selection started (`anchor`), both
//! [`Anchor`]s that follow text edits.

use crate::anchor::{adjust_fits, adjusted_offset, Anchor, AnchorBias, AnchorSet, TextEdit};
use crate::ids::fresh_id;
use core::cmp::Ordering;
use vstd::prelude::*;
use vstd::std_specs::cmp::PartialEqSpecImpl;
use vstd::std_specs::cmp::PartialOrdSpecImpl;

verus! {

/// What kind of region a selection covers.
///
/// `Simple` is the editor default (free-form char range). `Block` is
/// rectangular (column-aligned). `Line` is whole-line (triple-click).
/// `Semantic` expands to word/symbol boundaries (double-click).
#[derive(Clone, Copy, Debug, PartialEq, Eq, Hash, Structural)]
pub enum SelectionMode {
    Simple,
    Block,
    Line,
    Semantic,
}

impl Default for SelectionMode {
    fn default() -> (r: Self)
        ensures
            r == SelectionMode::Simple,
    {
        SelectionMode::Simple
    }
}

/// Cursor + optional selection anchor, both edit-resilient. `head` is the
/// cursor (Left bias); `anchor` is where the selection started (Right bias).
///
/// When `head == anchor`, there's no selection (just a cursor).
/// The head and anchor can be in any order.
#[derive(Clone, Copy, Debug)]
pub struct Selection {
    /// The cursor position; left bias keeps it before inserted text.
    pub head: Anchor,
    /// Where the selection started; right bias lets the selection grow over
    /// text inserted at its boundary.
    pub anchor: Anchor,
    /// Selection shape — how the (start, end) range is interpreted.
    pub mode: SelectionMode,
    /// Identifier of this selection.
    pub id: SelectionId,
}

/// Identifier of a [`Selection`]; only the library makes new ones.
#[derive(Clone, Copy, Debug, PartialEq, Eq, Hash, Structural)]
pub struct SelectionId(u64);

impl SelectionId {
    /// The identifier's numeric value.
    pub closed spec fn value(&self) -> u64 {
        self.0
    }

    fn fresh() -> (r: Self) {
        SelectionId(fresh_id())
    }
}

/// The smaller of the two offsets of `s`.
pub open spec fn sel_start(s: Selection) -> int {
    if s.head.offset <= s.anchor.offset { s.head.offset as int } else { s.anchor.offset as int }
}

/// The larger of the two offsets of `s`.
pub open spec fn sel_end(s: Selection) -> int {
    if s.head.offset <= s.anchor.offset { s.anchor.offset as int } else { s.head.offset as int }
}

/// `s` lies after its head: the anchor is to the right of the head.
pub open spec fn sel_reversed(s: Selection) -> bool {
    s.anchor.offset > s.head.offset
}

/// `a` and `b` share selected text.
pub open spec fn sel_overlaps(a: Selection, b: Selection) -> bool {
    sel_start(a) < sel_end(b) && sel_start(b) < sel_end(a)
}

/// `a` ends exactly where `b` starts.
pub open spec fn sel_adjacent(a: Selection, b: Selection) -> bool {
    sel_end(a) == sel_start(b)
}

/// `a` and `b` overlap or touch.
pub open spec fn sel_can_merge(a: Selection, b: Selection) -> bool {
    sel_overlaps(a, b) || sel_adjacent(a, b) || sel_adjacent(b, a)
}

/// `s` is a fresh selection with the given offsets, biases and mode:
/// both anchors at version 0 (identifiers are fresh and arbitrary).
pub open spec fn sel_fresh(
    s: Selection,
    head: int,
    head_bias: AnchorBias,
    anchor: int,
    anchor_bias: AnchorBias,
    mode: SelectionMode,
) -> bool {
    &&& s.head.offset == head
    &&& s.head.bias == head_bias
    &&& s.head.version == 0
    &&& s.anchor.offset == anchor
    &&& s.anchor.bias == anchor_bias
    &&& s.anchor.version == 0
    &&& s.mode == mode
}

/// `a` and `b` agree on everything but identifiers.
pub open spec fn sel_same_shape(a: Selection, b: Selection) -> bool {
    &&& a.head.offset == b.head.offset
    &&& a.head.bias == b.head.bias
    &&& a.head.version == b.head.version
    &&& a.anchor.offset == b.anchor.offset
    &&& a.anchor.bias == b.anchor.bias
    &&& a.anchor.version == b.anchor.version
    &&& a.mode == b.mode
}

/// The selection that `a.merge(b)` yields, up to identifiers: it spans both,
/// keeps `a`'s direction and mode, with a left-biased head and a right-biased anchor.
pub open spec fn sel_merge_fits(r: Selection, a: Selection, b: Selection) -> bool {
    let new_start = if sel_start(a) <= sel_start(b) { sel_start(a) } else { sel_start(b) };
    let new_end = if sel_end(a) >= sel_end(b) { sel_end(a) } else { sel_end(b) };
    if sel_reversed(a) {
        sel_fresh(r, new_start, AnchorBias::Left, new_end, AnchorBias::Right, a.mode)
    } else {
        sel_fresh(r, new_end, AnchorBias::Left, new_start, AnchorBias::Right, a.mode)
    }
}

impl Selection {
    /// A cursor at `offset`: no text selected.
    pub fn cursor(offset: usize) -> (r: Self)
        ensures
            sel_fresh(r, offset as int, AnchorBias::Left, offset as int, AnchorBias::Left, SelectionMode::Simple),
    {
        Selection { head: Anchor::at(offset), anchor: Anchor::at(offset), mode: SelectionMode::Simple, id: SelectionId::fresh() }
    }

    /// A selection with its cursor at `head`, started at `anchor`.
    pub fn new(head: usize, anchor: usize) -> (r: Self)
        ensures
            sel_fresh(r, head as int, AnchorBias::Left, anchor as int, AnchorBias::Right, SelectionMode::Simple),
    {
        Selection { head: Anchor::at(head), anchor: Anchor::at_right(anchor), mode: SelectionMode::Simple, id: SelectionId::fresh() }
    }

    /// A selection with an explicit mode.
    pub fn with_mode(head: usize, anchor: usize, mode: SelectionMode) -> (r: Self)
        ensures
            sel_fresh(r, head as int, AnchorBias::Left, anchor as int, AnchorBias::Right, mode),
    {
        Selection { head: Anchor::at(head), anchor: Anchor::at_right(anchor), mode, id: SelectionId::fresh() }
    }

    /// A simple-mode selection from two anchors.
    pub fn from_anchors(head: Anchor, anchor: Anchor) -> (r: Self)
        ensures
            r.head == head,
            r.anchor == anchor,
            r.mode == SelectionMode::Simple,
    {
        Selection { head, anchor, mode: SelectionMode::Simple, id: SelectionId::fresh() }
    }

    /// The selection's identifier.
    pub fn id(&self) -> (r: u64)
        ensures
            r == self.id.value(),
    {
        self.id.0
    }

    /// The head (cursor) position.
    pub fn head_offset(&self) -> (r: usize)
        ensures
            r == self.head.offset,
    {
        self.head.offset
    }

    /// The anchor position.
    pub fn anchor_offset(&self) -> (r: usize)
        ensures
            r == self.anchor.offset,
    {
        self.anchor.offset
    }

    /// The smaller of head and anchor.
    pub fn start(&self) -> (r: usize)
        ensures
            r == sel_start(*self),
    {
        if self.head.offset <= self.anchor.offset { self.head.offset } else { self.anchor.offset }
    }

    /// The larger of head and anchor.
    pub fn end(&self) -> (r: usize)
        ensures
            r == sel_end(*self),
    {
        if self.head.offset <= self.anchor.offset { self.anchor.offset } else { self.head.offset }
    }

    /// `(start, end)`, always ordered.
    pub fn range(&self) -> (r: (usize, usize))
        ensures
            r.0 == sel_start(*self),
            r.1 == sel_end(*self),
    {
        (self.start(), self.end())
    }

    /// True when head and anchor coincide: a bare cursor.
    pub fn is_cursor(&self) -> (r: bool)
        ensures
            r == (self.head.offset == self.anchor.offset),
    {
        self.head.offset == self.anchor.offset
    }

    /// True when some text is selected.
    pub fn has_selection(&self) -> (r: bool)
        ensures
            r == (self.head.offset != self.anchor.offset),
    {
        self.head.offset != self.anchor.offset
    }

    /// True when the anchor lies after the head.
    pub fn is_reversed(&self) -> (r: bool)
        ensures
            r == sel_reversed(*self),
    {
        self.anchor.offset > self.head.offset
    }

    /// True when `offset` lies in `start..end`.
    pub fn contains(&self, offset: usize) -> (r: bool)
        ensures
            r == (sel_start(*self) <= offset && offset < sel_end(*self)),
    {
        let (start, end) = self.range();
        offset >= start && offset < end
    }

    /// True when the two selections share selected text.
    pub fn overlaps(&self, other: &Selection) -> (r: bool)
        ensures
            r == sel_overlaps(*self, *other),
    {
        let (s1, e1) = self.range();
        let (s2, e2) = other.range();
        s1 < e2 && s2 < e1
    }

    /// True when this selection ends where `other` starts.
    pub fn is_adjacent(&self, other: &Selection) -> (r: bool)
        ensures
            r == sel_adjacent(*self, *other),
    {
        let (_, e1) = self.range();
        let (s2, _) = other.range();
        e1 == s2
    }

    /// True when the two selections overlap or touch.
    pub fn can_merge(&self, other: &Selection) -> (r: bool)
        ensures
            r == sel_can_merge(*self, *other),
    {
        self.overlaps(other) || self.is_adjacent(other) || other.is_adjacent(self)
    }

    /// A fresh selection spanning both, keeping this one's direction and mode.
    pub fn merge(&self, other: &Selection) -> (r: Selection)
        ensures
            sel_merge_fits(r, *self, *other),
    {
        let s1 = self.start();
        let s2 = other.start();
        let e1 = self.end();
        let e2 = other.end();
        let new_start = if s1 <= s2 { s1 } else { s2 };
        let new_end = if e1 >= e2 { e1 } else { e2 };
        if self.is_reversed() {
            Selection::with_mode(new_start, new_end, self.mode)
        } else {
            Selection::with_mode(new_end, new_start, self.mode)
        }
    }

    /// Move both ends through `edit`.
    pub fn adjust(&mut self, edit: &TextEdit)
        requires
            adjust_fits(old(self).head.offset as int, *edit),
            adjust_fits(old(self).anchor.offset as int, *edit),
        ensures
            *final(self) == (Selection {
                head: Anchor {
                    offset: adjusted_offset(old(self).head.offset as int, old(self).head.bias, *edit) as usize,
                    ..old(self).head
                },
                anchor: Anchor {
                    offset: adjusted_offset(old(self).anchor.offset as int, old(self).anchor.bias, *edit) as usize,
                    ..old(self).anchor
                },
                ..*old(self)
            }),
    {
        self.head.offset = AnchorSet::adjust_offset(self.head.offset, self.head.bias, edit);
        self.anchor.offset = AnchorSet::adjust_offset(self.anchor.offset, self.anchor.bias, edit);
    }

    /// Move the head to `offset`; without `extend` the anchor follows.
    pub fn move_head(&mut self, offset: usize, extend: bool)
        ensures
            *final(self) == (Selection {
                head: Anchor { offset: offset, ..old(self).head },
                anchor: if extend { old(self).anchor } else { Anchor { offset: offset, ..old(self).anchor } },
                ..*old(self)
            }),
    {
        self.head.offset = offset;
        if !extend {
            self.anchor.offset = offset;
        }
    }

    /// Collapse to a cursor at the head.
    pub fn collapse_to_head(&mut self)
        ensures
            *final(self) == (Selection {
                anchor: Anchor { offset: old(self).head.offset, ..old(self).anchor },
                ..*old(self)
            }),
    {
        self.anchor.offset = self.head.offset;
    }

    /// Collapse to a cursor at the start.
    pub fn collapse_to_start(&mut self)
        ensures
            *final(self) == (Selection {
                head: Anchor { offset: sel_start(*old(self)) as usize, ..old(self).head },
                anchor: Anchor { offset: sel_start(*old(self)) as usize, ..old(self).anchor },
                ..*old(self)
            }),
    {
        let start = self.start();
        self.head.offset = start;
        self.anchor.offset = start;
    }

    /// Collapse to a cursor at the end.
    pub fn collapse_to_end(&mut self)
        ensures
            *final(self) == (Selection {
                head: Anchor { offset: sel_end(*old(self)) as usize, ..old(self).head },
                anchor: Anchor { offset: sel_end(*old(self)) as usize, ..old(self).anchor },
                ..*old(self)
            }),
    {
        let end = self.end();
        self.head.offset = end;
        self.anchor.offset = end;
    }

    /// Number of selected characters (0 for a cursor).
    pub fn len(&self) -> (r: usize)
        ensures
            r == sel_end(*self) - sel_start(*self),
    {
        self.end() - self.start()
    }

    /// True when nothing is selected.
    pub fn is_empty(&self) -> (r: bool)
        ensures
            r == (sel_end(*self) == sel_start(*self)),
    {
        self.len() == 0
    }
}

impl PartialEq for Selection {
    fn eq(&self, other: &Self) -> (r: bool) {
        self.head.offset == other.head.offset && self.anchor.offset == other.anchor.offset
    }
}

impl PartialEqSpecImpl for Selection {
    open spec fn obeys_eq_spec() -> bool {
        true
    }

    open spec fn eq_spec(&self, other: &Self) -> bool {
        self.head.offset == other.head.offset && self.anchor.offset == other.anchor.offset
    }
}

impl Eq for Selection {}

/// How selections order: by start, then by end.
pub open spec fn selection_ordering(a: Selection, b: Selection) -> Ordering {
    if sel_start(a) < sel_start(b) {
        Ordering::Less
    } else if sel_start(a) > sel_start(b) {
        Ordering::Greater
    } else if sel_end(a) < sel_end(b) {
        Ordering::Less
    } else if sel_end(a) > sel_end(b) {
        Ordering::Greater
    } else {
        Ordering::Equal
    }
}

impl PartialOrd for Selection {
    fn partial_cmp(&self, other: &Self) -> (r: Option<Ordering>) {
        let (s1, e1) = self.range();
        let (s2, e2) = other.range();
        if s1 < s2 {
            Some(Ordering::Less)
        } else if s1 > s2 {
            Some(Ordering::Greater)
        } else if e1 < e2 {
            Some(Ordering::Less)
        } else if e1 > e2 {
            Some(Ordering::Greater)
        } else {
            Some(Ordering::Equal)
        }
    }
}

impl PartialOrdSpecImpl for Selection {
    open spec fn obeys_partial_cmp_spec() -> bool {
        true
    }

    open spec fn partial_cmp_spec(&self, other: &Self) -> Option<Ordering> {
        Some(selection_ordering(*self, *other))
    }
}


/// `a` sorts no later than `b`: by start, then by end.
pub open spec fn sel_le(a: Selection, b: Selection) -> bool {
    sel_start(a) < sel_start(b) || (sel_start(a) == sel_start(b) && sel_end(a) <= sel_end(b))
}

/// Selections in `(start, end)` order.
pub open spec fn sels_sorted(s: Seq<Selection>) -> bool {
    forall|i: int, j: int| 0 <= i < j < s.len() ==> sel_le(s[i], s[j])
}

/// Selections in order, each ending strictly before the next one starts:
/// no two of them overlap or touch.
pub open spec fn sels_separated(s: Seq<Selection>) -> bool {
    forall|i: int, j: int| 0 <= i < j < s.len() ==> sel_end(s[i]) < sel_start(s[j])
}

/// Index of the first selection in `s` that sorts after `x`; `s.len()` if none.
pub open spec fn sel_insert_pos(s: Seq<Selection>, x: Selection) -> nat
    decreases s.len(),
{
    if s.len() == 0 {
        0
    } else if !sel_le(s[0], x) {
        0
    } else {
        1 + sel_insert_pos(s.drop_first(), x)
    }
}

/// Stable sort of selections by `(start, end)`.
pub open spec fn sels_sort(s: Seq<Selection>) -> Seq<Selection>
    decreases s.len(),
{
    if s.len() == 0 {
        Seq::empty()
    } else {
        let t = sels_sort(s.drop_last());
        t.insert(sel_insert_pos(t, s.last()) as int, s.last())
    }
}

/// `a.merge(b)`, with `a`'s identifiers standing in for the fresh ones.
pub open spec fn sel_merge_spec(a: Selection, b: Selection) -> Selection {
    let new_start = if sel_start(a) <= sel_start(b) { sel_start(a) } else { sel_start(b) };
    let new_end = if sel_end(a) >= sel_end(b) { sel_end(a) } else { sel_end(b) };
    let (h, an) = if sel_reversed(a) { (new_start, new_end) } else { (new_end, new_start) };
    Selection {
        head: Anchor { id: a.head.id, offset: h as usize, bias: AnchorBias::Left, version: 0 },
        anchor: Anchor { id: a.anchor.id, offset: an as usize, bias: AnchorBias::Right, version: 0 },
        mode: a.mode,
        id: a.id,
    }
}

/// Left-to-right merge pass over `s`: each selection merges into the last
/// result when they overlap or touch, else it is appended. The flag marks
/// results made by merging (whose identifiers are fresh).
pub open spec fn merged_run(s: Seq<Selection>) -> Seq<(Selection, bool)>
    decreases s.len(),
{
    if s.len() == 0 {
        Seq::empty()
    } else {
        let m = merged_run(s.drop_last());
        let x = s.last();
        if m.len() > 0 && sel_can_merge(m.last().0, x) {
            m.drop_last().push((sel_merge_spec(m.last().0, x), true))
        } else {
            m.push((x, false))
        }
    }
}

/// `out` is `run`: equal shapes everywhere, and the very same selection
/// wherever no merge happened.
pub open spec fn run_matches(out: Seq<Selection>, run: Seq<(Selection, bool)>) -> bool {
    &&& out.len() == run.len()
    &&& forall|i: int|
        0 <= i < out.len() ==> sel_same_shape(#[trigger] out[i], run[i].0) && (!run[i].1 ==> out[i]
            == run[i].0)
}

/// The selections of a merge pass.
pub open spec fn run_sels(run: Seq<(Selection, bool)>) -> Seq<Selection> {
    run.map_values(|p: (Selection, bool)| p.0)
}

proof fn lemma_sel_insert_pos_props(s: Seq<Selection>, x: Selection)
    ensures
        sel_insert_pos(s, x) <= s.len(),
        forall|j: int| 0 <= j < sel_insert_pos(s, x) ==> sel_le(s[j], x),
        sel_insert_pos(s, x) < s.len() ==> !sel_le(s[sel_insert_pos(s, x) as int], x),
    decreases s.len(),
{
    if s.len() > 0 && sel_le(s[0], x) {
        lemma_sel_insert_pos_props(s.drop_first(), x);
        assert forall|j: int| 0 < j < s.len() implies s[j] == s.drop_first()[j - 1] by {}
    }
}

/// Sorting selections yields them in `(start, end)` order.
pub proof fn lemma_sels_sort_sorted(s: Seq<Selection>)
    ensures
        sels_sorted(sels_sort(s)),
        sels_sort(s).len() == s.len(),
    decreases s.len(),
{
    if s.len() > 0 {
        let t = sels_sort(s.drop_last());
        let x = s.last();
        lemma_sels_sort_sorted(s.drop_last());
        lemma_sel_insert_pos_props(t, x);
        let p = sel_insert_pos(t, x) as int;
        let r = t.insert(p, x);
        assert forall|i: int, j: int| 0 <= i < j < r.len() implies sel_le(r[i], r[j]) by {
            if j < p {
            } else if j == p {
            } else if i < p {
                if p < t.len() {
                    assert(sel_le(t[p], t[j - 1]) || j - 1 == p);
                }
            } else if i == p {
                assert(sel_le(t[p], t[j - 1]) || j - 1 == p);
            } else {
            }
        }
    }
}

/// Sorting keeps every selection and adds none: it only reorders.
pub proof fn lemma_sels_sort_permutes(s: Seq<Selection>)
    ensures
        sels_sort(s).to_multiset() =~= s.to_multiset(),
    decreases s.len(),
{
    broadcast use {vstd::seq_lib::group_to_multiset_ensures, vstd::multiset::group_multiset_axioms};
    if s.len() > 0 {
        let t = sels_sort(s.drop_last());
        lemma_sels_sort_permutes(s.drop_last());
        lemma_sel_insert_pos_props(t, s.last());
        let p = sel_insert_pos(t, s.last()) as int;
        let r = t.insert(p, s.last());
        assert(r.remove(p) =~= t);
        assert(r[p] == s.last());
        assert(s =~= s.drop_last().push(s.last()));
        assert(r.to_multiset().remove(s.last()) =~= t.to_multiset());
        assert(r.to_multiset().count(s.last()) > 0) by {
            assert(r.contains(s.last()));
        }
        assert(r.to_multiset() =~= t.to_multiset().insert(s.last()));
        assert(s.drop_last().push(s.last()).to_multiset() =~= s.drop_last().to_multiset().insert(
            s.last(),
        ));
        assert(sels_sort(s) == r);
        assert(s.to_multiset() =~= s.drop_last().to_multiset().insert(s.last()));
    } else {
        assert(s.to_multiset().len() == 0);
        assert(s.to_multiset() =~= vstd::multiset::Multiset::empty());
    }
}

/// A merge pass over selections sorted by start leaves them separated:
/// in order, none overlapping or touching another. It yields at least one
/// selection when given any.
pub proof fn lemma_merged_run_separated(s: Seq<Selection>)
    requires
        sels_sorted(s),
    ensures
        sels_separated(run_sels(merged_run(s))),
        s.len() > 0 ==> merged_run(s).len() > 0,
        merged_run(s).len() <= s.len(),
        s.len() > 0 ==> forall|i: int|
            0 <= i < merged_run(s).len() ==> sel_start(#[trigger] merged_run(s)[i].0) <= sel_start(
                s.last(),
            ),
    decreases s.len(),
{
    if s.len() > 0 {
        let m = merged_run(s.drop_last());
        let x = s.last();
        lemma_merged_run_separated(s.drop_last());
        let r = merged_run(s);
        if s.len() > 1 {
            assert(sel_le(s.drop_last().last(), x));
        }
        if m.len() > 0 && sel_can_merge(m.last().0, x) {
            let y = sel_merge_spec(m.last().0, x);
            assert(r == m.drop_last().push((y, true)));
            assert(sel_start(y) == sel_start(m.last().0));
            assert forall|i: int, j: int| 0 <= i < j < r.len() implies sel_end(r[i].0) < sel_start(
                r[j].0,
            ) by {
                assert(run_sels(m)[i] == m[i].0);
                if j < r.len() - 1 {
                    assert(run_sels(m)[j] == m[j].0);
                } else {
                    assert(run_sels(m)[j] == m[j].0);
                }
            }
            assert forall|i: int| 0 <= i < r.len() implies sel_start(#[trigger] r[i].0) <= sel_start(x) by {
                if i < r.len() - 1 {
                    assert(r[i] == m[i]);
                }
            }
        } else {
            assert(r == m.push((x, false)));
            if m.len() > 0 {
                assert(sel_end(m.last().0) < sel_start(x));
            }
            assert forall|i: int, j: int| 0 <= i < j < r.len() implies sel_end(r[i].0) < sel_start(
                r[j].0,
            ) by {
                assert(run_sels(m)[i] == m[i].0);
                if j < r.len() - 1 {
                    assert(run_sels(m)[j] == m[j].0);
                } else {
                    assert(run_sels(m)[m.len() - 1] == m[m.len() - 1].0);
                }
            }
            assert forall|i: int| 0 <= i < r.len() implies sel_start(#[trigger] r[i].0) <= sel_start(x) by {
                if i < r.len() - 1 {
                    assert(r[i] == m[i]);
                }
            }
        }
        assert forall|i: int, j: int| 0 <= i < j < run_sels(r).len() implies sel_end(
            run_sels(r)[i],
        ) < sel_start(run_sels(r)[j]) by {
            assert(run_sels(r)[i] == r[i].0);
            assert(run_sels(r)[j] == r[j].0);
        }
    }
}


/// Selection `x` lies within selection `y`.
pub open spec fn sel_within(x: Selection, y: Selection) -> bool {
    sel_start(y) <= sel_start(x) && sel_end(x) <= sel_end(y)
}

/// Offset `p` lies in one of the selections of `s`, ends included.
pub open spec fn in_sels(s: Seq<Selection>, p: int) -> bool {
    exists|i: int| 0 <= i < s.len() && #[trigger] sel_has(s[i], p)
}

/// Offset `p` lies in selection `x`, ends included.
pub open spec fn sel_has(x: Selection, p: int) -> bool {
    sel_start(x) <= p <= sel_end(x)
}

proof fn lemma_merged_run_points(t: Seq<Selection>)
    requires
        sels_sorted(t),
    ensures
        forall|j: int, p: int|
            0 <= j < merged_run(t).len() && #[trigger] sel_has(merged_run(t)[j].0, p) ==> in_sels(t, p),
    decreases t.len(),
{
    if t.len() > 0 {
        let d = t.drop_last();
        let m = merged_run(d);
        let x = t.last();
        let r = merged_run(t);
        assert(sels_sorted(d));
        lemma_merged_run_points(d);
        lemma_merged_run_separated(d);
        assert forall|p: int| in_sels(d, p) implies in_sels(t, p) by {
            let i = choose|i: int| 0 <= i < d.len() && #[trigger] sel_has(d[i], p);
            assert(t[i] == d[i]);
        }
        assert(t[t.len() - 1] == x);
        if m.len() > 0 && sel_can_merge(m.last().0, x) {
            let ml = m.last().0;
            let y = sel_merge_spec(ml, x);
            lemma_sel_merge_bounds(ml, x);
            assert(r == m.drop_last().push((y, true)));
            assert(m[m.len() - 1].0 == ml);
            assert(sel_start(ml) <= sel_start(d.last()));
            assert(sel_le(d[d.len() - 1], t[t.len() - 1]));
            assert(sel_start(x) <= sel_end(ml));
            assert forall|j: int, p: int|
                0 <= j < r.len() && #[trigger] sel_has(r[j].0, p) implies in_sels(t, p) by {
                if j < r.len() - 1 {
                    assert(r[j] == m[j]);
                    assert(in_sels(d, p));
                } else if p <= sel_end(ml) {
                    assert(sel_start(ml) <= sel_start(x));
                    assert(sel_has(m[m.len() - 1].0, p));
                    assert(in_sels(d, p));
                } else {
                    assert(sel_has(t[t.len() - 1], p));
                }
            }
        } else {
            assert(r == m.push((x, false)));
            assert forall|j: int, p: int|
                0 <= j < r.len() && #[trigger] sel_has(r[j].0, p) implies in_sels(t, p) by {
                if j < r.len() - 1 {
                    assert(r[j] == m[j]);
                    assert(in_sels(d, p));
                } else {
                    assert(sel_has(t[t.len() - 1], p));
                }
            }
        }
    }
}

/// Sorting and merging keeps exactly the offsets the selections cover, ends
/// included: an offset lies in some selection afterwards if and only if it
/// lay in some selection before.
pub proof fn lemma_sort_and_merge_keeps_points(out: Seq<Selection>, s: Seq<Selection>)
    requires
        sorted_and_merged(out, s),
    ensures
        forall|p: int| #[trigger] in_sels(out, p) == in_sels(s, p),
{
    lemma_sorted_and_merged_covers(out, s);
    assert forall|p: int| in_sels(s, p) implies in_sels(out, p) by {
        let i = choose|i: int| 0 <= i < s.len() && #[trigger] sel_has(s[i], p);
        assert(sel_held(s[i], out));
        let j = choose|j: int| 0 <= j < out.len() && sel_within(s[i], #[trigger] out[j]);
        assert(sel_has(out[j], p));
    }
    if s.len() > 1 {
        let t = sels_sort(s);
        let m = merged_run(t);
        lemma_sels_sort_sorted(s);
        lemma_sels_sort_permutes(s);
        lemma_merged_run_points(t);
        assert forall|p: int| in_sels(out, p) implies in_sels(s, p) by {
            broadcast use {vstd::seq_lib::group_to_multiset_ensures, vstd::multiset::group_multiset_axioms};
            let j = choose|j: int| 0 <= j < out.len() && #[trigger] sel_has(out[j], p);
            assert(sel_same_shape(out[j], m[j].0));
            assert(sel_has(m[j].0, p));
            assert(in_sels(t, p));
            let k = choose|k: int| 0 <= k < t.len() && #[trigger] sel_has(t[k], p);
            assert(t.to_multiset().count(t[k]) > 0);
            assert(s.to_multiset().count(t[k]) > 0);
            assert(s.contains(t[k]));
            let i = choose|i: int| 0 <= i < s.len() && s[i] == t[k];
            assert(sel_has(s[i], p));
        }
    } else {
        assert(out == s);
    }
}

/// Index of the first selection of `sels` that `x` lies within.
fn index_holding(sels: &Vec<Selection>, x: &Selection) -> (r: usize)
    requires
        sel_held(*x, sels@),
    ensures
        r < sels@.len(),
        sel_within(*x, sels@[r as int]),
{
    let (s0, e0) = x.range();
    let n = sels.len();
    let mut j: usize = 0;
    while j < n
        invariant
            n == sels@.len(),
            j <= n,
            s0 == sel_start(*x),
            e0 == sel_end(*x),
            sel_held(*x, sels@),
            forall|k: int| 0 <= k < j ==> !sel_within(*x, #[trigger] sels@[k]),
        decreases n - j,
    {
        let (s1, e1) = sels[j].range();
        if s1 <= s0 && e0 <= e1 {
            return j;
        }
        j = j + 1;
    }
    proof {
        let k = choose|k: int| 0 <= k < n && sel_within(*x, #[trigger] sels@[k]);
        assert(!sel_within(*x, sels@[k]));
    }
    0
}

/// Some selection of `out` holds `x`.
pub open spec fn sel_held(x: Selection, out: Seq<Selection>) -> bool {
    exists|j: int| 0 <= j < out.len() && sel_within(x, #[trigger] out[j])
}

/// Sorting and merging keeps every selection within one of the result.
proof fn lemma_sorted_and_merged_covers(out: Seq<Selection>, s: Seq<Selection>)
    requires
        sorted_and_merged(out, s),
    ensures
        forall|i: int| 0 <= i < s.len() ==> sel_held(#[trigger] s[i], out),
{
    if s.len() > 1 {
        let t = sels_sort(s);
        let m = merged_run(t);
        lemma_sels_sort_permutes(s);
        lemma_merged_run_covers(t);
        assert forall|i: int| 0 <= i < s.len() implies sel_held(#[trigger] s[i], out) by {
            broadcast use {vstd::seq_lib::group_to_multiset_ensures, vstd::multiset::group_multiset_axioms};
            assert(s.to_multiset().count(s[i]) > 0);
            assert(t.to_multiset().count(s[i]) > 0);
            assert(t.contains(s[i]));
            let k = choose|k: int| 0 <= k < t.len() && t[k] == s[i];
            let j = choose|j: int| 0 <= j < m.len() && sel_within(#[trigger] t[k], m[j].0);
            assert(sel_same_shape(out[j], m[j].0));
            assert(sel_within(s[i], out[j]));
        }
    } else {
        assert(out == s);
        assert forall|i: int| 0 <= i < s.len() implies sel_held(#[trigger] s[i], out) by {
            assert(sel_within(s[i], out[i]));
        }
    }
}

proof fn lemma_sel_merge_bounds(a: Selection, x: Selection)
    ensures
        sel_start(sel_merge_spec(a, x)) == if sel_start(a) <= sel_start(x) {
            sel_start(a)
        } else {
            sel_start(x)
        },
        sel_end(sel_merge_spec(a, x)) == if sel_end(a) >= sel_end(x) {
            sel_end(a)
        } else {
            sel_end(x)
        },
{
}

/// A merge pass loses no selected text: every selection of `s` lies within
/// some selection of the result.
pub proof fn lemma_merged_run_covers(s: Seq<Selection>)
    ensures
        forall|i: int|
            0 <= i < s.len() ==> exists|j: int|
                0 <= j < merged_run(s).len() && sel_within(#[trigger] s[i], merged_run(s)[j].0),
    decreases s.len(),
{
    if s.len() > 0 {
        let d = s.drop_last();
        let m = merged_run(d);
        let x = s.last();
        let r = merged_run(s);
        lemma_merged_run_covers(d);
        if m.len() > 0 && sel_can_merge(m.last().0, x) {
            let y = sel_merge_spec(m.last().0, x);
            lemma_sel_merge_bounds(m.last().0, x);
            assert(r == m.drop_last().push((y, true)));
            assert forall|i: int| 0 <= i < s.len() implies exists|j: int|
                0 <= j < r.len() && sel_within(#[trigger] s[i], r[j].0) by {
                if i == s.len() - 1 {
                    assert(sel_within(s[i], r[r.len() - 1].0));
                } else {
                    assert(d[i] == s[i]);
                    let j = choose|j: int| 0 <= j < m.len() && sel_within(#[trigger] d[i], m[j].0);
                    if j == m.len() - 1 {
                        assert(sel_within(s[i], r[j].0));
                    } else {
                        assert(r[j] == m[j]);
                        assert(sel_within(s[i], r[j].0));
                    }
                }
            }
        } else {
            assert(r == m.push((x, false)));
            assert forall|i: int| 0 <= i < s.len() implies exists|j: int|
                0 <= j < r.len() && sel_within(#[trigger] s[i], r[j].0) by {
                if i == s.len() - 1 {
                    assert(sel_within(s[i], r[r.len() - 1].0));
                } else {
                    assert(d[i] == s[i]);
                    let j = choose|j: int| 0 <= j < m.len() && sel_within(#[trigger] d[i], m[j].0);
                    assert(r[j] == m[j]);
                    assert(sel_within(s[i], r[j].0));
                }
            }
        }
    }
}

/// A merge pass adds no selected text: every selection of the result starts
/// where some selection of `s` starts and ends where some selection of `s`
/// ends.
pub proof fn lemma_merged_run_hull(s: Seq<Selection>)
    ensures
        forall|j: int|
            0 <= j < merged_run(s).len() ==> exists|i: int|
                0 <= i < s.len() && sel_start(s[i]) == sel_start(#[trigger] merged_run(s)[j].0),
        forall|j: int|
            0 <= j < merged_run(s).len() ==> exists|i: int|
                0 <= i < s.len() && sel_end(s[i]) == sel_end(#[trigger] merged_run(s)[j].0),
    decreases s.len(),
{
    if s.len() > 0 {
        let d = s.drop_last();
        let m = merged_run(d);
        let x = s.last();
        let r = merged_run(s);
        let last = (s.len() - 1) as int;
        lemma_merged_run_hull(d);
        assert(s[last] == x);
        if m.len() > 0 && sel_can_merge(m.last().0, x) {
            let y = sel_merge_spec(m.last().0, x);
            lemma_sel_merge_bounds(m.last().0, x);
            assert(r == m.drop_last().push((y, true)));
            assert forall|j: int| 0 <= j < r.len() implies exists|i: int|
                0 <= i < s.len() && sel_start(s[i]) == sel_start(#[trigger] r[j].0) by {
                let k = if j == r.len() - 1 { m.len() - 1 } else { j };
                let i1 = choose|i: int| 0 <= i < d.len() && sel_start(d[i]) == sel_start(#[trigger] m[k].0);
                assert(s[i1] == d[i1]);
                if j < r.len() - 1 {
                    assert(r[j] == m[j]);
                }
            }
            assert forall|j: int| 0 <= j < r.len() implies exists|i: int|
                0 <= i < s.len() && sel_end(s[i]) == sel_end(#[trigger] r[j].0) by {
                let k = if j == r.len() - 1 { m.len() - 1 } else { j };
                let i2 = choose|i: int| 0 <= i < d.len() && sel_end(d[i]) == sel_end(#[trigger] m[k].0);
                assert(s[i2] == d[i2]);
                if j < r.len() - 1 {
                    assert(r[j] == m[j]);
                }
            }
        } else {
            assert(r == m.push((x, false)));
            assert forall|j: int| 0 <= j < r.len() implies exists|i: int|
                0 <= i < s.len() && sel_start(s[i]) == sel_start(#[trigger] r[j].0) by {
                if j < r.len() - 1 {
                    assert(r[j] == m[j]);
                    let i1 = choose|i: int| 0 <= i < d.len() && sel_start(d[i]) == sel_start(#[trigger] m[j].0);
                    assert(s[i1] == d[i1]);
                }
            }
            assert forall|j: int| 0 <= j < r.len() implies exists|i: int|
                0 <= i < s.len() && sel_end(s[i]) == sel_end(#[trigger] r[j].0) by {
                if j < r.len() - 1 {
                    assert(r[j] == m[j]);
                    let i2 = choose|i: int| 0 <= i < d.len() && sel_end(d[i]) == sel_end(#[trigger] m[j].0);
                    assert(s[i2] == d[i2]);
                }
            }
        }
    }
}

/// Stable sort of `v` by `(start, end)`.
fn sort_selections(v: &Vec<Selection>) -> (r: Vec<Selection>)
    ensures
        r@ == sels_sort(v@),
{
    let n = v.len();
    let mut out: Vec<Selection> = Vec::new();
    let mut i: usize = 0;
    while i < n
        invariant
            n == v@.len(),
            i <= n,
            out@ == sels_sort(v@.take(i as int)),
        decreases n - i,
    {
        let x = v[i];
        proof {
            assert(v@.take(i + 1).drop_last() =~= v@.take(i as int));
            lemma_sel_insert_pos_props(out@, x);
        }
        let m = out.len();
        let mut p: usize = 0;
        while p < m && sel_key_le(&out[p], &x)
            invariant
                m == out@.len(),
                p <= sel_insert_pos(out@, x),
                sel_insert_pos(out@, x) <= m,
                forall|j: int| 0 <= j < sel_insert_pos(out@, x) ==> sel_le(out@[j], x),
                sel_insert_pos(out@, x) < m ==> !sel_le(out@[sel_insert_pos(out@, x) as int], x),
            decreases m - p,
        {
            p = p + 1;
        }
        out.insert(p, x);
        i = i + 1;
    }
    proof {
        assert(v@.take(n as int) =~= v@);
    }
    out
}

fn sel_key_le(a: &Selection, b: &Selection) -> (r: bool)
    ensures
        r == sel_le(*a, *b),
{
    let sa = a.start();
    let sb = b.start();
    sa < sb || (sa == sb && a.end() <= b.end())
}

/// Left-to-right merge pass over `sorted`.
fn merge_pass(sorted: &Vec<Selection>) -> (r: Vec<Selection>)
    ensures
        run_matches(r@, merged_run(sorted@)),
{
    let n = sorted.len();
    let mut merged: Vec<Selection> = Vec::new();
    let mut i: usize = 0;
    while i < n
        invariant
            n == sorted@.len(),
            i <= n,
            run_matches(merged@, merged_run(sorted@.take(i as int))),
        decreases n - i,
    {
        let sel = sorted[i];
        let ghost m = merged_run(sorted@.take(i as int));
        proof {
            assert(sorted@.take(i + 1).drop_last() =~= sorted@.take(i as int));
            assert(sorted@.take(i + 1).last() == sel);
        }
        let k = merged.len();
        if k > 0 {
            let last = merged[k - 1];
            proof {
                assert(sel_same_shape(last, m.last().0));
            }
            if last.can_merge(&sel) {
                let joined = last.merge(&sel);
                merged.set(k - 1, joined);
                proof {
                    let r = merged_run(sorted@.take(i + 1));
                    assert(r == m.drop_last().push((sel_merge_spec(m.last().0, sel), true)));
                    assert forall|j: int| 0 <= j < merged@.len() implies sel_same_shape(
                        #[trigger] merged@[j],
                        r[j].0,
                    ) && (!r[j].1 ==> merged@[j] == r[j].0) by {
                        if j < k - 1 {
                            assert(r[j] == m[j]);
                        }
                    }
                }
            } else {
                merged.push(sel);
                proof {
                    let r = merged_run(sorted@.take(i + 1));
                    assert(r == m.push((sel, false)));
                    assert forall|j: int| 0 <= j < merged@.len() implies sel_same_shape(
                        #[trigger] merged@[j],
                        r[j].0,
                    ) && (!r[j].1 ==> merged@[j] == r[j].0) by {
                        if j < k {
                            assert(r[j] == m[j]);
                        }
                    }
                }
            }
        } else {
            merged.push(sel);
            proof {
                let r = merged_run(sorted@.take(i + 1));
                assert(r == m.push((sel, false)));
            }
        }
        i = i + 1;
    }
    proof {
        assert(sorted@.take(n as int) =~= sorted@);
    }
    merged
}

/// A collection of non-overlapping selections, maintained in sorted order.
///
/// Adding, collapsing and applying edits sort the selections by position
/// and merge overlapping and adjacent ones. The first selection is the
/// "primary" one that determines the main cursor position.
pub struct SelectionCollection {
    /// Sorted by start position; index 0 is the primary selection.
    selections: Vec<Selection>,
    /// Edits recorded but not yet applied to the selections.
    pending_edits: Vec<TextEdit>,
    /// Bumped on changes.
    version: u64,
}

/// The contents of a [`SelectionCollection`].
pub ghost struct SelectionCollectionView {
    pub selections: Seq<Selection>,
    pub pending_edits: Seq<TextEdit>,
    pub version: u64,
}

impl View for SelectionCollection {
    type V = SelectionCollectionView;

    closed spec fn view(&self) -> SelectionCollectionView {
        SelectionCollectionView {
            selections: self.selections@,
            pending_edits: self.pending_edits@,
            version: self.version,
        }
    }
}

/// `after` is `before` with its pending edits applied: unchanged where none
/// are pending; else every selection moved through them, then sorted and
/// merged, the pending edits dropped and the version kept.
pub open spec fn sels_edits_applied(
    before: SelectionCollectionView,
    after: SelectionCollectionView,
) -> bool {
    &&& before.pending_edits.len() == 0 ==> after == before
    &&& before.pending_edits.len() > 0 ==> {
        &&& sorted_and_merged(
            after.selections,
            before.selections.map_values(|s: Selection| sel_after_edits(s, before.pending_edits)),
        )
        &&& after.pending_edits == Seq::<TextEdit>::empty()
        &&& after.version == before.version
    }
}

/// Applying the pending edits a second time changes nothing.
pub proof fn lemma_apply_pending_edits_twice(
    a: SelectionCollectionView,
    b: SelectionCollectionView,
    c: SelectionCollectionView,
)
    requires
        sels_edits_applied(a, b),
        sels_edits_applied(b, c),
    ensures
        c == b,
{
}

/// Every head and anchor of `s` can be moved through each of `edits`, in order,
/// within machine limits.
pub open spec fn sels_edits_fit(s: Seq<Selection>, edits: Seq<TextEdit>) -> bool {
    forall|i: int|
        0 <= i < s.len() ==> crate::anchor::resolve_fits(
            #[trigger] s[i].head.offset as int,
            s[i].head.bias,
            edits,
        ) && crate::anchor::resolve_fits(s[i].anchor.offset as int, s[i].anchor.bias, edits)
}

/// `s` with both ends moved through all of `edits`.
pub open spec fn sel_after_edits(s: Selection, edits: Seq<TextEdit>) -> Selection {
    Selection {
        head: Anchor {
            offset: crate::anchor::resolved_offset(s.head.offset as int, s.head.bias, edits) as usize,
            ..s.head
        },
        anchor: Anchor {
            offset: crate::anchor::resolved_offset(s.anchor.offset as int, s.anchor.bias, edits) as usize,
            ..s.anchor
        },
        ..s
    }
}

/// What sorting and merging makes of `s`: unchanged when it holds at most
/// one selection, else the merge pass over the sorted selections.
pub open spec fn sorted_and_merged(out: Seq<Selection>, s: Seq<Selection>) -> bool {
    if s.len() <= 1 {
        out == s
    } else {
        run_matches(out, merged_run(sels_sort(s)))
    }
}

/// Sorting and merging never yields more selections than it was given.
pub proof fn lemma_sort_and_merge_no_longer(out: Seq<Selection>, s: Seq<Selection>)
    requires
        sorted_and_merged(out, s),
    ensures
        out.len() <= s.len(),
{
    if s.len() > 1 {
        lemma_sels_sort_sorted(s);
        lemma_merged_run_separated(sels_sort(s));
    }
}

impl SelectionCollection {
    /// A collection holding one cursor at 0.
    pub fn new() -> (r: Self)
        ensures
            r@.selections.len() == 1,
            sel_fresh(r@.selections[0], 0, AnchorBias::Left, 0, AnchorBias::Left, SelectionMode::Simple),
            r@.pending_edits == Seq::<TextEdit>::empty(),
            r@.version == 0,
    {
        let mut selections = Vec::new();
        selections.push(Selection::cursor(0));
        SelectionCollection { selections, pending_edits: Vec::new(), version: 0 }
    }

    /// A collection holding one cursor at `offset`.
    pub fn with_cursor(offset: usize) -> (r: Self)
        ensures
            r@.selections.len() == 1,
            sel_fresh(r@.selections[0], offset as int, AnchorBias::Left, offset as int, AnchorBias::Left, SelectionMode::Simple),
            r@.pending_edits == Seq::<TextEdit>::empty(),
            r@.version == 0,
    {
        let mut selections = Vec::new();
        selections.push(Selection::cursor(offset));
        SelectionCollection { selections, pending_edits: Vec::new(), version: 0 }
    }

    /// A collection holding one selection from `anchor` to `head`.
    pub fn with_selection(head: usize, anchor: usize) -> (r: Self)
        ensures
            r@.selections.len() == 1,
            sel_fresh(r@.selections[0], head as int, AnchorBias::Left, anchor as int, AnchorBias::Right, SelectionMode::Simple),
            r@.pending_edits == Seq::<TextEdit>::empty(),
            r@.version == 0,
    {
        let mut selections = Vec::new();
        selections.push(Selection::new(head, anchor));
        SelectionCollection { selections, pending_edits: Vec::new(), version: 0 }
    }

    /// The primary (first) selection.
    pub fn primary(&self) -> (r: &Selection)
        requires
            self@.selections.len() >= 1,
        ensures
            *r == self@.selections[0],
    {
        &self.selections[0]
    }

    /// The primary cursor position: the head of the primary selection.
    pub fn cursor_pos(&self) -> (r: usize)
        requires
            self@.selections.len() >= 1,
        ensures
            r == self@.selections[0].head.offset,
    {
        self.selections[0].head.offset
    }

    /// Number of selections.
    pub fn len(&self) -> (r: usize)
        ensures
            r == self@.selections.len(),
    {
        self.selections.len()
    }

    /// True when the collection holds no selection.
    pub fn is_empty(&self) -> (r: bool)
        ensures
            r == (self@.selections.len() == 0),
    {
        self.selections.len() == 0
    }

    /// True when the collection is one bare cursor.
    pub fn is_single_cursor(&self) -> (r: bool)
        ensures
            r == (self@.selections.len() == 1 && self@.selections[0].head.offset
                == self@.selections[0].anchor.offset),
    {
        self.selections.len() == 1 && self.selections[0].is_cursor()
    }

    /// True when some selection selects text.
    pub fn has_selection(&self) -> (r: bool)
        ensures
            r == (exists|i: int|
                0 <= i < self@.selections.len() && #[trigger] self@.selections[i].head.offset
                    != self@.selections[i].anchor.offset),
    {
        let n = self.selections.len();
        let mut i: usize = 0;
        while i < n
            invariant
                n == self.selections@.len(),
                i <= n,
                forall|j: int| 0 <= j < i ==> #[trigger] self.selections@[j].head.offset
                    == self.selections@[j].anchor.offset,
            decreases n - i,
        {
            if self.selections[i].has_selection() {
                return true;
            }
            i = i + 1;
        }
        false
    }

    /// True when there is more than one selection.
    pub fn is_multiple(&self) -> (r: bool)
        ensures
            r == (self@.selections.len() > 1),
    {
        self.selections.len() > 1
    }

    /// The selections, primary first.
    pub fn iter(&self) -> (r: std::slice::Iter<'_, Selection>)
        ensures
            vstd::std_specs::slice::into_iter_elts(r) == self@.selections,
    {
        self.selections.as_slice().iter()
    }

    /// The selection at `index`.
    pub fn get(&self, index: usize) -> (r: Option<&Selection>)
        ensures
            index < self@.selections.len() ==> r == Some(&self@.selections[index as int]),
            index >= self@.selections.len() ==> r is None,
    {
        if index < self.selections.len() {
            Some(&self.selections[index])
        } else {
            None
        }
    }

    /// Sort by position and merge overlapping or touching selections.
    fn sort_and_merge(&mut self)
        ensures
            sorted_and_merged(final(self)@.selections, old(self)@.selections),
            old(self)@.selections.len() >= 1 ==> final(self)@.selections.len() >= 1,
            old(self)@.selections.len() > 1 ==> sels_separated(final(self)@.selections),
            old(self)@.selections.len() <= 1 ==> sels_separated(final(self)@.selections),
            final(self)@.pending_edits == old(self)@.pending_edits,
            final(self)@.version == old(self)@.version,
    {
        if self.selections.len() <= 1 {
            return;
        }
        let sorted = sort_selections(&self.selections);
        let mut merged = merge_pass(&sorted);
        proof {
            lemma_sels_sort_sorted(self.selections@);
            lemma_merged_run_separated(sorted@);
            lemma_run_matches_separated(merged@, merged_run(sorted@));
        }
        if merged.len() == 0 {
            merged.push(Selection::cursor(0));
        }
        self.selections = merged;
    }

    /// Add a cursor at `offset`, then sort and merge; returns the index of
    /// the selection that now holds it.
    pub fn add_cursor(&mut self, offset: usize) -> (r: usize)
        requires
            old(self)@.selections.len() >= 1,
            old(self)@.version < u64::MAX,
        ensures
            exists|c: Selection|
                sel_fresh(c, offset as int, AnchorBias::Left, offset as int, AnchorBias::Left, SelectionMode::Simple)
                    && sorted_and_merged(final(self)@.selections, old(self)@.selections.push(c)),
            sels_separated(final(self)@.selections),
            1 <= final(self)@.selections.len() <= old(self)@.selections.len() + 1,
            r < final(self)@.selections.len(),
            sel_start(final(self)@.selections[r as int]) <= offset <= sel_end(final(self)@.selections[r as int]),
            final(self)@.pending_edits == old(self)@.pending_edits,
            final(self)@.version == old(self)@.version + 1,
    {
        self.add_selection(Selection::cursor(offset))
    }

    /// Add a selection from `anchor` to `head`, then sort and merge; returns
    /// the index of the selection that now holds it.
    pub fn add_selection_range(&mut self, head: usize, anchor: usize) -> (r: usize)
        requires
            old(self)@.selections.len() >= 1,
            old(self)@.version < u64::MAX,
        ensures
            exists|c: Selection|
                sel_fresh(c, head as int, AnchorBias::Left, anchor as int, AnchorBias::Right, SelectionMode::Simple)
                    && sorted_and_merged(final(self)@.selections, old(self)@.selections.push(c)),
            sels_separated(final(self)@.selections),
            1 <= final(self)@.selections.len() <= old(self)@.selections.len() + 1,
            r < final(self)@.selections.len(),
            sel_start(final(self)@.selections[r as int]) <= (if head <= anchor { head } else { anchor }),
            (if head <= anchor { anchor } else { head }) <= sel_end(final(self)@.selections[r as int]),
            final(self)@.pending_edits == old(self)@.pending_edits,
            final(self)@.version == old(self)@.version + 1,
    {
        self.add_selection(Selection::new(head, anchor))
    }

    /// Add `selection`, then sort and merge; returns the index of the
    /// selection that now holds it.
    pub fn add_selection(&mut self, selection: Selection) -> (r: usize)
        requires
            old(self)@.selections.len() >= 1,
            old(self)@.version < u64::MAX,
        ensures
            sorted_and_merged(final(self)@.selections, old(self)@.selections.push(selection)),
            sels_separated(final(self)@.selections),
            1 <= final(self)@.selections.len() <= old(self)@.selections.len() + 1,
            r < final(self)@.selections.len(),
            sel_within(selection, final(self)@.selections[r as int]),
            final(self)@.pending_edits == old(self)@.pending_edits,
            final(self)@.version == old(self)@.version + 1,
    {
        self.selections.push(selection);
        let ghost pushed = self.selections@;
        self.sort_and_merge();
        self.version = self.version + 1;
        proof {
            lemma_sorted_and_merged_covers(self.selections@, pushed);
            lemma_sort_and_merge_no_longer(self.selections@, pushed);
            assert(pushed[pushed.len() - 1] == selection);
        }
        index_holding(&self.selections, &selection)
    }

    /// Keep only the primary selection.
    pub fn clear_secondary(&mut self)
        requires
            old(self)@.selections.len() > 1 ==> old(self)@.version < u64::MAX,
        ensures
            old(self)@.selections.len() > 1 ==> {
                &&& final(self)@.selections == old(self)@.selections.take(1)
                &&& final(self)@.version == old(self)@.version + 1
            },
            old(self)@.selections.len() <= 1 ==> final(self)@ == old(self)@,
            final(self)@.pending_edits == old(self)@.pending_edits,
    {
        if self.selections.len() > 1 {
            self.selections.truncate(1);
            self.version = self.version + 1;
        }
    }

    /// Replace every selection by one cursor at `offset`.
    pub fn set_cursor(&mut self, offset: usize)
        requires
            old(self)@.version < u64::MAX,
        ensures
            final(self)@.selections.len() == 1,
            sel_fresh(final(self)@.selections[0], offset as int, AnchorBias::Left, offset as int, AnchorBias::Left, SelectionMode::Simple),
            final(self)@.pending_edits == old(self)@.pending_edits,
            final(self)@.version == old(self)@.version + 1,
    {
        self.selections.clear();
        self.selections.push(Selection::cursor(offset));
        self.version = self.version + 1;
    }

    /// Replace every selection by one selection from `anchor` to `head`.
    pub fn set_selection(&mut self, head: usize, anchor: usize)
        requires
            old(self)@.version < u64::MAX,
        ensures
            final(self)@.selections.len() == 1,
            sel_fresh(final(self)@.selections[0], head as int, AnchorBias::Left, anchor as int, AnchorBias::Right, SelectionMode::Simple),
            final(self)@.pending_edits == old(self)@.pending_edits,
            final(self)@.version == old(self)@.version + 1,
    {
        self.selections.clear();
        self.selections.push(Selection::new(head, anchor));
        self.version = self.version + 1;
    }

    /// Move the primary selection's head (without `extend` its anchor
    /// follows), then sort and merge.
    pub fn move_primary(&mut self, offset: usize, extend: bool)
        requires
            old(self)@.selections.len() >= 1,
            old(self)@.version < u64::MAX,
        ensures
            sorted_and_merged(
                final(self)@.selections,
                old(self)@.selections.update(
                    0,
                    Selection {
                        head: Anchor { offset: offset, ..old(self)@.selections[0].head },
                        anchor: if extend {
                            old(self)@.selections[0].anchor
                        } else {
                            Anchor { offset: offset, ..old(self)@.selections[0].anchor }
                        },
                        ..old(self)@.selections[0]
                    },
                ),
            ),
            final(self)@.selections.len() >= 1,
            sels_separated(final(self)@.selections),
            final(self)@.pending_edits == old(self)@.pending_edits,
            final(self)@.version == old(self)@.version + 1,
    {
        let mut s = self.selections[0];
        s.move_head(offset, extend);
        self.selections.set(0, s);
        self.sort_and_merge();
        self.version = self.version + 1;
    }

    /// Collapse every selection to a cursor at its head, then sort and merge.
    pub fn collapse_all_to_head(&mut self)
        requires
            old(self)@.selections.len() >= 1,
            old(self)@.version < u64::MAX,
        ensures
            sorted_and_merged(
                final(self)@.selections,
                old(self)@.selections.map_values(
                    |s: Selection| Selection { anchor: Anchor { offset: s.head.offset, ..s.anchor }, ..s },
                ),
            ),
            final(self)@.selections.len() >= 1,
            old(self)@.selections.len() > 1 ==> sels_separated(final(self)@.selections),
            final(self)@.pending_edits == old(self)@.pending_edits,
            final(self)@.version == old(self)@.version + 1,
    {
        let n = self.selections.len();
        let ghost before = self.selections@;
        let mut i: usize = 0;
        while i < n
            invariant
                n == self.selections@.len(),
                i <= n,
                self.version == old(self)@.version,
                self.pending_edits@ == old(self)@.pending_edits,
                forall|j: int|
                    0 <= j < n ==> #[trigger] self.selections@[j] == (if j < i {
                        Selection { anchor: Anchor { offset: before[j].head.offset, ..before[j].anchor }, ..before[j] }
                    } else {
                        before[j]
                    }),
            decreases n - i,
        {
            let mut s = self.selections[i];
            s.collapse_to_head();
            self.selections.set(i, s);
            i = i + 1;
        }
        proof {
            assert(self.selections@ =~= before.map_values(
                |s: Selection| Selection { anchor: Anchor { offset: s.head.offset, ..s.anchor }, ..s },
            ));
        }
        self.sort_and_merge();
        self.version = self.version + 1;
    }

    /// Collapse every selection to a cursor at its start, then sort and merge.
    pub fn collapse_all_to_start(&mut self)
        requires
            old(self)@.selections.len() >= 1,
            old(self)@.version < u64::MAX,
        ensures
            sorted_and_merged(
                final(self)@.selections,
                old(self)@.selections.map_values(
                    |s: Selection| Selection {
                        head: Anchor { offset: sel_start(s) as usize, ..s.head },
                        anchor: Anchor { offset: sel_start(s) as usize, ..s.anchor },
                        ..s
                    },
                ),
            ),
            final(self)@.selections.len() >= 1,
            old(self)@.selections.len() > 1 ==> sels_separated(final(self)@.selections),
            final(self)@.pending_edits == old(self)@.pending_edits,
            final(self)@.version == old(self)@.version + 1,
    {
        let n = self.selections.len();
        let ghost before = self.selections@;
        let mut i: usize = 0;
        while i < n
            invariant
                n == self.selections@.len(),
                i <= n,
                self.version == old(self)@.version,
                self.pending_edits@ == old(self)@.pending_edits,
                forall|j: int|
                    0 <= j < n ==> #[trigger] self.selections@[j] == (if j < i {
                        Selection {
                            head: Anchor { offset: sel_start(before[j]) as usize, ..before[j].head },
                            anchor: Anchor { offset: sel_start(before[j]) as usize, ..before[j].anchor },
                            ..before[j]
                        }
                    } else {
                        before[j]
                    }),
            decreases n - i,
        {
            let mut s = self.selections[i];
            s.collapse_to_start();
            self.selections.set(i, s);
            i = i + 1;
        }
        proof {
            assert(self.selections@ =~= before.map_values(
                |s: Selection| Selection {
                    head: Anchor { offset: sel_start(s) as usize, ..s.head },
                    anchor: Anchor { offset: sel_start(s) as usize, ..s.anchor },
                    ..s
                },
            ));
        }
        self.sort_and_merge();
        self.version = self.version + 1;
    }

    /// Collapse every selection to a cursor at its end, then sort and merge.
    pub fn collapse_all_to_end(&mut self)
        requires
            old(self)@.selections.len() >= 1,
            old(self)@.version < u64::MAX,
        ensures
            sorted_and_merged(
                final(self)@.selections,
                old(self)@.selections.map_values(
                    |s: Selection| Selection {
                        head: Anchor { offset: sel_end(s) as usize, ..s.head },
                        anchor: Anchor { offset: sel_end(s) as usize, ..s.anchor },
                        ..s
                    },
                ),
            ),
            final(self)@.selections.len() >= 1,
            old(self)@.selections.len() > 1 ==> sels_separated(final(self)@.selections),
            final(self)@.pending_edits == old(self)@.pending_edits,
            final(self)@.version == old(self)@.version + 1,
    {
        let n = self.selections.len();
        let ghost before = self.selections@;
        let mut i: usize = 0;
        while i < n
            invariant
                n == self.selections@.len(),
                i <= n,
                self.version == old(self)@.version,
                self.pending_edits@ == old(self)@.pending_edits,
                forall|j: int|
                    0 <= j < n ==> #[trigger] self.selections@[j] == (if j < i {
                        Selection {
                            head: Anchor { offset: sel_end(before[j]) as usize, ..before[j].head },
                            anchor: Anchor { offset: sel_end(before[j]) as usize, ..before[j].anchor },
                            ..before[j]
                        }
                    } else {
                        before[j]
                    }),
            decreases n - i,
        {
            let mut s = self.selections[i];
            s.collapse_to_end();
            self.selections.set(i, s);
            i = i + 1;
        }
        proof {
            assert(self.selections@ =~= before.map_values(
                |s: Selection| Selection {
                    head: Anchor { offset: sel_end(s) as usize, ..s.head },
                    anchor: Anchor { offset: sel_end(s) as usize, ..s.anchor },
                    ..s
                },
            ));
        }
        self.sort_and_merge();
        self.version = self.version + 1;
    }

    /// Record an edit to apply to every selection later; bumps the version.
    pub fn record_edit(&mut self, edit: TextEdit)
        requires
            old(self)@.version < u64::MAX,
        ensures
            final(self)@.selections == old(self)@.selections,
            final(self)@.pending_edits == old(self)@.pending_edits.push(edit),
            final(self)@.version == old(self)@.version + 1,
    {
        self.pending_edits.push(edit);
        self.version = self.version + 1;
    }

    /// Move every selection through the pending edits, drop them, then sort and merge.
    pub fn apply_pending_edits(&mut self)
        requires
            old(self)@.selections.len() >= 1,
            sels_edits_fit(old(self)@.selections, old(self)@.pending_edits),
        ensures
            sels_edits_applied(old(self)@, final(self)@),
            final(self)@.selections.len() >= 1,
            old(self)@.selections.len() > 1 && old(self)@.pending_edits.len() > 0 ==> sels_separated(
                final(self)@.selections,
            ),
    {
        if self.pending_edits.len() == 0 {
            return;
        }
        let n = self.selections.len();
        let ghost before = self.selections@;
        let ghost edits = self.pending_edits@;
        let mut i: usize = 0;
        while i < n
            invariant
                n == self.selections@.len(),
                i <= n,
                edits == self.pending_edits@,
                before.len() == n,
                self.version == old(self)@.version,
                sels_edits_fit(before, edits),
                forall|j: int|
                    0 <= j < n ==> #[trigger] self.selections@[j] == (if j < i {
                        sel_after_edits(before[j], edits)
                    } else {
                        before[j]
                    }),
            decreases n - i,
        {
            let s = self.selections[i];
            let mut t = s;
            proof {
                assert(self.selections@[i as int] == before[i as int]);
                assert(crate::anchor::resolve_fits(before[i as int].head.offset as int, before[i as int].head.bias, edits));
            }
            t.head.offset = self.resolve_edits(s.head.offset, s.head.bias);
            t.anchor.offset = self.resolve_edits(s.anchor.offset, s.anchor.bias);
            self.selections.set(i, t);
            i = i + 1;
        }
        proof {
            assert(self.selections@ =~= before.map_values(|s: Selection| sel_after_edits(s, edits)));
        }
        self.pending_edits.clear();
        self.sort_and_merge();
    }

    fn resolve_edits(&self, start: usize, bias: AnchorBias) -> (r: usize)
        requires
            crate::anchor::resolve_fits(start as int, bias, self@.pending_edits),
        ensures
            r == crate::anchor::resolved_offset(start as int, bias, self@.pending_edits),
    {
        let mut offset = start;
        let n = self.pending_edits.len();
        let mut i: usize = 0;
        while i < n
            invariant
                n == self.pending_edits@.len(),
                i <= n,
                crate::anchor::resolve_fits(start as int, bias, self.pending_edits@),
                offset == crate::anchor::resolved_offset(
                    start as int,
                    bias,
                    self.pending_edits@.take(i as int),
                ),
            decreases n - i,
        {
            proof {
                let e = self.pending_edits@;
                assert(e.take(i + 1).drop_last() =~= e.take(i as int));
                crate::anchor::lemma_resolve_fits_prefix(start as int, bias, e, i + 1);
            }
            offset = AnchorSet::adjust_offset(offset, bias, &self.pending_edits[i]);
            i = i + 1;
        }
        proof {
            assert(self.pending_edits@.take(n as int) =~= self.pending_edits@);
        }
        offset
    }

    /// The `(start, end)` range of every selection, in order.
    pub fn ranges(&self) -> (r: Vec<(usize, usize)>)
        ensures
            r@.len() == self@.selections.len(),
            forall|i: int|
                0 <= i < r@.len() ==> #[trigger] r@[i] == (
                    sel_start(self@.selections[i]) as usize,
                    sel_end(self@.selections[i]) as usize,
                ),
    {
        let n = self.selections.len();
        let mut out: Vec<(usize, usize)> = Vec::new();
        let mut i: usize = 0;
        while i < n
            invariant
                n == self.selections@.len(),
                i <= n,
                out@.len() == i,
                forall|j: int|
                    0 <= j < i ==> #[trigger] out@[j] == (
                        sel_start(self.selections@[j]) as usize,
                        sel_end(self.selections@[j]) as usize,
                    ),
            decreases n - i,
        {
            out.push(self.selections[i].range());
            i = i + 1;
        }
        out
    }

    /// The collection's version, bumped on changes.
    pub fn version(&self) -> (r: u64)
        ensures
            r == self@.version,
    {
        self.version
    }

    /// True when some selection contains `offset`.
    pub fn any_contains(&self, offset: usize) -> (r: bool)
        ensures
            r == (exists|i: int|
                0 <= i < self@.selections.len() && sel_start(#[trigger] self@.selections[i]) <= offset
                    && offset < sel_end(self@.selections[i])),
    {
        let n = self.selections.len();
        let mut i: usize = 0;
        while i < n
            invariant
                n == self.selections@.len(),
                i <= n,
                forall|j: int|
                    0 <= j < i ==> !(sel_start(#[trigger] self.selections@[j]) <= offset && offset
                        < sel_end(self.selections@[j])),
            decreases n - i,
        {
            if self.selections[i].contains(offset) {
                proof {
                    assert(sel_start(self@.selections[i as int]) <= offset && offset < sel_end(
                        self@.selections[i as int],
                    ));
                }
                return true;
            }
            i = i + 1;
        }
        false
    }

    /// The first selection containing `offset`.
    pub fn selection_at(&self, offset: usize) -> (r: Option<&Selection>)
        ensures
            match r {
                Some(s) => exists|i: int|
                    0 <= i < self@.selections.len() && *s == #[trigger] self@.selections[i]
                        && sel_start(self@.selections[i]) <= offset && offset < sel_end(
                        self@.selections[i],
                    ) && forall|j: int|
                        0 <= j < i ==> !(sel_start(#[trigger] self@.selections[j]) <= offset
                            && offset < sel_end(self@.selections[j])),
                None => forall|i: int|
                    0 <= i < self@.selections.len() ==> !(sel_start(#[trigger] self@.selections[i])
                        <= offset && offset < sel_end(self@.selections[i])),
            },
    {
        let n = self.selections.len();
        let mut i: usize = 0;
        while i < n
            invariant
                n == self.selections@.len(),
                i <= n,
                forall|j: int|
                    0 <= j < i ==> !(sel_start(#[trigger] self.selections@[j]) <= offset && offset
                        < sel_end(self.selections@[j])),
            decreases n - i,
        {
            if self.selections[i].contains(offset) {
                proof {
                    assert(sel_start(self@.selections[i as int]) <= offset && offset < sel_end(
                        self@.selections[i as int],
                    ));
                }
                return Some(&self.selections[i]);
            }
            i = i + 1;
        }
        None
    }

    /// `(head, None)` for each cursor and `(head, Some(anchor))` for each
    /// selection, in order.
    pub fn to_head_anchor_pairs(&self) -> (r: Vec<(usize, Option<usize>)>)
        ensures
            r@.len() == self@.selections.len(),
            forall|i: int|
                0 <= i < r@.len() ==> #[trigger] r@[i] == (
                    self@.selections[i].head.offset,
                    if self@.selections[i].head.offset == self@.selections[i].anchor.offset {
                        None
                    } else {
                        Some(self@.selections[i].anchor.offset)
                    },
                ),
    {
        let n = self.selections.len();
        let mut out: Vec<(usize, Option<usize>)> = Vec::new();
        let mut i: usize = 0;
        while i < n
            invariant
                n == self.selections@.len(),
                i <= n,
                out@.len() == i,
                forall|j: int|
                    0 <= j < i ==> #[trigger] out@[j] == (
                        self.selections@[j].head.offset,
                        if self.selections@[j].head.offset == self.selections@[j].anchor.offset {
                            None
                        } else {
                            Some(self.selections@[j].anchor.offset)
                        },
                    ),
            decreases n - i,
        {
            let s = self.selections[i];
            if s.is_cursor() {
                out.push((s.head_offset(), None));
            } else {
                out.push((s.head_offset(), Some(s.anchor_offset())));
            }
            i = i + 1;
        }
        out
    }
}

impl Default for SelectionCollection {
    fn default() -> (r: Self)
        ensures
            r@.selections.len() == 1,
            sel_fresh(r@.selections[0], 0, AnchorBias::Left, 0, AnchorBias::Left, SelectionMode::Simple),
            r@.pending_edits == Seq::<TextEdit>::empty(),
            r@.version == 0,
    {
        SelectionCollection::new()
    }
}

impl Clone for SelectionCollection {
    fn clone(&self) -> (r: Self)
        ensures
            r@ == self@,
    {
        let n = self.selections.len();
        let mut selections: Vec<Selection> = Vec::new();
        let mut i: usize = 0;
        while i < n
            invariant
                n == self.selections@.len(),
                i <= n,
                selections@ == self.selections@.take(i as int),
            decreases n - i,
        {
            selections.push(self.selections[i]);
            proof {
                assert(self.selections@.take(i + 1) =~= self.selections@.take(i as int).push(
                    self.selections@[i as int],
                ));
            }
            i = i + 1;
        }
        let m = self.pending_edits.len();
        let mut pending_edits: Vec<TextEdit> = Vec::new();
        let mut j: usize = 0;
        while j < m
            invariant
                m == self.pending_edits@.len(),
                j <= m,
                pending_edits@ == self.pending_edits@.take(j as int),
            decreases m - j,
        {
            pending_edits.push(self.pending_edits[j]);
            proof {
                assert(self.pending_edits@.take(j + 1) =~= self.pending_edits@.take(j as int).push(
                    self.pending_edits@[j as int],
                ));
            }
            j = j + 1;
        }
        proof {
            assert(self.selections@.take(n as int) =~= self.selections@);
            assert(self.pending_edits@.take(m as int) =~= self.pending_edits@);
        }
        SelectionCollection { selections, pending_edits, version: self.version }
    }
}

proof fn lemma_run_matches_separated(out: Seq<Selection>, run: Seq<(Selection, bool)>)
    requires
        run_matches(out, run),
        sels_separated(run_sels(run)),
    ensures
        sels_separated(out),
{
    assert forall|i: int, j: int| 0 <= i < j < out.len() implies sel_end(out[i]) < sel_start(out[j]) by {
        assert(sel_same_shape(out[i], run[i].0));
        assert(sel_same_shape(out[j], run[j].0));
        assert(run_sels(run)[i] == run[i].0);
        assert(run_sels(run)[j] == run[j].0);
    }
}


impl SelectionCollection {
    /// The primary selection, for in-place changes.
    pub fn primary_mut(&mut self) -> (r: &mut Selection)
        requires
            old(self)@.selections.len() >= 1,
        ensures
            *r == old(self)@.selections[0],
            final(self)@.selections == old(self)@.selections.update(0, *final(r)),
            final(self)@.pending_edits == old(self)@.pending_edits,
            final(self)@.version == old(self)@.version,
    {
        &mut self.selections[0]
    }

    /// The selection at `index`, for in-place changes.
    pub fn get_mut(&mut self, index: usize) -> (r: Option<&mut Selection>)
        ensures
            index < old(self)@.selections.len() ==> (r matches Some(e) && *e == old(self)@.selections[index as int]
                && final(self)@.selections == old(self)@.selections.update(index as int, *final(e))),
            index >= old(self)@.selections.len() ==> r is None && final(self)@ == old(self)@,
            final(self)@.pending_edits == old(self)@.pending_edits,
            final(self)@.version == old(self)@.version,
            final(self)@.selections.len() == old(self)@.selections.len(),
    {
        if index < self.selections.len() {
            Some(&mut self.selections[index])
        } else {
            None
        }
    }

    /// Every selection, for in-place changes.
    pub fn iter_mut(&mut self) -> (r: &mut [Selection])
        ensures
            r@ == old(self)@.selections,
            final(self)@.selections == final(r)@,
            final(self)@.pending_edits == old(self)@.pending_edits,
            final(self)@.version == old(self)@.version,
    {
        self.selections.as_mut_slice()
    }
}


/// Some state of a closure of type `F` may answer `out` when called on `x`.
pub open spec fn fn_may_give<F: FnMut(usize) -> usize>(x: usize, out: usize) -> bool {
    exists|g: F| call_ensures(g, (x,), out)
}

/// `s[i]` with its head moved to `heads[i]`; without `extend` the anchor follows.
pub open spec fn sels_moved(s: Seq<Selection>, heads: Seq<usize>, extend: bool) -> Seq<Selection> {
    Seq::new(
        s.len(),
        |i: int|
            Selection {
                head: Anchor { offset: heads[i], ..s[i].head },
                anchor: if extend { s[i].anchor } else { Anchor { offset: heads[i], ..s[i].anchor } },
                ..s[i]
            },
    )
}

impl SelectionCollection {
    /// Move every head to `f` of its position (without `extend` the anchors
    /// follow), then sort and merge. `f` is called once per selection, in
    /// order, and may keep state between calls.
    pub fn move_all<F>(&mut self, mut f: F, extend: bool)
        where
            F: FnMut(usize) -> usize,
        requires
            old(self)@.selections.len() >= 1,
            old(self)@.version < u64::MAX,
            forall|g: F, x: usize| call_requires(g, (x,)),
        ensures
            exists|heads: Seq<usize>|
                {
                    &&& heads.len() == old(self)@.selections.len()
                    &&& forall|i: int|
                        0 <= i < heads.len() ==> fn_may_give::<F>(
                            old(self)@.selections[i].head.offset,
                            #[trigger] heads[i],
                        )
                    &&& sorted_and_merged(
                        final(self)@.selections,
                        sels_moved(old(self)@.selections, heads, extend),
                    )
                },
            final(self)@.selections.len() >= 1,
            sels_separated(final(self)@.selections),
            final(self)@.pending_edits == old(self)@.pending_edits,
            final(self)@.version == old(self)@.version + 1,
    {
        let n = self.selections.len();
        let ghost before = self.selections@;
        let ghost mut heads: Seq<usize> = Seq::empty();
        let mut i: usize = 0;
        while i < n
            invariant
                n == self.selections@.len(),
                before.len() == n,
                i <= n,
                heads.len() == i,
                self.version == old(self)@.version,
                self.pending_edits@ == old(self)@.pending_edits,
                forall|g: F, x: usize| call_requires(g, (x,)),
                forall|j: int|
                    0 <= j < i ==> fn_may_give::<F>(before[j].head.offset, #[trigger] heads[j]),
                forall|j: int|
                    0 <= j < n ==> #[trigger] self.selections@[j] == (if j < i {
                        Selection {
                            head: Anchor { offset: heads[j], ..before[j].head },
                            anchor: if extend {
                                before[j].anchor
                            } else {
                                Anchor { offset: heads[j], ..before[j].anchor }
                            },
                            ..before[j]
                        }
                    } else {
                        before[j]
                    }),
            decreases n - i,
        {
            let mut s = self.selections[i];
            proof {
                assert(self.selections@[i as int] == before[i as int]);
            }
            let ghost g = f;
            let new_pos = f(s.head_offset());
            proof {
                broadcast use vstd::function::axiom_fn_mut_call_ensures;
                assert(call_ensures(g, (before[i as int].head.offset,), new_pos));
                assert(fn_may_give::<F>(before[i as int].head.offset, new_pos));
                let prev = heads;
                heads = heads.push(new_pos);
                assert forall|j: int| 0 <= j < i + 1 implies fn_may_give::<F>(
                    before[j].head.offset,
                    #[trigger] heads[j],
                ) by {
                    if j == i {
                        assert(heads[j] == new_pos);
                    } else {
                        assert(heads[j] == prev[j]);
                    }
                }
            }
            s.move_head(new_pos, extend);
            self.selections.set(i, s);
            i = i + 1;
        }
        proof {
            assert(self.selections@ =~= sels_moved(before, heads, extend));
        }
        self.sort_and_merge();
        self.version = self.version + 1;
    }
}

} // verus!
