//! Anchor-based position tracking: positions that follow text edits.

use crate::ids::fresh_id;
use core::cmp::Ordering;
use vstd::prelude::*;
use vstd::std_specs::cmp::PartialOrdSpecImpl;

verus! {

/// Determines how an anchor behaves when text is inserted exactly at its position.
#[derive(Clone, Copy, Debug, PartialEq, Eq, Hash, PartialOrd, Ord, Structural)]
pub enum AnchorBias {
    Left,
    Right,
}

impl Default for AnchorBias {
    fn default() -> (r: Self)
        ensures
            r == AnchorBias::Left,
    {
        AnchorBias::Left
    }
}

/// A text edit operation for anchor adjustment.
#[derive(Clone, Copy, Debug, PartialEq, Eq, Structural)]
pub struct TextEdit {
    /// Character offset where the edit begins
    pub start: usize,
    /// Character offset of the old end (> start for deletions)
    pub old_end: usize,
    /// Character offset of the new end (> start for insertions)
    pub new_end: usize,
}

impl TextEdit {
    /// An insertion of `length` characters at `position`.
    pub fn insert(position: usize, length: usize) -> (r: Self)
        requires
            position + length <= usize::MAX,
        ensures
            r == (TextEdit { start: position, old_end: position, new_end: (position + length) as usize }),
    {
        TextEdit { start: position, old_end: position, new_end: position + length }
    }

    /// A deletion of the characters `start..end`.
    pub fn delete(start: usize, end: usize) -> (r: Self)
        ensures
            r == (TextEdit { start: start, old_end: end, new_end: start }),
    {
        TextEdit { start, old_end: end, new_end: start }
    }

    /// Replacement of `start..old_end` by `new_length` characters.
    pub fn replace(start: usize, old_end: usize, new_length: usize) -> (r: Self)
        requires
            start + new_length <= usize::MAX,
        ensures
            r == (TextEdit { start: start, old_end: old_end, new_end: (start + new_length) as usize }),
    {
        TextEdit { start, old_end, new_end: start + new_length }
    }

    /// Change in text length caused by the edit.
    pub fn delta(&self) -> (r: isize)
        requires
            self.new_end <= isize::MAX,
            self.old_end <= isize::MAX,
        ensures
            r == self.new_end - self.old_end,
    {
        self.new_end as isize - self.old_end as isize
    }

    pub open spec fn spec_is_insertion(self) -> bool {
        self.start == self.old_end && self.new_end > self.start
    }

    pub open spec fn spec_is_deletion(self) -> bool {
        self.old_end > self.start && self.new_end == self.start
    }

    /// True when the edit only inserts text.
    pub fn is_insertion(&self) -> (r: bool)
        ensures
            r == self.spec_is_insertion(),
    {
        self.start == self.old_end && self.new_end > self.start
    }

    /// True when the edit only deletes text.
    pub fn is_deletion(&self) -> (r: bool)
        ensures
            r == self.spec_is_deletion(),
    {
        self.old_end > self.start && self.new_end == self.start
    }
}

/// Where an offset lands after `edit`, for an anchor with the given bias.
pub open spec fn adjusted_offset(offset: int, bias: AnchorBias, edit: TextEdit) -> int {
    if offset < edit.start {
        offset
    } else if offset > edit.old_end {
        let shifted = offset + edit.new_end - edit.old_end;
        if shifted < 0 { 0 } else { shifted }
    } else if offset == edit.start && edit.spec_is_insertion() {
        match bias {
            AnchorBias::Left => offset,
            AnchorBias::Right => edit.new_end as int,
        }
    } else {
        edit.start as int
    }
}

/// The machine limits under which adjusting `offset` by `edit` is defined:
/// the edit's ends fit in `isize` and the shifted offset fits in `usize`.
pub open spec fn adjust_fits(offset: int, edit: TextEdit) -> bool {
    offset > edit.old_end ==> {
        &&& edit.new_end <= isize::MAX
        &&& edit.old_end <= isize::MAX
        &&& offset + edit.new_end - edit.old_end <= usize::MAX
    }
}

/// Where an offset lands after all of `edits`, applied in order.
pub open spec fn resolved_offset(offset: int, bias: AnchorBias, edits: Seq<TextEdit>) -> int
    decreases edits.len(),
{
    if edits.len() == 0 {
        offset
    } else {
        adjusted_offset(resolved_offset(offset, bias, edits.drop_last()), bias, edits.last())
    }
}

/// Every step of resolving `offset` through `edits` stays within machine limits.
pub open spec fn resolve_fits(offset: int, bias: AnchorBias, edits: Seq<TextEdit>) -> bool
    decreases edits.len(),
{
    if edits.len() == 0 {
        true
    } else {
        resolve_fits(offset, bias, edits.drop_last()) && adjust_fits(
            resolved_offset(offset, bias, edits.drop_last()),
            edits.last(),
        )
    }
}


/// Edit-resilient position: adjusts automatically when text is inserted or
/// deleted around it. Use for cursors, selection bounds, diagnostic marks,
/// or any position that must survive edits.
#[derive(Clone, Copy, Debug, PartialEq, Eq, Hash, Structural)]
pub struct Anchor {
    pub id: u64,
    pub offset: usize,
    pub bias: AnchorBias,
    /// Buffer version when last updated; stale if edits occurred since.
    pub version: u64,
}

impl Anchor {
    /// A fresh anchor at `offset` with the given bias and version 0.
    pub fn new(offset: usize, bias: AnchorBias) -> (r: Self)
        ensures
            r.offset == offset,
            r.bias == bias,
            r.version == 0,
    {
        Anchor::with_id(fresh_id(), offset, bias)
    }

    /// The anchor with identifier `id` at `offset`, version 0.
    pub fn with_id(id: u64, offset: usize, bias: AnchorBias) -> (r: Self)
        ensures
            r == (Anchor { id: id, offset: offset, bias: bias, version: 0 }),
    {
        Anchor { id, offset, bias, version: 0 }
    }

    /// A fresh left-biased anchor: stays before text inserted at its position.
    pub fn at(offset: usize) -> (r: Self)
        ensures
            r.offset == offset,
            r.bias == AnchorBias::Left,
            r.version == 0,
    {
        Anchor::new(offset, AnchorBias::Left)
    }

    /// A fresh right-biased anchor: moves past text inserted at its position.
    pub fn at_right(offset: usize) -> (r: Self)
        ensures
            r.offset == offset,
            r.bias == AnchorBias::Right,
            r.version == 0,
    {
        Anchor::new(offset, AnchorBias::Right)
    }
}

/// How anchors order: by offset, and at one offset a left-biased anchor
/// before a right-biased one. Identifiers and versions are not compared.
pub open spec fn anchor_ordering(a: Anchor, b: Anchor) -> Ordering {
    if a.offset < b.offset {
        Ordering::Less
    } else if a.offset > b.offset {
        Ordering::Greater
    } else if a.bias == AnchorBias::Left && b.bias == AnchorBias::Right {
        Ordering::Less
    } else if a.bias == AnchorBias::Right && b.bias == AnchorBias::Left {
        Ordering::Greater
    } else {
        Ordering::Equal
    }
}

impl PartialOrd for Anchor {
    fn partial_cmp(&self, other: &Self) -> (r: Option<Ordering>) {
        if self.offset < other.offset {
            Some(Ordering::Less)
        } else if self.offset > other.offset {
            Some(Ordering::Greater)
        } else {
            match (self.bias, other.bias) {
                (AnchorBias::Left, AnchorBias::Right) => Some(Ordering::Less),
                (AnchorBias::Right, AnchorBias::Left) => Some(Ordering::Greater),
                _ => Some(Ordering::Equal),
            }
        }
    }
}

impl PartialOrdSpecImpl for Anchor {
    open spec fn obeys_partial_cmp_spec() -> bool {
        true
    }

    open spec fn partial_cmp_spec(&self, other: &Self) -> Option<Ordering> {
        Some(anchor_ordering(*self, *other))
    }
}

impl Default for Anchor {
    fn default() -> (r: Self)
        ensures
            r.offset == 0,
            r.bias == AnchorBias::Left,
            r.version == 0,
    {
        Anchor::at(0)
    }
}

/// Rank of a bias in the anchor order: left before right.
pub open spec fn bias_rank(b: AnchorBias) -> int {
    match b {
        AnchorBias::Left => 0,
        AnchorBias::Right => 1,
    }
}

/// `a` sorts no later than `b`: by offset, then left bias before right bias.
pub open spec fn anchor_le(a: Anchor, b: Anchor) -> bool {
    a.offset < b.offset || (a.offset == b.offset && bias_rank(a.bias) <= bias_rank(b.bias))
}

/// Anchors sorted by `(offset, bias)`.
pub open spec fn anchors_sorted(s: Seq<Anchor>) -> bool {
    forall|i: int, j: int| 0 <= i < j < s.len() ==> anchor_le(s[i], s[j])
}

/// Anchors whose offsets never decrease.
pub open spec fn offsets_sorted(s: Seq<Anchor>) -> bool {
    forall|i: int, j: int| 0 <= i < j < s.len() ==> s[i].offset <= s[j].offset
}

/// Index of the first anchor in `s` that sorts after `x`; `s.len()` if none does.
pub open spec fn anchor_insert_pos(s: Seq<Anchor>, x: Anchor) -> nat
    decreases s.len(),
{
    if s.len() == 0 {
        0
    } else if !anchor_le(s[0], x) {
        0
    } else {
        1 + anchor_insert_pos(s.drop_first(), x)
    }
}

/// Stable sort of anchors by `(offset, bias)`: each anchor is placed after
/// every earlier anchor with an equal or smaller key.
pub open spec fn anchors_sort(s: Seq<Anchor>) -> Seq<Anchor>
    decreases s.len(),
{
    if s.len() == 0 {
        Seq::empty()
    } else {
        let t = anchors_sort(s.drop_last());
        t.insert(anchor_insert_pos(t, s.last()) as int, s.last())
    }
}

/// Index of the first anchor in `s` with offset greater than `offset`; `s.len()` if none.
pub open spec fn first_offset_after(s: Seq<Anchor>, offset: int) -> nat
    decreases s.len(),
{
    if s.len() == 0 {
        0
    } else if s[0].offset > offset {
        0
    } else {
        1 + first_offset_after(s.drop_first(), offset)
    }
}

/// Index of the first anchor in `s` with identifier `id`; `s.len()` if none.
pub open spec fn first_with_id(s: Seq<Anchor>, id: u64) -> nat
    decreases s.len(),
{
    if s.len() == 0 {
        0
    } else if s[0].id == id {
        0
    } else {
        1 + first_with_id(s.drop_first(), id)
    }
}

/// `a` after all `edits`, stamped with `version`.
pub open spec fn anchor_after_edits(a: Anchor, edits: Seq<TextEdit>, version: u64) -> Anchor {
    Anchor { offset: resolved_offset(a.offset as int, a.bias, edits) as usize, version: version, ..a }
}

/// Every anchor of `s` can be resolved through `edits` within machine limits.
pub open spec fn all_resolve_fit(s: Seq<Anchor>, edits: Seq<TextEdit>) -> bool {
    forall|i: int| 0 <= i < s.len() ==> resolve_fits(s[i].offset as int, s[i].bias, edits)
}

proof fn lemma_first_offset_after_props(s: Seq<Anchor>, offset: int)
    ensures
        first_offset_after(s, offset) <= s.len(),
        forall|j: int| 0 <= j < first_offset_after(s, offset) ==> s[j].offset <= offset,
        first_offset_after(s, offset) < s.len() ==> s[first_offset_after(s, offset) as int].offset
            > offset,
    decreases s.len(),
{
    if s.len() > 0 && s[0].offset <= offset {
        lemma_first_offset_after_props(s.drop_first(), offset);
        assert forall|j: int| 0 < j < s.len() implies s[j] == s.drop_first()[j - 1] by {}
    }
}

proof fn lemma_first_with_id_props(s: Seq<Anchor>, id: u64)
    ensures
        first_with_id(s, id) <= s.len(),
        forall|j: int| 0 <= j < first_with_id(s, id) ==> s[j].id != id,
        first_with_id(s, id) < s.len() ==> s[first_with_id(s, id) as int].id == id,
    decreases s.len(),
{
    if s.len() > 0 && s[0].id != id {
        lemma_first_with_id_props(s.drop_first(), id);
        assert forall|j: int| 0 < j < s.len() implies s[j] == s.drop_first()[j - 1] by {}
    }
}

proof fn lemma_anchor_insert_pos_props(s: Seq<Anchor>, x: Anchor)
    ensures
        anchor_insert_pos(s, x) <= s.len(),
        forall|j: int| 0 <= j < anchor_insert_pos(s, x) ==> anchor_le(s[j], x),
        anchor_insert_pos(s, x) < s.len() ==> !anchor_le(s[anchor_insert_pos(s, x) as int], x),
    decreases s.len(),
{
    if s.len() > 0 && anchor_le(s[0], x) {
        lemma_anchor_insert_pos_props(s.drop_first(), x);
        assert forall|j: int| 0 < j < s.len() implies s[j] == s.drop_first()[j - 1] by {}
    }
}

/// Sorting keeps every anchor and adds none: it only reorders.
pub proof fn lemma_anchors_sort_permutes(s: Seq<Anchor>)
    ensures
        anchors_sort(s).to_multiset() =~= s.to_multiset(),
        anchors_sort(s).len() == s.len(),
    decreases s.len(),
{
    if s.len() > 0 {
        let t = anchors_sort(s.drop_last());
        lemma_anchors_sort_permutes(s.drop_last());
        lemma_anchor_insert_pos_props(t, s.last());
        broadcast use {vstd::seq_lib::group_to_multiset_ensures, vstd::multiset::group_multiset_axioms};
        let p = anchor_insert_pos(t, s.last()) as int;
        let r = t.insert(p, s.last());
        assert(r.remove(p) =~= t);
        assert(r[p] == s.last());
        assert(s =~= s.drop_last().push(s.last()));
        assert(r.to_multiset().remove(s.last()) =~= t.to_multiset());
        assert(r.to_multiset().count(s.last()) > 0) by {
            assert(r.contains(s.last()));
        }
        assert(r.to_multiset() =~= t.to_multiset().insert(s.last()));
        assert(s.drop_last().push(s.last()).to_multiset() =~= s.drop_last().to_multiset().insert(
            s.last(),
        ));
        assert(anchors_sort(s) == r);
        assert(s.to_multiset() =~= s.drop_last().to_multiset().insert(s.last()));
    } else {
        broadcast use vstd::seq_lib::group_to_multiset_ensures;
        assert(s.to_multiset().len() == 0);
        assert(s.to_multiset() =~= vstd::multiset::Multiset::empty());
    }
}

proof fn lemma_resolve_fits_bounds(offset: int, bias: AnchorBias, edits: Seq<TextEdit>)
    requires
        0 <= offset <= usize::MAX,
        resolve_fits(offset, bias, edits),
    ensures
        0 <= resolved_offset(offset, bias, edits) <= usize::MAX,
    decreases edits.len(),
{
    if edits.len() > 0 {
        lemma_resolve_fits_bounds(offset, bias, edits.drop_last());
    }
}

/// Reading back an insert: when the set holds no anchor with the inserted
/// anchor's identifier, looking that identifier up afterwards finds the
/// inserted anchor (stamped with the set's version), and removing it gives
/// back the anchors held before.
pub proof fn lemma_insert_get_remove(s: Seq<Anchor>, a: Anchor, version: u64)
    requires
        first_with_id(s, a.id) == s.len(),
    ensures
        ({
            let stamped = Anchor { version: version, ..a };
            let after = s.insert(first_offset_after(s, a.offset as int) as int, stamped);
            &&& first_with_id(after, a.id) < after.len()
            &&& after[first_with_id(after, a.id) as int] == stamped
            &&& after.remove(first_with_id(after, a.id) as int) == s
        }),
{
    let stamped = Anchor { version: version, ..a };
    lemma_first_offset_after_props(s, a.offset as int);
    let pos = first_offset_after(s, a.offset as int) as int;
    let after = s.insert(pos, stamped);
    lemma_first_with_id_props(s, a.id);
    lemma_first_with_id_props(after, a.id);
    let fw = first_with_id(after, a.id) as int;
    assert(after[pos].id == a.id);
    if fw < pos {
        assert(after[fw] == s[fw]);
    }
    if fw > pos {
        assert(after[pos].id != a.id);
    }
    assert(fw == pos);
    assert(after.remove(pos) =~= s);
}

/// Text inserted exactly at an anchor's position goes after a left-biased
/// anchor, which stays put, and before a right-biased one, which moves to
/// the end of the inserted text.
pub proof fn lemma_insertion_at_anchor(offset: usize, length: usize)
    requires
        length > 0,
        offset + length <= usize::MAX,
    ensures
        ({
            let edit = TextEdit { start: offset, old_end: offset, new_end: (offset + length) as usize };
            &&& adjusted_offset(offset as int, AnchorBias::Left, edit) == offset
            &&& adjusted_offset(offset as int, AnchorBias::Right, edit) == offset + length
        }),
{
}

/// Applying pending edits agrees with resolving: every anchor held before
/// is held afterwards, same identifier and bias, at the offset that
/// resolving it through the edits gives, stamped with the set's version.
pub proof fn lemma_apply_matches_resolve(s: Seq<Anchor>, edits: Seq<TextEdit>, version: u64, i: int)
    requires
        0 <= i < s.len(),
        all_resolve_fit(s, edits),
    ensures
        ({
            let after = anchors_sort(s.map_values(|a: Anchor| anchor_after_edits(a, edits, version)));
            exists|j: int|
                0 <= j < after.len() && after[j].id == s[i].id && after[j].bias == s[i].bias
                    && after[j].offset == resolved_offset(s[i].offset as int, s[i].bias, edits)
                    && after[j].version == version
        }),
{
    broadcast use {vstd::seq_lib::group_to_multiset_ensures, vstd::multiset::group_multiset_axioms};
    let m = s.map_values(|a: Anchor| anchor_after_edits(a, edits, version));
    let after = anchors_sort(m);
    let x = anchor_after_edits(s[i], edits, version);
    lemma_anchors_sort_permutes(m);
    lemma_resolve_fits_bounds(s[i].offset as int, s[i].bias, edits);
    assert(m[i] == x);
    assert(m.contains(x));
    assert(m.to_multiset().count(x) > 0);
    assert(after.to_multiset().count(x) > 0);
    assert(after.contains(x));
    let j = choose|j: int| 0 <= j < after.len() && after[j] == x;
    assert(after[j].offset == resolved_offset(s[i].offset as int, s[i].bias, edits));
}

/// No anchor of `s` has identifier `id`.
pub open spec fn id_unused(s: Seq<Anchor>, id: int) -> bool {
    forall|i: int| 0 <= i < s.len() ==> s[i].id != id
}

/// Inserting where `AnchorSet::insert` does keeps offsets in order: anchors
/// before the new one lie at or before its offset, those after it beyond,
/// and where offsets never decreased before they never decrease after.
pub proof fn lemma_insert_keeps_offsets_sorted(s: Seq<Anchor>, a: Anchor, version: u64)
    ensures
        ({
            let p = first_offset_after(s, a.offset as int) as int;
            let t = s.insert(p, Anchor { version: version, ..a });
            &&& forall|j: int| 0 <= j < p ==> (#[trigger] t[j]).offset <= a.offset
            &&& offsets_sorted(s) ==> forall|j: int| p < j < t.len() ==> (#[trigger] t[j]).offset > a.offset
            &&& offsets_sorted(s) ==> offsets_sorted(t)
        }),
{
    lemma_first_offset_after_props(s, a.offset as int);
    let p = first_offset_after(s, a.offset as int) as int;
    let t = s.insert(p, Anchor { version: version, ..a });
    assert forall|j: int| 0 <= j < p implies (#[trigger] t[j]).offset <= a.offset by {
        assert(t[j] == s[j]);
    }
    if offsets_sorted(s) {
        assert forall|j: int| p < j < t.len() implies (#[trigger] t[j]).offset > a.offset by {
            assert(t[j] == s[j - 1]);
            assert(s[p].offset <= s[j - 1].offset);
        }
        assert forall|i: int, j: int| 0 <= i < j < t.len() implies t[i].offset <= t[j].offset by {
            if j < p {
                assert(t[i] == s[i] && t[j] == s[j]);
            } else if j == p {
                assert(t[i] == s[i]);
            } else if i < p {
                assert(t[i] == s[i] && t[j] == s[j - 1]);
                assert(s[p].offset <= s[j - 1].offset);
            } else if i == p {
                assert(t[j] == s[j - 1]);
                assert(s[p].offset <= s[j - 1].offset);
            } else {
                assert(t[i] == s[i - 1] && t[j] == s[j - 1]);
            }
        }
    }
}

/// Among `0..=s.len()` some identifier is had by no anchor of `s`.
proof fn lemma_ids_leave_one_free(s: Seq<Anchor>)
    ensures
        exists|k: int| 0 <= k <= s.len() && #[trigger] id_unused(s, k),
{
    broadcast use vstd::seq_lib::seq_to_set_is_finite;
    if forall|k: int| 0 <= k <= s.len() ==> !#[trigger] id_unused(s, k) {
        let ids = s.map_values(|a: Anchor| a.id as int);
        let range = vstd::set_lib::set_int_range(0, s.len() as int + 1);
        ids.lemma_cardinality_of_set();
        vstd::set_lib::lemma_int_range(0, s.len() as int + 1);
        assert forall|k: int| range.contains(k) implies ids.to_set().contains(k) by {
            assert(!id_unused(s, k));
            let i = choose|i: int| 0 <= i < s.len() && s[i].id == k;
            assert(ids[i] == k);
            assert(ids.contains(k));
        }
        vstd::set_lib::lemma_len_subset(range, ids.to_set());
    }
}

/// No two anchors of `s` share an identifier.
pub open spec fn anchor_ids_unique(s: Seq<Anchor>) -> bool {
    forall|i: int, j: int| 0 <= i < j < s.len() ==> s[i].id != s[j].id
}

/// Where no two anchors share an identifier, applying the edits leaves each
/// anchor, looked up by its identifier, at the offset that resolving it gave
/// before, with its bias kept and the given version stamped on it.
pub proof fn lemma_apply_then_get_is_resolve(s: Seq<Anchor>, edits: Seq<TextEdit>, version: u64)
    requires
        all_resolve_fit(s, edits),
        anchor_ids_unique(s),
    ensures
        ({
            let after = anchors_sort(s.map_values(|a: Anchor| anchor_after_edits(a, edits, version)));
            forall|i: int|
                0 <= i < s.len() ==> {
                    &&& first_with_id(after, #[trigger] s[i].id) < after.len()
                    &&& after[first_with_id(after, s[i].id) as int].offset == resolved_offset(
                        s[i].offset as int,
                        s[i].bias,
                        edits,
                    )
                    &&& after[first_with_id(after, s[i].id) as int].bias == s[i].bias
                    &&& after[first_with_id(after, s[i].id) as int].version == version
                }
        }),
{
    broadcast use {vstd::seq_lib::group_to_multiset_ensures, vstd::multiset::group_multiset_axioms};
    let m = s.map_values(|a: Anchor| anchor_after_edits(a, edits, version));
    let after = anchors_sort(m);
    lemma_anchors_sort_permutes(m);
    assert forall|i: int| 0 <= i < s.len() implies {
        &&& first_with_id(after, #[trigger] s[i].id) < after.len()
        &&& after[first_with_id(after, s[i].id) as int].offset == resolved_offset(
            s[i].offset as int,
            s[i].bias,
            edits,
        )
        &&& after[first_with_id(after, s[i].id) as int].bias == s[i].bias
        &&& after[first_with_id(after, s[i].id) as int].version == version
    } by {
        let id = s[i].id;
        lemma_apply_matches_resolve(s, edits, version, i);
        lemma_first_with_id_props(after, id);
        let j = choose|j: int|
            0 <= j < after.len() && after[j].id == s[i].id && after[j].bias == s[i].bias
                && after[j].offset == resolved_offset(s[i].offset as int, s[i].bias, edits)
                && after[j].version == version;
        assert(first_with_id(after, id) <= j);
        let k = first_with_id(after, id) as int;
        assert(after.to_multiset().count(after[k]) > 0);
        assert(m.to_multiset().count(after[k]) > 0);
        assert(m.contains(after[k]));
        let q = choose|q: int| 0 <= q < m.len() && m[q] == after[k];
        assert(m[q].id == s[q].id);
        assert(q == i);
        assert(m[i] == anchor_after_edits(s[i], edits, version));
    }
}

/// Sorting yields anchors in `(offset, bias)` order.
pub proof fn lemma_anchors_sort_sorted(s: Seq<Anchor>)
    ensures
        anchors_sorted(anchors_sort(s)),
    decreases s.len(),
{
    if s.len() > 0 {
        let t = anchors_sort(s.drop_last());
        let x = s.last();
        lemma_anchors_sort_sorted(s.drop_last());
        lemma_anchor_insert_pos_props(t, x);
        let p = anchor_insert_pos(t, x) as int;
        let r = t.insert(p, x);
        assert forall|i: int, j: int| 0 <= i < j < r.len() implies anchor_le(r[i], r[j]) by {
            if j < p {
            } else if j == p {
            } else if i < p {
                if p < t.len() {
                    assert(anchor_le(t[p], t[j - 1]) || j - 1 == p);
                }
            } else if i == p {
                assert(anchor_le(t[p], t[j - 1]) || j - 1 == p);
            } else {
            }
        }
    }
}

/// Tracks anchors and batch-updates them when text edits occur.
pub struct AnchorSet {
    /// Kept in insertion order by offset; re-sorted by `(offset, bias)` when edits apply.
    anchors: Vec<Anchor>,
    pending_edits: Vec<TextEdit>,
    version: u64,
}

/// The contents of an [`AnchorSet`].
pub ghost struct AnchorSetView {
    pub anchors: Seq<Anchor>,
    pub pending_edits: Seq<TextEdit>,
    pub version: u64,
}

impl View for AnchorSet {
    type V = AnchorSetView;

    closed spec fn view(&self) -> AnchorSetView {
        AnchorSetView {
            anchors: self.anchors@,
            pending_edits: self.pending_edits@,
            version: self.version,
        }
    }
}

impl Default for AnchorSet {
    fn default() -> (r: Self)
        ensures
            r@.anchors == Seq::<Anchor>::empty(),
            r@.pending_edits == Seq::<TextEdit>::empty(),
            r@.version == 0,
    {
        AnchorSet::new()
    }
}

impl Clone for AnchorSet {
    fn clone(&self) -> (r: Self)
        ensures
            r@ == self@,
    {
        AnchorSet {
            anchors: self.anchors.clone(),
            pending_edits: self.pending_edits.clone(),
            version: self.version,
        }
    }
}

impl AnchorSet {
    /// An empty set at version 0.
    pub fn new() -> (r: Self)
        ensures
            r@.anchors == Seq::<Anchor>::empty(),
            r@.pending_edits == Seq::<TextEdit>::empty(),
            r@.version == 0,
    {
        AnchorSet { anchors: Vec::new(), pending_edits: Vec::new(), version: 0 }
    }

    /// Insert `anchor`, stamped with the set's version, before the first
    /// anchor whose offset is greater. Returns the anchor's id.
    pub fn insert(&mut self, anchor: Anchor) -> (r: u64)
        ensures
            r == anchor.id,
            final(self)@.anchors == old(self)@.anchors.insert(
                first_offset_after(old(self)@.anchors, anchor.offset as int) as int,
                Anchor { version: old(self)@.version, ..anchor },
            ),
            offsets_sorted(old(self)@.anchors) ==> offsets_sorted(final(self)@.anchors),
            final(self)@.pending_edits == old(self)@.pending_edits,
            final(self)@.version == old(self)@.version,
    {
        proof {
            lemma_insert_keeps_offsets_sorted(self.anchors@, anchor, self.version);
        }
        let mut anchor = anchor;
        anchor.version = self.version;
        let id = anchor.id;
        let n = self.anchors.len();
        let mut pos: usize = 0;
        proof {
            lemma_first_offset_after_props(self.anchors@, anchor.offset as int);
        }
        while pos < n && self.anchors[pos].offset <= anchor.offset
            invariant
                n == self.anchors@.len(),
                pos <= n,
                pos <= first_offset_after(self.anchors@, anchor.offset as int),
                forall|j: int| 0 <= j < first_offset_after(self.anchors@, anchor.offset as int)
                    ==> self.anchors@[j].offset <= anchor.offset,
                first_offset_after(self.anchors@, anchor.offset as int) < n ==> self.anchors@[
                    first_offset_after(self.anchors@, anchor.offset as int) as int].offset
                    > anchor.offset,
                first_offset_after(self.anchors@, anchor.offset as int) <= n,
            decreases n - pos,
        {
            pos = pos + 1;
        }
        self.anchors.insert(pos, anchor);
        id
    }

    /// Make a fresh anchor at `offset`, insert it, and return it (as made,
    /// with version 0). Its identifier is one that no anchor of the set had:
    /// a freshly drawn one, or, where that is taken, the least free one.
    pub fn anchor_at(&mut self, offset: usize, bias: AnchorBias) -> (r: Anchor)
        ensures
            r.offset == offset,
            r.bias == bias,
            r.version == 0,
            final(self)@.anchors == old(self)@.anchors.insert(
                first_offset_after(old(self)@.anchors, offset as int) as int,
                Anchor { version: old(self)@.version, ..r },
            ),
            forall|i: int|
                0 <= i < old(self)@.anchors.len() ==> #[trigger] old(self)@.anchors[i].id != r.id,
            final(self)@.pending_edits == old(self)@.pending_edits,
            final(self)@.version == old(self)@.version,
    {
        let mut anchor = Anchor::new(offset, bias);
        let pos = self.position_of(anchor.id);
        proof {
            lemma_first_with_id_props(self@.anchors, anchor.id);
        }
        if pos < self.anchors.len() {
            let id = self.unused_id();
            anchor = Anchor::with_id(id, offset, bias);
        }
        self.insert(anchor);
        anchor
    }

    /// An identifier that no anchor of the set has: the least one from zero.
    fn unused_id(&self) -> (r: u64)
        ensures
            forall|i: int| 0 <= i < self@.anchors.len() ==> #[trigger] self@.anchors[i].id != r,
    {
        let n = self.anchors.len();
        let mut c: usize = 0;
        loop
            invariant
                n == self@.anchors.len(),
                c <= n,
                forall|k: int| 0 <= k < c ==> !#[trigger] id_unused(self@.anchors, k),
            decreases n - c,
        {
            let pos = self.position_of(c as u64);
            proof {
                lemma_first_with_id_props(self@.anchors, c as u64);
            }
            if pos == n {
                return c as u64;
            }
            proof {
                assert(self@.anchors[pos as int].id == c);
                if c == n {
                    lemma_ids_leave_one_free(self@.anchors);
                    let k = choose|k: int| 0 <= k <= n && #[trigger] id_unused(self@.anchors, k);
                    if k < c {
                        assert(!id_unused(self@.anchors, k));
                    } else {
                        assert(self@.anchors[pos as int].id != k);
                    }
                }
            }
            c = c + 1;
        }
    }

    /// Remove and return the first anchor with identifier `id`.
    pub fn remove(&mut self, id: u64) -> (r: Option<Anchor>)
        ensures
            first_with_id(old(self)@.anchors, id) < old(self)@.anchors.len() ==> {
                &&& r == Some(old(self)@.anchors[first_with_id(old(self)@.anchors, id) as int])
                &&& final(self)@.anchors == old(self)@.anchors.remove(
                    first_with_id(old(self)@.anchors, id) as int,
                )
            },
            first_with_id(old(self)@.anchors, id) == old(self)@.anchors.len() ==> {
                &&& r is None
                &&& final(self)@.anchors == old(self)@.anchors
            },
            final(self)@.pending_edits == old(self)@.pending_edits,
            final(self)@.version == old(self)@.version,
    {
        let pos = self.position_of(id);
        if pos < self.anchors.len() {
            Some(self.anchors.remove(pos))
        } else {
            None
        }
    }

    fn position_of(&self, id: u64) -> (r: usize)
        ensures
            r == first_with_id(self@.anchors, id),
    {
        let n = self.anchors.len();
        let mut pos: usize = 0;
        proof {
            lemma_first_with_id_props(self.anchors@, id);
        }
        while pos < n && self.anchors[pos].id != id
            invariant
                n == self.anchors@.len(),
                pos <= first_with_id(self.anchors@, id),
                forall|j: int| 0 <= j < first_with_id(self.anchors@, id) ==> self.anchors@[j].id
                    != id,
                first_with_id(self.anchors@, id) < n ==> self.anchors@[first_with_id(
                    self.anchors@,
                    id,
                ) as int].id == id,
                first_with_id(self.anchors@, id) <= n,
            decreases n - pos,
        {
            pos = pos + 1;
        }
        pos
    }

    /// The first anchor with identifier `id`.
    pub fn get(&self, id: u64) -> (r: Option<&Anchor>)
        ensures
            first_with_id(self@.anchors, id) < self@.anchors.len() ==> r == Some(
                &self@.anchors[first_with_id(self@.anchors, id) as int],
            ),
            first_with_id(self@.anchors, id) == self@.anchors.len() ==> r is None,
    {
        let pos = self.position_of(id);
        if pos < self.anchors.len() {
            Some(&self.anchors[pos])
        } else {
            None
        }
    }

    /// Where `anchor` lands after the edits recorded but not yet applied.
    pub fn resolve(&self, anchor: &Anchor) -> (r: usize)
        requires
            resolve_fits(anchor.offset as int, anchor.bias, self@.pending_edits),
        ensures
            r == resolved_offset(anchor.offset as int, anchor.bias, self@.pending_edits),
    {
        self.resolve_through(anchor.offset, anchor.bias)
    }

    fn resolve_through(&self, start: usize, bias: AnchorBias) -> (r: usize)
        requires
            resolve_fits(start as int, bias, self@.pending_edits),
        ensures
            r == resolved_offset(start as int, bias, self@.pending_edits),
    {
        let mut offset = start;
        let n = self.pending_edits.len();
        let mut i: usize = 0;
        while i < n
            invariant
                n == self.pending_edits@.len(),
                i <= n,
                resolve_fits(start as int, bias, self.pending_edits@),
                offset == resolved_offset(start as int, bias, self.pending_edits@.take(i as int)),
            decreases n - i,
        {
            proof {
                let e = self.pending_edits@;
                assert(e.take(i + 1).drop_last() =~= e.take(i as int));
                lemma_resolve_fits_prefix(start as int, bias, e, i + 1);
            }
            offset = AnchorSet::adjust_offset(offset, bias, &self.pending_edits[i]);
            i = i + 1;
        }
        proof {
            assert(self.pending_edits@.take(n as int) =~= self.pending_edits@);
        }
        offset
    }

    /// Record an edit to be applied later; bumps the version.
    pub fn record_edit(&mut self, edit: TextEdit)
        requires
            old(self)@.version < u64::MAX,
        ensures
            final(self)@.anchors == old(self)@.anchors,
            final(self)@.pending_edits == old(self)@.pending_edits.push(edit),
            final(self)@.version == old(self)@.version + 1,
    {
        self.pending_edits.push(edit);
        self.version = self.version + 1;
    }

    /// Apply every pending edit to every anchor, stamp them with the current
    /// version, drop the pending edits and re-sort by `(offset, bias)`.
    pub fn apply_pending_edits(&mut self)
        requires
            all_resolve_fit(old(self)@.anchors, old(self)@.pending_edits),
        ensures
            old(self)@.pending_edits.len() == 0 ==> final(self)@ == old(self)@,
            old(self)@.pending_edits.len() > 0 ==> {
                &&& final(self)@.anchors == anchors_sort(
                    old(self)@.anchors.map_values(
                        |a: Anchor|
                            anchor_after_edits(a, old(self)@.pending_edits, old(self)@.version),
                    ),
                )
                &&& final(self)@.pending_edits == Seq::<TextEdit>::empty()
                &&& final(self)@.version == old(self)@.version
            },
    {
        if self.pending_edits.len() == 0 {
            return;
        }
        let ghost edits = self.pending_edits@;
        let ghost before = self.anchors@;
        let n = self.anchors.len();
        let mut updated: Vec<Anchor> = Vec::new();
        let mut i: usize = 0;
        while i < n
            invariant
                n == self.anchors@.len(),
                before == self.anchors@,
                edits == self.pending_edits@,
                i <= n,
                all_resolve_fit(before, edits),
                updated@ =~= before.take(i as int).map_values(
                    |a: Anchor| anchor_after_edits(a, edits, self.version),
                ),
            decreases n - i,
        {
            let a = self.anchors[i];
            let offset = self.resolve_through(a.offset, a.bias);
            updated.push(Anchor { offset, version: self.version, ..a });
            i = i + 1;
        }
        proof {
            assert(before.take(n as int) =~= before);
        }
        self.pending_edits.clear();
        self.anchors = sort_anchors(&updated);
    }

    /// Adjust `offset` for `edit`.
    pub fn adjust_offset(offset: usize, bias: AnchorBias, edit: &TextEdit) -> (r: usize)
        requires
            adjust_fits(offset as int, *edit),
        ensures
            r == adjusted_offset(offset as int, bias, *edit),
    {
        if offset < edit.start {
            offset
        } else if offset > edit.old_end {
            let delta = edit.delta();
            if delta < 0 {
                offset.saturating_sub((-delta) as usize)
            } else {
                offset + delta as usize
            }
        } else if offset == edit.start && edit.is_insertion() {
            match bias {
                AnchorBias::Left => offset,
                AnchorBias::Right => edit.new_end,
            }
        } else {
            edit.start
        }
    }

    /// Drop every anchor and pending edit (the version stays).
    pub fn clear(&mut self)
        ensures
            final(self)@.anchors == Seq::<Anchor>::empty(),
            final(self)@.pending_edits == Seq::<TextEdit>::empty(),
            final(self)@.version == old(self)@.version,
    {
        self.anchors.clear();
        self.pending_edits.clear();
    }

    /// Number of anchors.
    pub fn len(&self) -> (r: usize)
        ensures
            r == self@.anchors.len(),
    {
        self.anchors.len()
    }

    /// True when the set holds no anchor.
    pub fn is_empty(&self) -> (r: bool)
        ensures
            r == (self@.anchors.len() == 0),
    {
        self.anchors.len() == 0
    }

    /// The anchors, in the set's order.
    pub fn iter(&self) -> (r: std::slice::Iter<'_, Anchor>)
        ensures
            vstd::std_specs::slice::into_iter_elts(r) == self@.anchors,
    {
        self.anchors.as_slice().iter()
    }

    /// The anchors whose offset lies in `start..=end`, in the set's order.
    pub fn anchors_in_range(&self, start: usize, end: usize) -> (r: Vec<Anchor>)
        ensures
            r@ == self@.anchors.filter(|a: Anchor| start <= a.offset && a.offset <= end),
    {
        let n = self.anchors.len();
        let mut out: Vec<Anchor> = Vec::new();
        let mut i: usize = 0;
        while i < n
            invariant
                n == self.anchors@.len(),
                i <= n,
                out@ == self.anchors@.take(i as int).filter(
                    |a: Anchor| start <= a.offset && a.offset <= end,
                ),
            decreases n - i,
        {
            let a = self.anchors[i];
            proof {
                let s = self.anchors@;
                assert(s.take(i + 1).drop_last() =~= s.take(i as int));
                reveal_with_fuel(Seq::filter, 1);
            }
            if start <= a.offset && a.offset <= end {
                out.push(a);
            }
            i = i + 1;
        }
        proof {
            assert(self.anchors@.take(n as int) =~= self.anchors@);
        }
        out
    }

    /// The set's version, bumped by each recorded edit.
    pub fn version(&self) -> (r: u64)
        ensures
            r == self@.version,
    {
        self.version
    }
}

/// Resolving within machine limits through some edits stays within them
/// through any prefix of those edits.
pub proof fn lemma_resolve_fits_prefix(offset: int, bias: AnchorBias, edits: Seq<TextEdit>, k: int)
    requires
        0 <= k <= edits.len(),
        resolve_fits(offset, bias, edits),
    ensures
        resolve_fits(offset, bias, edits.take(k)),
    decreases edits.len() - k,
{
    if k < edits.len() {
        assert(edits.take(k + 1).drop_last() =~= edits.take(k));
        lemma_resolve_fits_prefix(offset, bias, edits, k + 1);
        assert(edits.take(edits.len() as int) =~= edits);
    } else {
        assert(edits.take(k) =~= edits);
    }
}

/// Stable sort of `v` by `(offset, bias)`.
fn sort_anchors(v: &Vec<Anchor>) -> (r: Vec<Anchor>)
    ensures
        r@ == anchors_sort(v@),
{
    let n = v.len();
    let mut out: Vec<Anchor> = Vec::new();
    let mut i: usize = 0;
    while i < n
        invariant
            n == v@.len(),
            i <= n,
            out@ == anchors_sort(v@.take(i as int)),
        decreases n - i,
    {
        let x = v[i];
        proof {
            assert(v@.take(i + 1).drop_last() =~= v@.take(i as int));
            lemma_anchor_insert_pos_props(out@, x);
        }
        let m = out.len();
        let mut p: usize = 0;
        while p < m && anchor_key_le(&out[p], &x)
            invariant
                m == out@.len(),
                p <= anchor_insert_pos(out@, x),
                anchor_insert_pos(out@, x) <= m,
                forall|j: int| 0 <= j < anchor_insert_pos(out@, x) ==> anchor_le(out@[j], x),
                anchor_insert_pos(out@, x) < m ==> !anchor_le(
                    out@[anchor_insert_pos(out@, x) as int],
                    x,
                ),
            decreases m - p,
        {
            p = p + 1;
        }
        out.insert(p, x);
        i = i + 1;
    }
    proof {
        assert(v@.take(n as int) =~= v@);
    }
    out
}

fn anchor_key_le(a: &Anchor, b: &Anchor) -> (r: bool)
    ensures
        r == anchor_le(*a, *b),
{
    a.offset < b.offset || (a.offset == b.offset && (a.bias == AnchorBias::Left
        || b.bias == AnchorBias::Right))
}


impl AnchorSet {
    /// The first anchor with identifier `id`, for in-place changes.
    pub fn get_mut(&mut self, id: u64) -> (r: Option<&mut Anchor>)
        ensures
            first_with_id(old(self)@.anchors, id) < old(self)@.anchors.len() ==> (r matches Some(e)
                && *e == old(self)@.anchors[first_with_id(old(self)@.anchors, id) as int]
                && final(self)@.anchors == old(self)@.anchors.update(
                first_with_id(old(self)@.anchors, id) as int,
                *final(e),
            )),
            first_with_id(old(self)@.anchors, id) == old(self)@.anchors.len() ==> (r is None
                && final(self)@ == old(self)@),
            final(self)@.pending_edits == old(self)@.pending_edits,
            final(self)@.version == old(self)@.version,
    {
        let pos = self.position_of(id);
        if pos < self.anchors.len() {
            Some(&mut self.anchors[pos])
        } else {
            None
        }
    }
}

} // verus!
