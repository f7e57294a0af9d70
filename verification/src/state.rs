//! Per-view cursor and selection state.

use crate::anchor::{AnchorBias, TextEdit};
use crate::selection::{
    sel_end, sel_fresh, sel_start, sels_separated, sorted_and_merged, Selection, SelectionCollection,
    SelectionMode, sels_edits_fit, sel_after_edits,
};
use crate::text::TextContent;
use vstd::prelude::*;

verus! {

/// Primary cursor position and blink-tracking state.
///
/// `cursor_pos` mirrors the primary selection's head; handlers mutate it
/// during a keystroke and push it into the selections afterwards.
#[derive(Clone, Copy, Debug, PartialEq, Eq, Structural)]
pub struct CursorState {
    pub cursor_pos: usize,
    pub last_cursor_pos: usize,
    pub last_cursor_pos_for_blink: usize,
}

impl Default for CursorState {
    fn default() -> (r: Self)
        ensures
            r == (CursorState { cursor_pos: 0, last_cursor_pos: 0, last_cursor_pos_for_blink: 0 }),
    {
        CursorState { cursor_pos: 0, last_cursor_pos: 0, last_cursor_pos_for_blink: 0 }
    }
}

/// Multi-cursor selection state: a [`SelectionCollection`] with a primary.
pub struct SelectionState {
    pub selections: SelectionCollection,
}

impl Default for SelectionState {
    fn default() -> (r: Self)
        ensures
            r.selections@.selections.len() == 1,
            sel_fresh(r.selections@.selections[0], 0, AnchorBias::Left, 0, AnchorBias::Left, SelectionMode::Simple),
            r.selections@.pending_edits == Seq::<TextEdit>::empty(),
            r.selections@.version == 0,
    {
        SelectionState { selections: SelectionCollection::new() }
    }
}

impl SelectionState {
    /// Replace every selection by one cursor at `cursor.cursor_pos`.
    pub fn apply_primary_cursor(&mut self, cursor: &CursorState)
        requires
            old(self).selections@.version < u64::MAX,
        ensures
            final(self).selections@.selections.len() == 1,
            sel_fresh(
                final(self).selections@.selections[0],
                cursor.cursor_pos as int,
                AnchorBias::Left,
                cursor.cursor_pos as int,
                AnchorBias::Left,
                SelectionMode::Simple,
            ),
            final(self).selections@.pending_edits == old(self).selections@.pending_edits,
            final(self).selections@.version == old(self).selections@.version + 1,
    {
        self.selections.set_cursor(cursor.cursor_pos);
    }

    /// Replace every selection by one from an anchor to `cursor.cursor_pos`:
    /// the primary's anchor when it selects text, else `default_anchor`.
    pub fn apply_primary_with_anchor(&mut self, cursor: &CursorState, default_anchor: usize)
        requires
            old(self).selections@.selections.len() >= 1,
            old(self).selections@.version < u64::MAX,
        ensures
            final(self).selections@.selections.len() == 1,
            sel_fresh(
                final(self).selections@.selections[0],
                cursor.cursor_pos as int,
                AnchorBias::Left,
                if old(self).selections@.selections[0].head.offset
                    != old(self).selections@.selections[0].anchor.offset {
                    old(self).selections@.selections[0].anchor.offset as int
                } else {
                    default_anchor as int
                },
                AnchorBias::Right,
                SelectionMode::Simple,
            ),
            final(self).selections@.pending_edits == old(self).selections@.pending_edits,
            final(self).selections@.version == old(self).selections@.version + 1,
    {
        let anchor = if self.selections.primary().has_selection() {
            self.selections.primary().anchor_offset()
        } else {
            default_anchor
        };
        self.selections.set_selection(cursor.cursor_pos, anchor);
    }

    /// Copy the primary head into `cursor.cursor_pos`.
    pub fn refresh_primary_cursor(&self, cursor: &mut CursorState)
        requires
            self.selections@.selections.len() >= 1,
        ensures
            *final(cursor) == (CursorState {
                cursor_pos: self.selections@.selections[0].head.offset,
                ..*old(cursor)
            }),
    {
        cursor.cursor_pos = self.selections.primary().head_offset();
    }

    /// Add a cursor at `position`, clamped to the content length.
    pub fn add_cursor_at<T: TextContent>(&mut self, content: &T, position: usize)
        requires
            old(self).selections@.selections.len() >= 1,
            old(self).selections@.version < u64::MAX,
        ensures
            exists|c: Selection|
                sel_fresh(
                    c,
                    if position < content.text_chars().len() { position as int } else { content.text_chars().len() as int },
                    AnchorBias::Left,
                    if position < content.text_chars().len() { position as int } else { content.text_chars().len() as int },
                    AnchorBias::Left,
                    SelectionMode::Simple,
                ) && sorted_and_merged(
                    final(self).selections@.selections,
                    old(self).selections@.selections.push(c),
                ),
            sels_separated(final(self).selections@.selections),
            final(self).selections@.pending_edits == old(self).selections@.pending_edits,
            final(self).selections@.version == old(self).selections@.version + 1,
    {
        let max = content.char_count();
        let position = if position < max { position } else { max };
        self.selections.add_cursor(position);
    }

    /// Add a selection from `anchor` to `head`, both clamped to the content length.
    pub fn add_cursor_with_range<T: TextContent>(&mut self, content: &T, head: usize, anchor: usize)
        requires
            old(self).selections@.selections.len() >= 1,
            old(self).selections@.version < u64::MAX,
        ensures
            exists|c: Selection|
                sel_fresh(
                    c,
                    if head < content.text_chars().len() { head as int } else { content.text_chars().len() as int },
                    AnchorBias::Left,
                    if anchor < content.text_chars().len() { anchor as int } else { content.text_chars().len() as int },
                    AnchorBias::Right,
                    SelectionMode::Simple,
                ) && sorted_and_merged(
                    final(self).selections@.selections,
                    old(self).selections@.selections.push(c),
                ),
            sels_separated(final(self).selections@.selections),
            final(self).selections@.pending_edits == old(self).selections@.pending_edits,
            final(self).selections@.version == old(self).selections@.version + 1,
    {
        let max = content.char_count();
        let head = if head < max { head } else { max };
        let anchor = if anchor < max { anchor } else { max };
        self.selections.add_selection_range(head, anchor);
    }

    /// Keep only the primary selection, then refresh `cursor.cursor_pos`.
    pub fn clear_secondary_cursors(&mut self, cursor: &mut CursorState)
        requires
            old(self).selections@.selections.len() >= 1,
            old(self).selections@.selections.len() > 1 ==> old(self).selections@.version < u64::MAX,
        ensures
            final(self).selections@.selections == old(self).selections@.selections.take(1),
            final(self).selections@.pending_edits == old(self).selections@.pending_edits,
            final(self).selections@.version == if old(self).selections@.selections.len() > 1 {
                old(self).selections@.version + 1
            } else {
                old(self).selections@.version as int
            },
            *final(cursor) == (CursorState {
                cursor_pos: old(self).selections@.selections[0].head.offset,
                ..*old(cursor)
            }),
    {
        self.selections.clear_secondary();
        proof {
            if old(self).selections@.selections.len() <= 1 {
                assert(old(self).selections@.selections =~= old(self).selections@.selections.take(1));
            }
        }
        self.refresh_primary_cursor(cursor);
    }

    /// True when more than one selection is active.
    pub fn has_multiple_cursors(&self) -> (r: bool)
        ensures
            r == (self.selections@.selections.len() > 1),
    {
        self.selections.is_multiple()
    }

    /// Number of active selections.
    pub fn cursor_count(&self) -> (r: usize)
        ensures
            r == self.selections@.selections.len(),
    {
        self.selections.len()
    }

    /// Apply the pending edits to the selections.
    pub fn apply_selection_edits(&mut self)
        requires
            old(self).selections@.selections.len() >= 1,
            sels_edits_fit(old(self).selections@.selections, old(self).selections@.pending_edits),
        ensures
            old(self).selections@.pending_edits.len() == 0 ==> final(self).selections@ == old(self).selections@,
            old(self).selections@.pending_edits.len() > 0 ==> {
                &&& sorted_and_merged(
                    final(self).selections@.selections,
                    old(self).selections@.selections.map_values(
                        |s: Selection| sel_after_edits(s, old(self).selections@.pending_edits),
                    ),
                )
                &&& final(self).selections@.pending_edits == Seq::<TextEdit>::empty()
                &&& final(self).selections@.version == old(self).selections@.version
            },
            final(self).selections@.selections.len() >= 1,
    {
        self.selections.apply_pending_edits();
    }

    /// The primary selection.
    pub fn primary_selection(&self) -> (r: &Selection)
        requires
            self.selections@.selections.len() >= 1,
        ensures
            *r == self.selections@.selections[0],
    {
        self.selections.primary()
    }

    /// The `(start, end)` range of every selection.
    pub fn selection_ranges(&self) -> (r: Vec<(usize, usize)>)
        ensures
            r@.len() == self.selections@.selections.len(),
            forall|i: int|
                0 <= i < r@.len() ==> #[trigger] r@[i] == (
                    sel_start(self.selections@.selections[i]) as usize,
                    sel_end(self.selections@.selections[i]) as usize,
                ),
    {
        self.selections.ranges()
    }

    /// The primary selection's range when it selects text.
    pub fn primary_range(&self) -> (r: Option<(usize, usize)>)
        requires
            self.selections@.selections.len() >= 1,
        ensures
            r == (if self.selections@.selections[0].head.offset
                != self.selections@.selections[0].anchor.offset {
                Some(
                    (
                        sel_start(self.selections@.selections[0]) as usize,
                        sel_end(self.selections@.selections[0]) as usize,
                    ),
                )
            } else {
                None
            }),
    {
        let primary = self.selections.primary();
        if primary.has_selection() {
            Some(primary.range())
        } else {
            None
        }
    }
}

} // verus!
