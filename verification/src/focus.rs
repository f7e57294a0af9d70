//! The decisions behind pointer and keyboard interaction with a text view:
//! what a copy puts on the clipboard, and how presses and drags change the
//! selection.

use crate::anchor::AnchorBias;
use crate::expand::{expanded_to_lines, expanded_to_words, DEFAULT_SEMANTIC_ESCAPE_CHARS};
use crate::selection::{sel_end, sel_fresh, sel_start, Selection, SelectionMode};
use crate::state::SelectionState;
use crate::text::{
    chars_of, clamped_slice, line_body, line_body_of, line_of_char, line_start, newlines_before, push_char,
    lemma_line_start_mono, TextContent,
};
use crate::rope_view::{
    char_of_byte, lemma_char_of_byte_at_boundary, lemma_utf8_len_concat, utf8_len, utf8_width, RowHit,
};
use crate::text::{line_count_of, line_text};
use vstd::prelude::*;

verus! {

/// Columns `lo..hi` of line `line` (its newline excluded), clamped to the line.
pub open spec fn block_row(t: Seq<char>, line: nat, lo: int, hi: int) -> Seq<char> {
    let body = line_body(t, line);
    let l = if lo < body.len() { lo } else { body.len() as int };
    let h = if hi < body.len() { hi } else { body.len() as int };
    if l < h { body.subrange(l, h) } else { Seq::empty() }
}

/// Rows `first..k` of a block selection ending at line `last`, each followed
/// by `'\n'` except the row of `last`.
pub open spec fn block_rows(t: Seq<char>, lo: int, hi: int, first: nat, last: nat, k: nat) -> Seq<char>
    decreases k - first,
{
    if k <= first {
        Seq::empty()
    } else {
        let prev = block_rows(t, lo, hi, first, last, (k - 1) as nat);
        let row = block_row(t, (k - 1) as nat, lo, hi);
        if k - 1 != last { prev + row + seq!['\n'] } else { prev + row }
    }
}

/// The rectangular text between offsets `start` and `end`: the column range
/// spanned by the two endpoints, on every line from the first to the last,
/// joined by `'\n'`.
pub open spec fn block_text(t: Seq<char>, start: int, end: int) -> Seq<char> {
    if start >= end {
        Seq::empty()
    } else {
        let start_line = line_of_char(t, start);
        let end_line = line_of_char(t, end);
        let start_col = start - line_start(t, start_line);
        let end_col = end - line_start(t, end_line);
        let lo = if start_col <= end_col { start_col } else { end_col };
        let hi = if start_col <= end_col { end_col } else { start_col };
        if lo == hi {
            Seq::empty()
        } else {
            block_rows(t, lo, hi, start_line, end_line, end_line + 1)
        }
    }
}

/// What copying selection `s` of text `t` yields: the clamped range's text
/// (rectangular for block selections), or nothing when that is empty.
pub open spec fn selection_copy_text(s: Selection, t: Seq<char>) -> Option<Seq<char>> {
    if s.head.offset == s.anchor.offset {
        None
    } else {
        let start = if sel_start(s) < t.len() { sel_start(s) } else { t.len() as int };
        let end = if sel_end(s) < t.len() { sel_end(s) } else { t.len() as int };
        if start == end {
            None
        } else {
            let text = if s.mode == SelectionMode::Block {
                block_text(t, start, end)
            } else {
                clamped_slice(t, start, end)
            };
            if text.len() == 0 { None } else { Some(text) }
        }
    }
}

proof fn lemma_line_start_of_char_le(t: Seq<char>, ch: int)
    requires
        0 <= ch <= t.len(),
    ensures
        line_start(t, line_of_char(t, ch)) <= ch,
        line_of_char(t, ch) <= newlines_before(t, t.len() as int),
{
    let l = line_of_char(t, ch);
    crate::text::lemma_first_pos_props_pub(t, l, 0);
    crate::text::lemma_line_of_char_lt_count(t, ch);
}

proof fn lemma_block_rows_prefix(t: Seq<char>, lo: int, hi: int, first: nat, last: nat, k1: nat, k2: nat)
    requires
        first <= k1 <= k2,
    ensures
        block_rows(t, lo, hi, first, last, k1).len() <= block_rows(t, lo, hi, first, last, k2).len(),
        block_rows(t, lo, hi, first, last, k2).take(block_rows(t, lo, hi, first, last, k1).len() as int)
            == block_rows(t, lo, hi, first, last, k1),
    decreases k2 - k1,
{
    let r1 = block_rows(t, lo, hi, first, last, k1);
    if k1 < k2 {
        lemma_block_rows_prefix(t, lo, hi, first, last, k1, (k2 - 1) as nat);
        let prev = block_rows(t, lo, hi, first, last, (k2 - 1) as nat);
        let row = block_row(t, (k2 - 1) as nat, lo, hi);
        if k2 - 1 != last {
            assert((prev + row + seq!['\n']).take(r1.len() as int) =~= prev.take(r1.len() as int));
        } else {
            assert((prev + row).take(r1.len() as int) =~= prev.take(r1.len() as int));
        }
    } else {
        assert(r1.take(r1.len() as int) =~= r1);
    }
}

/// Copying a block selection takes, from each line it spans, the columns
/// between the smaller and the larger of its two endpoint columns, whichever
/// endpoint has which: the copy starts with those columns of the first line
/// and ends with those of the last, each clamped to its line, and it is not
/// empty when the columns differ and some spanned line reaches past the
/// smaller one.
pub proof fn lemma_block_copy_spans_both_columns(s: Selection, t: Seq<char>)
    requires
        s.mode == SelectionMode::Block,
        sel_start(s) < sel_end(s) <= t.len(),
    ensures
        ({
            let la = line_of_char(t, sel_start(s));
            let lb = line_of_char(t, sel_end(s));
            let c1 = sel_start(s) - line_start(t, la);
            let c2 = sel_end(s) - line_start(t, lb);
            let lo = if c1 < c2 { c1 } else { c2 };
            let hi = if c1 < c2 { c2 } else { c1 };
            let body = line_body(t, la);
            let row = body.subrange(
                if lo < body.len() { lo } else { body.len() as int },
                if hi < body.len() { hi } else { body.len() as int },
            );
            let body_b = line_body(t, lb);
            let row_b = body_b.subrange(
                if lo < body_b.len() { lo } else { body_b.len() as int },
                if hi < body_b.len() { hi } else { body_b.len() as int },
            );
            c1 != c2 && (exists|l: nat| la <= l <= lb && #[trigger] line_body(t, l).len() > lo) ==> (
            selection_copy_text(s, t) matches Some(x) && x.take(row.len() as int) == row
                && x.skip(x.len() - row_b.len()) == row_b)
        }),
{
    let a = sel_start(s);
    let b = sel_end(s);
    let la = line_of_char(t, a);
    let lb = line_of_char(t, b);
    let c1 = a - line_start(t, la);
    let c2 = b - line_start(t, lb);
    let lo = if c1 < c2 { c1 } else { c2 };
    let hi = if c1 < c2 { c2 } else { c1 };
    let body = line_body(t, la);
    let row = body.subrange(
        if lo < body.len() { lo } else { body.len() as int },
        if hi < body.len() { hi } else { body.len() as int },
    );
    lemma_line_start_of_char_le(t, a);
    lemma_line_start_of_char_le(t, b);
    if c1 != c2 && (exists|l: nat| la <= l <= lb && #[trigger] line_body(t, l).len() > lo) {
        let l = choose|l: nat| la <= l <= lb && #[trigger] line_body(t, l).len() > lo;
        crate::text::lemma_newlines_before_mono_pub(t, a, b);
        crate::text::lemma_newlines_before_mono_pub(t, b, t.len() as int);
        assert(la <= lb);
        assert(s.head.offset != s.anchor.offset);
        let text = block_text(t, a, b);
        assert(text == block_rows(t, lo, hi, la, lb, lb + 1));
        assert(block_row(t, la, lo, hi) == row);
        let r1 = block_rows(t, lo, hi, la, lb, la + 1);
        assert(block_rows(t, lo, hi, la, lb, la) == Seq::<char>::empty());
        if la != lb {
            assert(r1 =~= row + seq!['\n']);
        } else {
            assert(r1 =~= row);
        }
        lemma_block_rows_prefix(t, lo, hi, la, lb, la + 1, lb + 1);
        assert(text.take(row.len() as int) =~= r1.take(row.len() as int));
        assert(text.take(row.len() as int) =~= row);
        let rl = block_rows(t, lo, hi, la, lb, l + 1);
        let rowl = block_row(t, l, lo, hi);
        assert(rowl.len() > 0);
        assert(rl.len() >= rowl.len()) by {
            let prev = block_rows(t, lo, hi, la, lb, l);
            if l != lb {
                assert(rl == prev + rowl + seq!['\n']);
            } else {
                assert(rl == prev + rowl);
            }
        }
        lemma_block_rows_prefix(t, lo, hi, la, lb, l + 1, lb + 1);
        assert(text.len() > 0);
        let body_b = line_body(t, lb);
        let row_b = body_b.subrange(
            if lo < body_b.len() { lo } else { body_b.len() as int },
            if hi < body_b.len() { hi } else { body_b.len() as int },
        );
        assert(block_row(t, lb, lo, hi) == row_b);
        assert(text == block_rows(t, lo, hi, la, lb, lb) + row_b);
        assert(text.skip(text.len() - row_b.len()) =~= row_b);
    }
}

/// The rectangular slice between `start` and `end`, one row per line, joined with `'\n'`.
fn block_slice<T: TextContent>(content: &T, start: usize, end: usize) -> (r: String)
    requires
        start < end <= content.text_chars().len(),
        content.text_chars().len() < usize::MAX,
    ensures
        r@ == block_text(content.text_chars(), start as int, end as int),
{
    let ghost t = content.text_chars();
    let start_line = content.char_to_line(start);
    let end_line = content.char_to_line(end);
    proof {
        lemma_line_start_of_char_le(t, start as int);
        lemma_line_start_of_char_le(t, end as int);
    }
    let start_col = start - content.line_to_char(start_line);
    let end_col = end - content.line_to_char(end_line);
    let (col_lo, col_hi) = if start_col <= end_col { (start_col, end_col) } else { (end_col, start_col) };
    if col_lo == col_hi {
        return String::new();
    }
    let mut out = String::new();
    let mut line_idx = start_line;
    proof {
        crate::text::lemma_newlines_before_mono_pub(t, start as int, end as int);
        crate::text::lemma_newlines_before_mono_pub(t, end as int, t.len() as int);
        crate::text::lemma_newlines_before_mono_pub(t, 0, t.len() as int);
    }
    while line_idx <= end_line
        invariant
            t == content.text_chars(),
            t.len() < usize::MAX,
            start_line <= end_line + 1,
            start_line <= line_idx <= end_line + 1,
            end_line <= t.len(),
            out@ == block_rows(t, col_lo as int, col_hi as int, start_line as nat, end_line as nat, line_idx as nat),
        decreases end_line + 1 - line_idx,
    {
        let line = line_body_of(content, line_idx);
        let line_len = line.len();
        let lo = if col_lo < line_len { col_lo } else { line_len };
        let hi = if col_hi < line_len { col_hi } else { line_len };
        let ghost prev = out@;
        if lo < hi {
            let mut k = lo;
            while k < hi
                invariant
                    lo <= k <= hi,
                    hi <= line@.len(),
                    out@ == prev + line@.subrange(lo as int, k as int),
                decreases hi - k,
            {
                push_char(&mut out, line[k]);
                proof {
                    assert(line@.subrange(lo as int, k + 1) =~= line@.subrange(lo as int, k as int).push(line@[k as int]));
                    assert(prev + line@.subrange(lo as int, k + 1) =~= (prev + line@.subrange(lo as int, k as int)).push(line@[k as int]));
                }
                k = k + 1;
            }
        }
        proof {
            let row = block_row(t, line_idx as nat, col_lo as int, col_hi as int);
            if lo < hi {
                assert(out@ =~= prev + row);
            } else {
                assert(row =~= Seq::<char>::empty());
                assert(out@ =~= prev + row);
            }
        }
        if line_idx != end_line {
            push_char(&mut out, '\n');
        }
        line_idx = line_idx + 1;
    }
    out
}

/// The primary selection's text in its mode's shape, ready for the
/// clipboard; `None` when there is nothing to copy.
pub fn selection_text<T: TextContent>(sel: &SelectionState, content: &T) -> (r: Option<String>)
    requires
        sel.selections@.selections.len() >= 1,
        content.text_chars().len() < usize::MAX,
    ensures
        match selection_copy_text(sel.selections@.selections[0], content.text_chars()) {
            Some(text) => r matches Some(s) && s@ == text,
            None => r is None,
        },
{
    let range = sel.primary_range();
    let (start, end) = match range {
        Some(r) => r,
        None => return None,
    };
    let mode = sel.selections.primary().mode;
    let len = content.char_count();
    let start = if start < len { start } else { len };
    let end = if end < len { end } else { len };
    if start == end {
        return None;
    }
    let text = match mode {
        SelectionMode::Block => block_slice(content, start, end),
        _ => content.slice_chars(start..end),
    };
    if text_is_empty(&text) {
        None
    } else {
        Some(text)
    }
}

fn text_is_empty(s: &String) -> (r: bool)
    ensures
        r == (s@.len() == 0),
{
    s.as_str().is_empty()
}


/// Click count after a press: one more than before (at most three) when the
/// press repeats the last one closely enough in time and place, else one.
pub fn next_click_count(previous: u8, is_repeat: bool) -> (r: u8)
    requires
        is_repeat ==> previous < u8::MAX,
    ensures
        r == (if is_repeat { if previous + 1 < 3 { previous + 1 } else { 3 } } else { 1 }),
{
    if is_repeat {
        let bumped = previous + 1;
        if bumped < 3 { bumped } else { 3 }
    } else {
        1
    }
}

/// Selection mode a press starts: `Block` with Alt held, else by click
/// count — two clicks select words, three select lines, others are simple.
pub fn press_mode(click_count: u8, alt_held: bool) -> (r: SelectionMode)
    ensures
        r == (if alt_held {
            SelectionMode::Block
        } else if click_count == 2 {
            SelectionMode::Semantic
        } else if click_count == 3 {
            SelectionMode::Line
        } else {
            SelectionMode::Simple
        }),
{
    if alt_held {
        SelectionMode::Block
    } else {
        match click_count {
            2 => SelectionMode::Semantic,
            3 => SelectionMode::Line,
            _ => SelectionMode::Simple,
        }
    }
}

/// The selection a press at `char_pos` leaves as the only one: the word or
/// line around it for word and line modes, else a cursor in `mode`.
pub open spec fn pressed_selection_fits(r: Selection, t: Seq<char>, char_pos: int, mode: SelectionMode) -> bool {
    exists|c: Selection|
        sel_fresh(c, char_pos, AnchorBias::Left, char_pos, AnchorBias::Left, SelectionMode::Simple) && r == (
        if mode == SelectionMode::Semantic {
            expanded_to_words(c, t, DEFAULT_SEMANTIC_ESCAPE_CHARS@)
        } else if mode == SelectionMode::Line {
            expanded_to_lines(c, t)
        } else {
            Selection { mode: mode, ..c }
        })
}

/// The selection a drag from `start` to `char_pos` leaves as the only one.
pub open spec fn dragged_selection_fits(
    r: Selection,
    t: Seq<char>,
    start: int,
    char_pos: int,
    mode: SelectionMode,
) -> bool {
    if start == char_pos && mode == SelectionMode::Simple {
        sel_fresh(r, char_pos, AnchorBias::Left, char_pos, AnchorBias::Left, SelectionMode::Simple)
    } else {
        exists|c: Selection|
            sel_fresh(c, char_pos, AnchorBias::Left, start, AnchorBias::Right, mode) && r == (
            if mode == SelectionMode::Semantic {
                expanded_to_words(c, t, DEFAULT_SEMANTIC_ESCAPE_CHARS@)
            } else if mode == SelectionMode::Line {
                expanded_to_lines(c, t)
            } else {
                c
            })
    }
}

/// Start a selection at `char_pos` for a press in `mode`, dropping every
/// other selection.
pub fn press_selection<T: TextContent>(sel: &mut SelectionState, content: &T, char_pos: usize, mode: SelectionMode)
    requires
        old(sel).selections@.selections.len() >= 1,
        old(sel).selections@.version < u64::MAX,
        content.text_chars().len() < usize::MAX,
    ensures
        final(sel).selections@.selections.len() == 1,
        pressed_selection_fits(final(sel).selections@.selections[0], content.text_chars(), char_pos as int, mode),
        final(sel).selections@.pending_edits == old(sel).selections@.pending_edits,
        final(sel).selections@.version == old(sel).selections@.version + if mode == SelectionMode::Semantic
            || mode == SelectionMode::Line {
            if old(sel).selections@.selections.len() > 1 { 1int } else { 0int }
        } else {
            1int
        },
{
    match mode {
        SelectionMode::Semantic => {
            let mut s = Selection::cursor(char_pos);
            s.expand_semantic(content, DEFAULT_SEMANTIC_ESCAPE_CHARS);
            sel.selections.clear_secondary();
            *sel.selections.primary_mut() = s;
        },
        SelectionMode::Line => {
            let mut s = Selection::cursor(char_pos);
            s.expand_to_lines(content);
            sel.selections.clear_secondary();
            *sel.selections.primary_mut() = s;
        },
        _ => {
            sel.selections.set_cursor(char_pos);
            sel.selections.primary_mut().mode = mode;
        },
    }
}

/// Extend the selection for a drag from `start` to `char_pos` in `mode`,
/// dropping every other selection.
pub fn drag_selection<T: TextContent>(
    sel: &mut SelectionState,
    content: &T,
    start: usize,
    char_pos: usize,
    mode: SelectionMode,
)
    requires
        old(sel).selections@.selections.len() >= 1,
        old(sel).selections@.version < u64::MAX,
        content.text_chars().len() < usize::MAX,
    ensures
        final(sel).selections@.selections.len() == 1,
        dragged_selection_fits(final(sel).selections@.selections[0], content.text_chars(), start as int, char_pos as int, mode),
        final(sel).selections@.pending_edits == old(sel).selections@.pending_edits,
        final(sel).selections@.version == old(sel).selections@.version + if start == char_pos && mode
            == SelectionMode::Simple {
            1int
        } else if old(sel).selections@.selections.len() > 1 {
            1int
        } else {
            0int
        },
{
    if start == char_pos && mode == SelectionMode::Simple {
        sel.selections.set_cursor(char_pos);
    } else {
        let mut s = Selection::with_mode(char_pos, start, mode);
        match mode {
            SelectionMode::Semantic => {
                s.expand_semantic(content, DEFAULT_SEMANTIC_ESCAPE_CHARS);
            },
            SelectionMode::Line => {
                s.expand_to_lines(content);
            },
            _ => {},
        }
        sel.selections.clear_secondary();
        *sel.selections.primary_mut() = s;
    }
}


/// Byte `b` of `s` is where a character of `s` starts, or where `s` ends.
pub open spec fn on_char_boundary(s: Seq<char>, b: int) -> bool {
    exists|k: int| 0 <= k <= s.len() && utf8_len(s.take(k)) == b
}

/// The line whose text a row hit reads: the hit's buffer line, at most the last line.
pub open spec fn hit_line(t: Seq<char>, h: RowHit) -> nat {
    if h.buffer_line < line_count_of(t) - 1 {
        h.buffer_line as nat
    } else {
        (line_count_of(t) - 1) as nat
    }
}

/// The byte of the hit's line under the pointer: the row's start within the
/// line plus the byte in the row, at most the line's length.
pub open spec fn hit_byte(t: Seq<char>, h: RowHit) -> int {
    let len = utf8_len(line_text(t, hit_line(t, h)));
    let b = h.buffer_byte_offset + h.byte_in_row;
    if b < len {
        b
    } else {
        len as int
    }
}

/// The character position under the pointer in text `t`, for display row
/// `display_row` and character column `col`, with the shaped-row hit when
/// the layout had one:
/// - past the last line, the end of the text;
/// - with a hit, the start of the hit's buffer line plus the characters
///   before the hit byte, at most the end of the text;
/// - otherwise the column, clamped to the line's length, from the line's start.
pub open spec fn text_pos_under(t: Seq<char>, display_row: int, col: int, hit: Option<RowHit>) -> int {
    if display_row >= line_count_of(t) {
        t.len() as int
    } else {
        match hit {
            Some(h) => {
                let p = line_start(t, h.buffer_line as nat) + char_of_byte(
                    line_text(t, hit_line(t, h)),
                    hit_byte(t, h),
                );
                if p < t.len() {
                    p
                } else {
                    t.len() as int
                }
            },
            None => {
                let len = line_body(t, display_row as nat).len() as int;
                line_start(t, display_row as nat) + if col < len { col } else { len }
            },
        }
    }
}

proof fn lemma_utf8_len_take_step(s: Seq<char>, k: int)
    requires
        0 <= k < s.len(),
    ensures
        utf8_len(s.take(k + 1)) == utf8_len(s.take(k)) + utf8_width(s[k]),
{
    assert(s.take(k + 1).drop_last() =~= s.take(k));
}

proof fn lemma_utf8_len_take_strict(s: Seq<char>, a: int, b: int)
    requires
        0 <= a < b <= s.len(),
    ensures
        utf8_len(s.take(a)) < utf8_len(s.take(b)),
    decreases b - a,
{
    lemma_utf8_len_take_step(s, b - 1);
    if a < b - 1 {
        lemma_utf8_len_take_strict(s, a, b - 1);
    }
}

/// Pointer positions with a shaped-row hit on line `L` of `t`: where the
/// row's start in the line plus the byte in the row falls where character
/// `k` of the line starts, the position is `L`'s start plus `k`; past the
/// line's last byte it is the line's end; either way at most the end of the
/// text. So moving the row's start `n` bytes further into an ASCII line
/// moves the position `n` characters on.
pub proof fn lemma_hit_lands_on_its_byte(t: Seq<char>, display_row: int, col: int, h: RowHit)
    requires
        0 <= display_row < line_count_of(t),
        h.buffer_line < line_count_of(t),
    ensures
        forall|k: int|
            0 <= k <= line_text(t, h.buffer_line as nat).len() && #[trigger] utf8_len(
                line_text(t, h.buffer_line as nat).take(k),
            ) == h.buffer_byte_offset + h.byte_in_row ==> text_pos_under(t, display_row, col, Some(h)) == if line_start(
                t,
                h.buffer_line as nat,
            ) + k < t.len() {
                line_start(t, h.buffer_line as nat) + k
            } else {
                t.len() as int
            },
        h.buffer_byte_offset + h.byte_in_row >= utf8_len(line_text(t, h.buffer_line as nat)) ==> text_pos_under(
            t,
            display_row,
            col,
            Some(h),
        ) == if line_start(t, h.buffer_line as nat) + line_text(t, h.buffer_line as nat).len() < t.len() {
            line_start(t, h.buffer_line as nat) + line_text(t, h.buffer_line as nat).len()
        } else {
            t.len() as int
        },
{
    let lt = line_text(t, h.buffer_line as nat);
    assert(hit_line(t, h) == h.buffer_line);
    assert forall|k: int|
        0 <= k <= lt.len() && #[trigger] utf8_len(lt.take(k)) == h.buffer_byte_offset + h.byte_in_row implies text_pos_under(
            t,
            display_row,
            col,
            Some(h),
        ) == if line_start(t, h.buffer_line as nat) + k < t.len() {
            line_start(t, h.buffer_line as nat) + k
        } else {
            t.len() as int
        } by {
        crate::rope_view::lemma_utf8_len_prefix(lt, k);
        lemma_char_of_byte_at_boundary(lt, k);
    }
    if h.buffer_byte_offset + h.byte_in_row >= utf8_len(lt) {
        assert(lt.take(lt.len() as int) =~= lt);
        lemma_char_of_byte_at_boundary(lt, lt.len() as int);
    }
}

/// The character position under the pointer in `content`, from the display
/// row and character column the pointer falls on and, when the layout
/// shaped the row, the byte it hit there. The hit byte must fall on a
/// character boundary of its line, where the line's text is cut.
pub fn char_pos_in_text<T: TextContent>(content: &T, display_row: usize, col: usize, hit: Option<RowHit>) -> (r: usize)
    requires
        content.text_chars().len() < usize::MAX,
        display_row < line_count_of(content.text_chars()) ==> (hit matches Some(h) ==> {
            &&& h.buffer_byte_offset + h.byte_in_row <= usize::MAX
            &&& on_char_boundary(line_text(content.text_chars(), hit_line(content.text_chars(), h)), hit_byte(content.text_chars(), h))
        }),
    ensures
        r == text_pos_under(content.text_chars(), display_row as int, col as int, hit),
{
    let ghost t = content.text_chars();
    let count = content.line_count();
    if display_row >= count {
        return content.char_count();
    }
    let line_start_char = content.line_to_char(display_row);
    match hit {
        Some(h) => {
            let bl = if h.buffer_line < count - 1 { h.buffer_line } else { count - 1 };
            let line = content.line(bl);
            let line_chars = chars_of(line.as_str());
            let ghost lt = line_text(t, bl as nat);
            let n = line_chars.len();
            let target = h.buffer_byte_offset + h.byte_in_row;
            let mut k: usize = 0;
            let mut acc: usize = 0;
            let ghost b = hit_byte(t, h);
            let ghost k0 = choose|k0: int| 0 <= k0 <= lt.len() && utf8_len(lt.take(k0)) == b;
            proof {
                assert(lt.take(0) =~= Seq::<char>::empty());
                assert(lt.take(n as int) =~= lt);
            }
            while k < n && acc < target
                invariant
                    line_chars@ == lt,
                    n == lt.len(),
                    k <= k0 <= n,
                    utf8_len(lt.take(k0)) == b,
                    b == (if target < utf8_len(lt) { target as int } else { utf8_len(lt) as int }),
                    lt.take(n as int) == lt,
                    acc == utf8_len(lt.take(k as int)),
                decreases n - k,
            {
                let c = line_chars[k];
                proof {
                    assert(lt[k as int] == c);
                    lemma_utf8_len_take_step(lt, k as int);
                    if k >= k0 {
                        if k > k0 {
                            lemma_utf8_len_take_strict(lt, k0, k as int);
                        }
                        if (k as int) < (n as int) {
                            lemma_utf8_len_take_strict(lt, k as int, n as int);
                        }
                    }
                    assert(k < k0);
                    if k + 1 < k0 {
                        lemma_utf8_len_take_strict(lt, k + 1, k0);
                    }
                }
                let w = crate::rope_view::utf8_width_of(c);
                acc = acc + w;
                k = k + 1;
            }
            proof {
                if k < k0 {
                    if (k as int) < (n as int) {
                        lemma_utf8_len_take_strict(lt, k as int, k0);
                    }
                }
                assert(k == k0);
                lemma_char_of_byte_at_boundary(lt, k as int);
            }
            let base = content.line_to_char(h.buffer_line);
            let p = base.saturating_add(k);
            let total = content.char_count();
            if p < total { p } else { total }
        },
        None => {
            let len = content.line_len_chars(display_row);
            proof {
                lemma_line_start_mono(t, display_row as nat);
                assert(line_body(t, display_row as nat).len() <= line_text(t, display_row as nat).len());
            }
            line_start_char + if col < len { col } else { len }
        },
    }
}

} // verus!
