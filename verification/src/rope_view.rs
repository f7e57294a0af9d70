//! Pointer positions and copied text over a rope-backed text view.
//!
//! The rope itself is ropey's `Rope`; what this module reads of it goes
//! through the wrappers below, whose contracts speak of [`rope_chars`], the
//! characters the rope holds.

use crate::text::{lemma_line_start_mono, line_count_of, line_start, line_text};
use ropey::Rope;
use vstd::prelude::*;

verus! {

#[verifier::external_type_specification]
#[verifier::external_body]
pub struct ExRope(Rope);

/// The characters held by a rope, in order.
pub uninterp spec fn rope_chars(r: Rope) -> Seq<char>;

/// Number of bytes `c` takes in UTF-8.
pub open spec fn utf8_width(c: char) -> nat {
    let v = c as u32;
    if v < 0x80 {
        1
    } else if v < 0x800 {
        2
    } else if v < 0x10000 {
        3
    } else {
        4
    }
}

/// Number of bytes `c` takes in UTF-8.
pub(crate) fn utf8_width_of(c: char) -> (n: usize)
    ensures
        n == utf8_width(c),
{
    let v = c as u32;
    if v < 0x80 {
        1
    } else if v < 0x800 {
        2
    } else if v < 0x10000 {
        3
    } else {
        4
    }
}

/// Number of bytes `s` takes in UTF-8.
pub open spec fn utf8_len(s: Seq<char>) -> nat
    decreases s.len(),
{
    if s.len() == 0 {
        0
    } else {
        utf8_len(s.drop_last()) + utf8_width(s.last())
    }
}

/// Index of the character of `s` whose UTF-8 encoding holds byte `b`;
/// `s.len()` for the byte one past the end.
pub open spec fn char_of_byte(s: Seq<char>, b: int) -> nat
    decreases s.len(),
{
    if s.len() == 0 || b < utf8_width(s[0]) {
        0
    } else {
        1 + char_of_byte(s.subrange(1, s.len() as int), b - utf8_width(s[0]))
    }
}

/// Calls `Rope::len_chars`, the number of characters in the rope.
#[verifier::external_body]
fn rope_len_chars(rope: &Rope) -> (n: usize)
    ensures
        n == rope_chars(*rope).len(),
{
    rope.len_chars()
}

/// Calls `Rope::len_lines`, one more than the number of line breaks. Built
/// without ropey's `cr_lines` and `unicode_lines` features, ropey breaks
/// lines at `'\n'` alone.
#[verifier::external_body]
fn rope_len_lines(rope: &Rope) -> (n: usize)
    ensures
        n == line_count_of(rope_chars(*rope)),
{
    rope.len_lines()
}

/// Calls `Rope::line_to_char`: the character index where line `line`
/// starts, the rope's length for the line one past the last. It panics on
/// a later line.
#[verifier::external_body]
fn rope_line_to_char(rope: &Rope, line: usize) -> (n: usize)
    requires
        line <= line_count_of(rope_chars(*rope)),
    ensures
        n == line_start(rope_chars(*rope), line as nat),
{
    rope.line_to_char(line)
}

/// Calls `Rope::slice` on the characters `start..end` and turns the slice
/// into a `String` through its `Display`, which writes the slice's chunks
/// in order. `Rope::slice` panics on a reversed or out-of-bounds range.
#[verifier::external_body]
fn rope_slice_text(rope: &Rope, start: usize, end: usize) -> (s: String)
    requires
        start <= end <= rope_chars(*rope).len(),
    ensures
        s@ == rope_chars(*rope).subrange(start as int, end as int),
{
    rope.slice(start..end).to_string()
}

/// Calls `Rope::len_bytes`, the length of the rope's text in UTF-8.
#[verifier::external_body]
fn rope_len_bytes(rope: &Rope) -> (n: usize)
    ensures
        n == utf8_len(rope_chars(*rope)),
{
    rope.len_bytes()
}

/// Calls `Rope::line_to_byte`: the byte index where line `line` starts, the
/// byte length for the line one past the last. It panics on a later line.
#[verifier::external_body]
fn rope_line_to_byte(rope: &Rope, line: usize) -> (n: usize)
    requires
        line <= line_count_of(rope_chars(*rope)),
    ensures
        n == utf8_len(rope_chars(*rope).take(line_start(rope_chars(*rope), line as nat))),
{
    rope.line_to_byte(line)
}

/// Calls `Rope::byte_to_char`: the index of the character that holds byte
/// `byte`, the character count for the byte one past the end. It panics on a
/// later byte.
#[verifier::external_body]
fn rope_byte_to_char(rope: &Rope, byte: usize) -> (n: usize)
    requires
        byte <= utf8_len(rope_chars(*rope)),
    ensures
        n == char_of_byte(rope_chars(*rope), byte as int),
{
    rope.byte_to_char(byte)
}

/// A prefix never takes more bytes than the whole sequence.
pub proof fn lemma_utf8_len_prefix(s: Seq<char>, k: int)
    requires
        0 <= k <= s.len(),
    ensures
        utf8_len(s.take(k)) <= utf8_len(s),
    decreases s.len(),
{
    if k < s.len() {
        lemma_utf8_len_prefix(s.drop_last(), k);
        assert(s.drop_last().take(k) =~= s.take(k));
    } else {
        assert(s.take(k) =~= s);
    }
}


/// Where a shaped display row was hit: the buffer line the row shows, the
/// byte offset at which the row starts within that line, and the byte within
/// the row under the pointer.
#[derive(Clone, Copy, Debug, PartialEq, Eq)]
pub struct RowHit {
    pub buffer_line: usize,
    pub buffer_byte_offset: usize,
    pub byte_in_row: usize,
}

/// The byte where the hit's buffer line starts in `t`, the line taken at
/// most one past the last.
pub open spec fn hit_line_start_byte(t: Seq<char>, h: RowHit) -> int {
    let line = if h.buffer_line < line_count_of(t) { h.buffer_line as nat } else { line_count_of(t) };
    utf8_len(t.take(line_start(t, line))) as int
}

/// The character position under the pointer in text `t`, for display row
/// `display_row` and character column `col`, with the shaped-row hit when
/// the layout had one:
/// - past the last line, the end of the text;
/// - with a hit, the character holding the hit byte (row start within the
///   buffer line, plus the byte in the row), clamped to the text;
/// - otherwise the column, clamped to the line's length less one, from the
///   line's start.
pub open spec fn char_pos_under(t: Seq<char>, display_row: int, col: int, hit: Option<RowHit>) -> int {
    if display_row >= line_count_of(t) {
        t.len() as int
    } else {
        match hit {
            Some(h) => {
                let line = if h.buffer_line < line_count_of(t) { h.buffer_line as nat } else { line_count_of(t) };
                let sum = utf8_len(t.take(line_start(t, line))) + h.buffer_byte_offset + h.byte_in_row;
                let abs = if sum < utf8_len(t) { sum } else { utf8_len(t) as int };
                char_of_byte(t, abs) as int
            },
            None => {
                let len = line_text(t, display_row as nat).len() as int;
                let last = if len > 0 { len - 1 } else { 0 };
                line_start(t, display_row as nat) + if col < last { col } else { last }
            },
        }
    }
}

/// Pointer positions in a rope with a shaped-row hit on line `L`: where the
/// row's start in the line plus the byte in the row falls where character
/// `k` of the line starts, the position is `L`'s start plus `k`.
pub proof fn lemma_rope_hit_lands_on_its_byte(t: Seq<char>, display_row: int, col: int, h: RowHit, k: int)
    requires
        0 <= display_row < line_count_of(t),
        h.buffer_line < line_count_of(t),
        0 <= k <= line_text(t, h.buffer_line as nat).len(),
        utf8_len(line_text(t, h.buffer_line as nat).take(k)) == h.buffer_byte_offset + h.byte_in_row,
    ensures
        char_pos_under(t, display_row, col, Some(h)) == line_start(t, h.buffer_line as nat) + k,
{
    let l = h.buffer_line as nat;
    let ls = line_start(t, l);
    let lt = line_text(t, l);
    lemma_line_start_mono(t, l);
    assert(t.take(ls + k) =~= t.take(ls) + lt.take(k));
    lemma_utf8_len_concat(t.take(ls), lt.take(k));
    lemma_utf8_len_prefix(t, ls + k);
    lemma_char_of_byte_at_boundary(t, ls + k);
}

/// The character position under the pointer in `rope`, from the display row
/// and character column the pointer falls on and, when the layout shaped the
/// row, the byte it hit there.
pub fn char_pos_at(rope: &Rope, display_row: usize, col: usize, hit: Option<RowHit>) -> (r: usize)
    requires
        display_row < line_count_of(rope_chars(*rope)) ==> (hit matches Some(h) ==> hit_line_start_byte(
            rope_chars(*rope),
            h,
        ) + h.buffer_byte_offset + h.byte_in_row <= usize::MAX),
    ensures
        r == char_pos_under(rope_chars(*rope), display_row as int, col as int, hit),
{
    let ghost t = rope_chars(*rope);
    let line_count = rope_len_lines(rope);
    let total_chars = rope_len_chars(rope);
    if display_row >= line_count {
        return total_chars;
    }
    let line_start_char = rope_line_to_char(rope, display_row);
    match hit {
        Some(h) => {
            let buffer_line = if h.buffer_line < line_count { h.buffer_line } else { line_count };
            let line_start_byte = rope_line_to_byte(rope, buffer_line);
            let len_bytes = rope_len_bytes(rope);
            proof {
                crate::text::lemma_first_pos_props_pub(t, buffer_line as nat, 0);
                lemma_utf8_len_prefix(t, line_start(t, buffer_line as nat));
            }
            let sum = line_start_byte + h.buffer_byte_offset + h.byte_in_row;
            let abs_byte = if sum < len_bytes { sum } else { len_bytes };
            rope_byte_to_char(rope, abs_byte)
        },
        None => {
            let next_line_start = rope_line_to_char(rope, display_row + 1);
            proof {
                lemma_line_start_mono(t, display_row as nat);
            }
            let line_len = next_line_start - line_start_char;
            let last = if line_len > 0 { line_len - 1 } else { 0 };
            let char_in_line = if col < last { col } else { last };
            line_start_char + char_in_line
        },
    }
}

/// The byte position a row hit reaches in `t` does not fit in `usize`:
/// only then does [`char_pos_at`] have no answer.
pub open spec fn hit_overflows(t: Seq<char>, display_row: int, hit: Option<RowHit>) -> bool {
    display_row < line_count_of(t) && (hit matches Some(h) && hit_line_start_byte(t, h)
        + h.buffer_byte_offset + h.byte_in_row > usize::MAX)
}

/// [`char_pos_at`] where the hit's byte position fits in `usize`; `None`
/// where it does not.
pub fn checked_char_pos_at(rope: &Rope, display_row: usize, col: usize, hit: Option<RowHit>) -> (r:
    Option<usize>)
    ensures
        r is None <==> hit_overflows(rope_chars(*rope), display_row as int, hit),
        r matches Some(p) ==> p == char_pos_under(rope_chars(*rope), display_row as int, col as int, hit),
{
    let line_count = rope_len_lines(rope);
    if display_row < line_count {
        if let Some(h) = hit {
            let buffer_line = if h.buffer_line < line_count { h.buffer_line } else { line_count };
            let start = rope_line_to_byte(rope, buffer_line);
            if h.buffer_byte_offset > usize::MAX - start {
                return None;
            }
            if h.byte_in_row > usize::MAX - start - h.buffer_byte_offset {
                return None;
            }
        }
    }
    Some(char_pos_at(rope, display_row, col, hit))
}

/// Selection endpoints of a text view, as character positions: where the
/// selection was started and where it was last extended to.
#[derive(Clone, Copy, Debug, PartialEq, Eq)]
pub struct TextViewSelectionState {
    pub selection_start: Option<usize>,
    pub selection_end: Option<usize>,
}

impl Default for TextViewSelectionState {
    fn default() -> (r: Self)
        ensures
            r.selection_start is None,
            r.selection_end is None,
    {
        TextViewSelectionState { selection_start: None, selection_end: None }
    }
}

/// The text a copy of the selection takes from `t`: with both endpoints
/// set, the characters between them in either order, each end clamped to
/// the text; nothing when an endpoint is missing or the range is empty.
pub open spec fn copied_text(sel: TextViewSelectionState, t: Seq<char>) -> Option<Seq<char>> {
    match (sel.selection_start, sel.selection_end) {
        (Some(s), Some(e)) => {
            let lo = if s < e { s as int } else { e as int };
            let hi = if s < e { e as int } else { s as int };
            let a = if lo < t.len() { lo } else { t.len() as int };
            let b = if hi < t.len() { hi } else { t.len() as int };
            if a == b { None } else { Some(t.subrange(a, b)) }
        },
        _ => None,
    }
}

/// Copying a view's selection does not depend on which endpoint came
/// first; what it copies is exactly the text between the endpoints, each
/// clamped to the text, and nothing is copied only when that is empty or an
/// endpoint is missing.
pub proof fn lemma_copied_text_between_endpoints(a: usize, b: usize, t: Seq<char>)
    ensures
        copied_text(TextViewSelectionState { selection_start: Some(a), selection_end: Some(b) }, t)
            == copied_text(TextViewSelectionState { selection_start: Some(b), selection_end: Some(a) }, t),
        ({
            let ca = if a < t.len() { a as int } else { t.len() as int };
            let cb = if b < t.len() { b as int } else { t.len() as int };
            &&& ca < cb ==> copied_text(
                TextViewSelectionState { selection_start: Some(a), selection_end: Some(b) },
                t,
            ) == Some(t.subrange(ca, cb))
            &&& ca == cb ==> copied_text(
                TextViewSelectionState { selection_start: Some(a), selection_end: Some(b) },
                t,
            ) is None
        }),
        copied_text(TextViewSelectionState { selection_start: None, selection_end: Some(b) }, t) is None,
        copied_text(TextViewSelectionState { selection_start: Some(a), selection_end: None }, t) is None,
{
}

/// The text that copying the selection puts on the clipboard, or `None`
/// when there is nothing to copy.
pub fn copy_selection_text(sel: &TextViewSelectionState, rope: &Rope) -> (r: Option<String>)
    ensures
        r is Some <==> copied_text(*sel, rope_chars(*rope)) is Some,
        r matches Some(s) ==> s@ == copied_text(*sel, rope_chars(*rope))->0,
{
    match (sel.selection_start, sel.selection_end) {
        (Some(s), Some(e)) => {
            let (lo, hi) = if s < e { (s, e) } else { (e, s) };
            let len = rope_len_chars(rope);
            let a = if lo < len { lo } else { len };
            let b = if hi < len { hi } else { len };
            if a == b {
                None
            } else {
                Some(rope_slice_text(rope, a, b))
            }
        },
        _ => None,
    }
}


/// The UTF-8 length of a concatenation is the sum of the parts' lengths.
pub proof fn lemma_utf8_len_concat(a: Seq<char>, b: Seq<char>)
    ensures
        utf8_len(a + b) == utf8_len(a) + utf8_len(b),
    decreases b.len(),
{
    if b.len() > 0 {
        lemma_utf8_len_concat(a, b.drop_last());
        assert((a + b).drop_last() =~= a + b.drop_last());
    } else {
        assert(a + b =~= a);
    }
}

/// At the byte where the first `k` characters end, [`char_of_byte`] gives `k`.
pub proof fn lemma_char_of_byte_at_boundary(s: Seq<char>, k: int)
    requires
        0 <= k <= s.len(),
    ensures
        char_of_byte(s, utf8_len(s.take(k)) as int) == k,
    decreases k,
{
    if k > 0 {
        let rest = s.subrange(1, s.len() as int);
        lemma_char_of_byte_at_boundary(rest, k - 1);
        assert(s.take(k) =~= seq![s[0]] + rest.take(k - 1));
        lemma_utf8_len_concat(seq![s[0]], rest.take(k - 1));
        let one: Seq<char> = seq![s[0]];
        assert(one.drop_last() =~= Seq::<char>::empty());
        assert(one.last() == s[0]);
        assert(utf8_len(one.drop_last()) == 0);
        assert(utf8_len(one) == utf8_width(s[0]));
    } else {
        assert(s.take(0) =~= Seq::<char>::empty());
    }
}

} // verus!
