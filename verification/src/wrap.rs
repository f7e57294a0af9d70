//! Whitespace-aware wrapping of a block's text into rows of a character
//! budget, for layouts that wrap without shaping.
//!
//! A row breaks after the last space or tab seen in it once it holds
//! `budget` characters; with none, right before a following space, tab or
//! newline; a word longer than the budget stays whole. A `'\n'` always ends
//! its row.

use crate::rope_view::utf8_len;
use crate::rope_view::utf8_width;
use crate::rope_view::utf8_width_of;
use crate::text::push_char;
use std::ops::Range;
use vstd::prelude::*;

verus! {

/// A space or a tab: the characters a row may break after.
pub open spec fn is_wrap_space(c: char) -> bool {
    c == ' ' || c == '\t'
}

/// The rows that wrapping `t` gives from character `i` on, as character
/// ranges, given the rows `out` already closed, the start `start` of the
/// open row, the characters `count` counted in it, and the end of the last
/// space or tab seen in it.
pub open spec fn wrap_rows_from(
    t: Seq<char>,
    budget: nat,
    i: int,
    out: Seq<(int, int)>,
    start: int,
    count: nat,
    ws: Option<int>,
) -> Seq<(int, int)>
    decreases t.len() - i,
{
    if i >= t.len() {
        if start < t.len() {
            out.push((start, t.len() as int))
        } else if out.len() == 0 {
            out.push((0, 0))
        } else {
            out
        }
    } else if t[i] == '\n' {
        wrap_rows_from(t, budget, i + 1, out.push((start, i + 1)), i + 1, 0, None)
    } else {
        let count1 = count + 1;
        let ws1 = if is_wrap_space(t[i]) { Some(i + 1) } else { ws };
        let brk: Option<int> = if count1 < budget {
            None
        } else if ws1 is Some && ws1->0 > start {
            ws1
        } else if i + 1 < t.len() && (is_wrap_space(t[i + 1]) || t[i + 1] == '\n') {
            Some(i + 1)
        } else {
            None
        };
        match brk {
            Some(b) => wrap_rows_from(
                t,
                budget,
                i + 1,
                out.push((start, b)),
                b,
                (i + 1 - b) as nat,
                None,
            ),
            None => wrap_rows_from(t, budget, i + 1, out, start, count1, ws1),
        }
    }
}

/// The rows of `t` for a budget of `budget` characters, as character
/// ranges; the whole text as one row when it is empty or the budget is 0.
pub open spec fn wrap_rows(t: Seq<char>, budget: nat) -> Seq<(int, int)> {
    if t.len() == 0 || budget == 0 {
        seq![(0int, t.len() as int)]
    } else {
        wrap_rows_from(t, budget, 0, seq![], 0, 0, None)
    }
}

/// The rows `ranges` of `t` as the wrap returns them: each row's byte
/// offset in `t` and its text.
pub open spec fn rows_as_chunks(t: Seq<char>, ranges: Seq<(int, int)>) -> Seq<(nat, Seq<char>)> {
    Seq::new(
        ranges.len(),
        |k: int| (utf8_len(t.take(ranges[k].0)), t.subrange(ranges[k].0, ranges[k].1)),
    )
}

/// Rows are consecutive pieces of `t`, starting at 0 and ending at
/// `t.len()`, each one nonempty unless it is the only one.
pub open spec fn rows_tile(t: Seq<char>, rows: Seq<(int, int)>) -> bool {
    &&& rows.len() > 0
    &&& rows[0].0 == 0
    &&& rows.last().1 == t.len()
    &&& forall|k: int| 0 <= k < rows.len() ==> 0 <= #[trigger] rows[k].0 <= rows[k].1 <= t.len()
    &&& forall|k: int| 0 <= k < rows.len() - 1 ==> #[trigger] rows[k].1 == rows[k + 1].0
    &&& rows.len() > 1 ==> forall|k: int| 0 <= k < rows.len() ==> #[trigger] rows[k].0 < rows[k].1
}

/// `o` with its value widened to `int`.
pub open spec fn opt_int(o: Option<usize>) -> Option<int> {
    match o {
        Some(x) => Some(x as int),
        None => None,
    }
}

/// `out` holds, in order, the byte offset and the text of each row of `rows`.
pub open spec fn chunks_are(out: Seq<(usize, String)>, t: Seq<char>, rows: Seq<(int, int)>) -> bool {
    &&& out.len() == rows.len()
    &&& forall|k: int|
        0 <= k < out.len() ==> {
            &&& #[trigger] out[k].0 == utf8_len(t.take(rows[k].0))
            &&& out[k].1@ == t.subrange(rows[k].0, rows[k].1)
        }
}

/// Wrap breaks fall right after a space, tab or `'\n'`, or right before one.
pub open spec fn breaks_at_spaces(t: Seq<char>, rows: Seq<(int, int)>) -> bool {
    forall|k: int|
        0 <= k < rows.len() - 1 ==> {
            let b = #[trigger] rows[k].1;
            (0 < b && (is_wrap_space(t[b - 1]) || t[b - 1] == '\n')) || (b < t.len() && (
            is_wrap_space(t[b]) || t[b] == '\n'))
        }
}

/// The characters `a..b` of `chars` as a `String`.
fn chars_to_string(chars: &Vec<char>, a: usize, b: usize) -> (r: String)
    requires
        a <= b <= chars@.len(),
    ensures
        r@ == chars@.subrange(a as int, b as int),
{
    let mut out = String::new();
    let mut k = a;
    while k < b
        invariant
            a <= k <= b,
            b <= chars@.len(),
            out@ == chars@.subrange(a as int, k as int),
        decreases b - k,
    {
        push_char(&mut out, chars[k]);
        proof {
            assert(chars@.subrange(a as int, k + 1) =~= chars@.subrange(a as int, k as int).push(
                chars@[k as int],
            ));
        }
        k = k + 1;
    }
    out
}

/// The UTF-8 encoding of `s` is `utf8_len(s)` bytes long.
proof fn lemma_encoded_len(s: Seq<char>)
    ensures
        vstd::utf8::encode_utf8(s).len() == utf8_len(s),
    decreases s.len(),
{
    if s.len() > 0 {
        lemma_encoded_len(s.drop_first());
        crate::rope_view::lemma_utf8_len_concat(seq![s[0]], s.drop_first());
        assert(seq![s[0]] + s.drop_first() =~= s);
        assert(seq![s[0]].drop_last() =~= Seq::<char>::empty());
        let c = s[0];
        let v = c as u32;
        vstd::utf8::char_is_scalar(c);
        assert(utf8_len(Seq::<char>::empty()) == 0);
        assert(utf8_len(seq![c]) == utf8_width(c));
        assert(vstd::utf8::encode_scalar(v).len() == utf8_width(s[0]));
        assert(vstd::utf8::encode_utf8(s) == vstd::utf8::encode_scalar(v) + vstd::utf8::encode_utf8(
            s.drop_first(),
        ));
    }
}

proof fn lemma_utf8_len_step(t: Seq<char>, i: int)
    requires
        0 <= i < t.len(),
    ensures
        utf8_len(t.take(i + 1)) == utf8_len(t.take(i)) + utf8_width(t[i]),
{
    assert(t.take(i + 1).drop_last() =~= t.take(i));
}

/// Wraps `text` into rows of about `budget` characters and returns, for each
/// row, its byte offset in `text` and its text. An empty text, or a budget
/// of 0, gives the whole text as the one row.
pub fn wrap_text_into_chunks(text: &str, budget: usize) -> (r: Vec<(usize, String)>)
    ensures
        chunks_are(r@, text@, wrap_rows(text@, budget as nat)),
{
    let byte_len = text.as_bytes().len();
    proof {
        lemma_encoded_len(text@);
        assert(byte_len == utf8_len(text@));
    }
    let chars = crate::text::chars_of(text);
    let n = chars.len();
    let ghost t = chars@;
    if n == 0 || budget == 0 {
        let whole = chars_to_string(&chars, 0, n);
        let mut one: Vec<(usize, String)> = Vec::new();
        one.push((0, whole));
        proof {
            assert(t.take(0) =~= Seq::<char>::empty());
        }
        return one;
    }
    let mut out: Vec<(usize, String)> = Vec::new();
    let ghost mut rows: Seq<(int, int)> = seq![];
    let mut start: usize = 0;
    let mut start_byte: usize = 0;
    let mut count: usize = 0;
    let mut ws: Option<usize> = None;
    let mut ws_byte: usize = 0;
    let mut i: usize = 0;
    let mut byte: usize = 0;
    proof {
        assert(t.take(0) =~= Seq::<char>::empty());
    }
    while i < n
        invariant
            n == chars@.len(),
            t == chars@,
            t == text@,
            n > 0,
            budget > 0,
            utf8_len(t) <= usize::MAX,
            i <= n,
            start <= i,
            count <= i,
            ws matches Some(w) ==> start < w <= i || w <= start,
            ws matches Some(w) ==> w <= i && ws_byte == utf8_len(t.take(w as int)),
            byte == utf8_len(t.take(i as int)),
            start_byte == utf8_len(t.take(start as int)),
            chunks_are(out@, t, rows),
            wrap_rows_from(t, budget as nat, 0, seq![], 0, 0, None) == wrap_rows_from(
                t,
                budget as nat,
                i as int,
                rows,
                start as int,
                count as nat,
                opt_int(ws),
            ),
        decreases n - i,
    {
        let c = chars[i];
        let w = utf8_width_of(c);
        proof {
            lemma_utf8_len_step(t, i as int);
            crate::rope_view::lemma_utf8_len_prefix(t, i + 1);
        }
        let next_byte = byte + w;
        if c == '\n' {
            let piece = chars_to_string(&chars, start, i + 1);
            out.push((start_byte, piece));
            proof {
                rows = rows.push((start as int, i + 1));
            }
            start = i + 1;
            start_byte = next_byte;
            count = 0;
            ws = None;
        } else {
            count = count + 1;
            if c == ' ' || c == '\t' {
                ws = Some(i + 1);
                ws_byte = next_byte;
            }
            let mut brk: Option<(usize, usize)> = None;
            if count >= budget {
                match ws {
                    Some(b) => {
                        if b > start {
                            brk = Some((b, ws_byte));
                        }
                    },
                    None => {},
                }
                if brk.is_none() && i + 1 < n {
                    let d = chars[i + 1];
                    if d == ' ' || d == '\t' || d == '\n' {
                        brk = Some((i + 1, next_byte));
                    }
                }
            }
            match brk {
                Some((b, b_byte)) => {
                    let piece = chars_to_string(&chars, start, b);
                    out.push((start_byte, piece));
                    proof {
                        rows = rows.push((start as int, b as int));
                    }
                    start = b;
                    start_byte = b_byte;
                    count = i + 1 - b;
                    ws = None;
                },
                None => {},
            }
        }
        i = i + 1;
        byte = next_byte;
    }
    if start < n {
        let piece = chars_to_string(&chars, start, n);
        out.push((start_byte, piece));
        proof {
            rows = rows.push((start as int, n as int));
        }
    } else if out.len() == 0 {
        out.push((0, String::new()));
        proof {
            rows = rows.push((0, 0));
            assert(t.take(0) =~= Seq::<char>::empty());
            assert(t.subrange(0, 0) =~= Seq::<char>::empty());
        }
    }
    out
}


/// The rows closed so far are consecutive nonempty pieces of `t` from 0 to
/// `start`, each ending at a break that [`breaks_at_spaces`] allows.
spec fn closed_rows(t: Seq<char>, rows: Seq<(int, int)>, start: int) -> bool {
    &&& rows.len() == 0 ==> start == 0
    &&& rows.len() > 0 ==> rows[0].0 == 0 && rows.last().1 == start
    &&& forall|k: int| 0 <= k < rows.len() ==> 0 <= #[trigger] rows[k].0 < rows[k].1 <= start
    &&& forall|k: int| 0 <= k < rows.len() - 1 ==> #[trigger] rows[k].1 == rows[k + 1].0
    &&& forall|k: int|
        0 <= k < rows.len() ==> {
            let b = #[trigger] rows[k].1;
            (0 < b && (is_wrap_space(t[b - 1]) || t[b - 1] == '\n')) || (b < t.len() && (
            is_wrap_space(t[b]) || t[b] == '\n'))
        }
}

#[verifier::spinoff_prover]
proof fn lemma_wrap_rows_from(
    t: Seq<char>,
    budget: nat,
    i: int,
    out: Seq<(int, int)>,
    start: int,
    count: nat,
    ws: Option<int>,
)
    requires
        t.len() > 0,
        0 <= start <= i <= t.len(),
        closed_rows(t, out, start),
        ws matches Some(w) ==> 0 < w <= i && is_wrap_space(t[w - 1]),
    ensures
        rows_tile(t, wrap_rows_from(t, budget, i, out, start, count, ws)),
        breaks_at_spaces(t, wrap_rows_from(t, budget, i, out, start, count, ws)),
    decreases t.len() - i,
{
    if i >= t.len() {
        if start < t.len() {
            let r = out.push((start, t.len() as int));
            assert forall|k: int| 0 <= k < r.len() - 1 implies #[trigger] r[k].1 == r[k + 1].0 by {
                if k < out.len() - 1 {
                    assert(r[k] == out[k] && r[k + 1] == out[k + 1]);
                }
            }
        }
    } else if t[i] == '\n' {
        let o = out.push((start, i + 1));
        assert forall|k: int| 0 <= k < o.len() - 1 implies #[trigger] o[k].1 == o[k + 1].0 by {
            if k < out.len() - 1 {
                assert(o[k] == out[k] && o[k + 1] == out[k + 1]);
            }
        }
        lemma_wrap_rows_from(t, budget, i + 1, o, i + 1, 0, None);
    } else {
        let count1 = count + 1;
        let ws1 = if is_wrap_space(t[i]) { Some(i + 1) } else { ws };
        let brk: Option<int> = if count1 < budget {
            None
        } else if ws1 is Some && ws1->0 > start {
            ws1
        } else if i + 1 < t.len() && (is_wrap_space(t[i + 1]) || t[i + 1] == '\n') {
            Some(i + 1)
        } else {
            None
        };
        match brk {
            Some(b) => {
                let o = out.push((start, b));
                assert forall|k: int| 0 <= k < o.len() - 1 implies #[trigger] o[k].1 == o[k + 1].0 by {
                    if k < out.len() - 1 {
                        assert(o[k] == out[k] && o[k + 1] == out[k + 1]);
                    }
                }
                lemma_wrap_rows_from(t, budget, i + 1, o, b, (i + 1 - b) as nat, None);
            },
            None => {
                lemma_wrap_rows_from(t, budget, i + 1, out, start, count1, ws1);
            },
        }
    }
}

/// Wrapping cuts `t` into consecutive rows that run from its start to its
/// end, none of them empty unless it is the only one; so the rows, joined,
/// give back the text.
pub proof fn lemma_wrap_rows_tile(t: Seq<char>, budget: nat)
    ensures
        rows_tile(t, wrap_rows(t, budget)),
{
    if t.len() > 0 && budget > 0 {
        lemma_wrap_rows_from(t, budget, 0, seq![], 0, 0, None);
    }
}

/// Wrapping breaks a row only right after a space, tab or `'\n'`, or right
/// before one, so a word is never split, however long it is.
pub proof fn lemma_wrap_keeps_words(t: Seq<char>, budget: nat)
    ensures
        breaks_at_spaces(t, wrap_rows(t, budget)),
{
    if t.len() > 0 && budget > 0 {
        lemma_wrap_rows_from(t, budget, 0, seq![], 0, 0, None);
    }
}


/// Glyph `j`, starting at byte `glyph_bytes[j]` of `text`, is a space or a tab.
pub open spec fn glyph_is_space(text: Seq<u8>, glyph_bytes: Seq<usize>, j: int) -> bool {
    glyph_bytes[j] < text.len() && (text[glyph_bytes[j] as int] == 32u8 || text[glyph_bytes[j] as int] == 9u8)
}

/// The last glyph strictly between `lo` and `hi` that is a space or a tab;
/// `lo` when there is none.
pub open spec fn last_space_glyph(text: Seq<u8>, glyph_bytes: Seq<usize>, lo: int, hi: int) -> int
    decreases hi - lo,
{
    if hi <= lo + 1 {
        lo
    } else if glyph_is_space(text, glyph_bytes, hi - 1) {
        hi - 1
    } else {
        last_space_glyph(text, glyph_bytes, lo, hi - 1)
    }
}

/// Where a shaped row that starts at glyph `row_start` and overflows at
/// glyph `break_idx` ends: right after the last space or tab glyph between
/// them, or at `break_idx` when there is none.
pub open spec fn row_break(text: Seq<u8>, glyph_bytes: Seq<usize>, row_start: int, break_idx: int) -> int {
    let j = last_space_glyph(text, glyph_bytes, row_start, break_idx);
    if j > row_start {
        j + 1
    } else {
        break_idx
    }
}

proof fn lemma_last_space_glyph_bounds(text: Seq<u8>, glyph_bytes: Seq<usize>, lo: int, hi: int)
    requires
        lo < hi,
    ensures
        lo <= last_space_glyph(text, glyph_bytes, lo, hi) < hi,
    decreases hi - lo,
{
    if hi > lo + 1 && !glyph_is_space(text, glyph_bytes, hi - 1) {
        lemma_last_space_glyph_bounds(text, glyph_bytes, lo, hi - 1);
    }
}

/// Break a shaped row that starts at glyph `row_start` and whose glyph
/// `break_idx` is the first to pass the width budget, preferring a break
/// after a space or tab. `glyph_bytes[j]` is the byte of `text` where glyph
/// `j` starts. Returns the glyph where the next row starts and the byte
/// range of `text` this row covers: from its first glyph's byte to the next
/// row's first glyph's byte, or to the end of `text` for the last row.
pub fn wrap_row_break(text: &[u8], glyph_bytes: &[usize], row_start: usize, break_idx: usize) -> (r: (
    usize,
    Range<usize>,
))
    requires
        row_start < break_idx <= glyph_bytes@.len(),
    ensures
        r.0 == row_break(text@, glyph_bytes@, row_start as int, break_idx as int),
        row_start < r.0 <= break_idx,
        r.1.start == glyph_bytes@[row_start as int],
        r.1.end == if r.0 < glyph_bytes@.len() {
            glyph_bytes@[r.0 as int] as int
        } else {
            text@.len() as int
        },
{
    proof {
        lemma_last_space_glyph_bounds(text@, glyph_bytes@, row_start as int, break_idx as int);
    }
    let mut chosen = break_idx;
    let mut j = break_idx;
    while j > row_start + 1
        invariant_except_break
            chosen == break_idx,
        invariant
            row_start < j <= break_idx <= glyph_bytes@.len(),
            last_space_glyph(text@, glyph_bytes@, row_start as int, break_idx as int)
                == last_space_glyph(text@, glyph_bytes@, row_start as int, j as int),
        ensures
            chosen == row_break(text@, glyph_bytes@, row_start as int, break_idx as int),
        decreases j,
    {
        let b = glyph_bytes[j - 1];
        if b < text.len() && (text[b] == 32u8 || text[b] == 9u8) {
            chosen = j;
            break;
        }
        j = j - 1;
    }
    let end = if chosen < glyph_bytes.len() {
        glyph_bytes[chosen]
    } else {
        text.len()
    };
    (chosen, glyph_bytes[row_start]..end)
}

} // verus!
