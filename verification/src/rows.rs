//! Display rows of a laid-out text view, seen by the buffer lines they show:
//! mapping a buffer position to the row that displays it, and placing each
//! row of a span of buffer lines within that span.

use vstd::prelude::*;

verus! {

/// What the row logic reads of a display row: its index, the buffer line
/// it shows, the byte offset within that line where the row starts, and
/// the byte length of the row's text.
#[derive(Clone, Copy, Debug, PartialEq, Eq)]
pub struct RowSpan {
    pub display_row: u32,
    pub buffer_row: u32,
    pub buffer_byte_offset: usize,
    pub text_len: usize,
}

/// The row that displays byte `byte` of buffer line `buffer_row`, found by
/// a scan of `rows` from index `i` on with `best` the match so far: among
/// the rows of that buffer line, the last one that starts at or before
/// `byte`, the scan stopping at the first one that starts after it.
pub open spec fn best_row_from(rows: Seq<RowSpan>, buffer_row: u32, byte: int, i: int, best: Option<int>) -> Option<int>
    decreases rows.len() - i,
{
    if i >= rows.len() || i < 0 {
        best
    } else if rows[i].buffer_row != buffer_row {
        best_row_from(rows, buffer_row, byte, i + 1, best)
    } else if rows[i].buffer_byte_offset <= byte {
        best_row_from(rows, buffer_row, byte, i + 1, Some(i))
    } else {
        best
    }
}

/// `(display_row, byte_in_display_row)` for byte `byte` of buffer line
/// `buffer_row`: the row found by [`best_row_from`], and the byte counted
/// from that row's start, capped at the row's text length.
pub open spec fn buffer_to_display_spec(rows: Seq<RowSpan>, buffer_row: u32, byte: int) -> Option<(u32, int)> {
    match best_row_from(rows, buffer_row, byte, 0, None) {
        Some(k) => {
            let local = byte - rows[k].buffer_byte_offset;
            let local = if local < 0 { 0 } else { local };
            Some((rows[k].display_row, if local < rows[k].text_len { local } else { rows[k].text_len as int }))
        },
        None => None,
    }
}

/// Maps `(buffer_row, byte_in_line)` to `(display_row, byte_in_display_row)`
/// over the rows of a layout's visible window, where the rows of one buffer
/// line come in ascending byte offset; `None` when no visible row shows it.
pub fn buffer_to_display(rows: &[RowSpan], buffer_row: u32, byte_in_line: usize) -> (r: Option<(u32, usize)>)
    ensures
        r is Some <==> buffer_to_display_spec(rows@, buffer_row, byte_in_line as int) is Some,
        r matches Some(p) ==> buffer_to_display_spec(rows@, buffer_row, byte_in_line as int)
            == Some((p.0, p.1 as int)),
{
    let n = rows.len();
    let mut best: Option<usize> = None;
    let mut i: usize = 0;
    while i < n
        invariant_except_break
            n == rows@.len(),
            i <= n,
            best matches Some(b) ==> b < i,
            best_row_from(rows@, buffer_row, byte_in_line as int, 0, None) == best_row_from(
                rows@,
                buffer_row,
                byte_in_line as int,
                i as int,
                match best {
                    Some(b) => Some(b as int),
                    None => None,
                },
            ),
        ensures
            best matches Some(b) ==> b < n,
            best_row_from(rows@, buffer_row, byte_in_line as int, 0, None) == match best {
                Some(b) => Some(b as int),
                None => None::<int>,
            },
        decreases n - i,
    {
        let row = rows[i];
        if row.buffer_row != buffer_row {
            i = i + 1;
            continue;
        }
        if row.buffer_byte_offset <= byte_in_line {
            best = Some(i);
        } else {
            break;
        }
        i = i + 1;
    }
    match best {
        Some(k) => {
            let row = rows[k];
            let local = if byte_in_line > row.buffer_byte_offset { byte_in_line - row.buffer_byte_offset } else { 0 };
            Some((row.display_row, if local < row.text_len { local } else { row.text_len }))
        },
        None => None,
    }
}

/// The rows of buffer line `buffer_row` come in ascending byte offset.
pub open spec fn line_rows_ascending(rows: Seq<RowSpan>, buffer_row: u32) -> bool {
    forall|i: int, j: int|
        0 <= i < j < rows.len() && rows[i].buffer_row == buffer_row && rows[j].buffer_row == buffer_row
            ==> rows[i].buffer_byte_offset <= rows[j].buffer_byte_offset
}

/// Row `k` of `rows` shows buffer line `buffer_row` from byte `byte` or before.
pub open spec fn row_starts_by(rows: Seq<RowSpan>, buffer_row: u32, byte: int, k: int) -> bool {
    0 <= k < rows.len() && rows[k].buffer_row == buffer_row && rows[k].buffer_byte_offset <= byte
}

proof fn lemma_best_row_from_latest(rows: Seq<RowSpan>, buffer_row: u32, byte: int, i: int, best: Option<int>)
    requires
        line_rows_ascending(rows, buffer_row),
        0 <= i <= rows.len(),
        best is None ==> forall|j: int| 0 <= j < i ==> !#[trigger] row_starts_by(rows, buffer_row, byte, j),
        best matches Some(b) ==> b < i && row_starts_by(rows, buffer_row, byte, b) && forall|j: int|
            0 <= j < i && #[trigger] row_starts_by(rows, buffer_row, byte, j) ==> rows[j].buffer_byte_offset
                <= rows[b].buffer_byte_offset,
    ensures
        best_row_from(rows, buffer_row, byte, i, best) is None ==> forall|j: int|
            !#[trigger] row_starts_by(rows, buffer_row, byte, j),
        best_row_from(rows, buffer_row, byte, i, best) matches Some(k) ==> row_starts_by(rows, buffer_row, byte, k)
            && forall|j: int| #[trigger] row_starts_by(rows, buffer_row, byte, j) ==> rows[j].buffer_byte_offset
                <= rows[k].buffer_byte_offset,
    decreases rows.len() - i,
{
    if i >= rows.len() {
    } else if rows[i].buffer_row != buffer_row {
        lemma_best_row_from_latest(rows, buffer_row, byte, i + 1, best);
    } else if byte >= rows[i].buffer_byte_offset {
        assert forall|j: int| 0 <= j < i + 1 && #[trigger] row_starts_by(rows, buffer_row, byte, j) implies rows[j].buffer_byte_offset
            <= rows[i].buffer_byte_offset by {
            if j < i {
            }
        }
        lemma_best_row_from_latest(rows, buffer_row, byte, i + 1, Some(i));
    } else {
        assert forall|j: int| #[trigger] row_starts_by(rows, buffer_row, byte, j) implies j < i by {
            if j > i {
                assert(rows[i].buffer_byte_offset <= rows[j].buffer_byte_offset);
            }
        }
    }
}

/// Mapping a buffer position to a display row, where the rows of its line
/// come in ascending byte offset: there is an answer exactly when some row of
/// the line starts at or before the byte; the answer is the row, among
/// those, that starts last, with the byte counted from its start and capped
/// at its length; so a byte where a row starts lands at that row's column 0.
pub proof fn lemma_buffer_to_display_picks_last_start(rows: Seq<RowSpan>, buffer_row: u32, byte: int)
    requires
        line_rows_ascending(rows, buffer_row),
    ensures
        buffer_to_display_spec(rows, buffer_row, byte) is Some <==> exists|k: int|
            #[trigger] row_starts_by(rows, buffer_row, byte, k),
        buffer_to_display_spec(rows, buffer_row, byte) matches Some(p) ==> exists|k: int|
            {
                &&& #[trigger] row_starts_by(rows, buffer_row, byte, k)
                &&& forall|j: int| #[trigger] row_starts_by(rows, buffer_row, byte, j)
                    ==> rows[j].buffer_byte_offset <= rows[k].buffer_byte_offset
                &&& p.0 == rows[k].display_row
                &&& p.1 == if byte - rows[k].buffer_byte_offset < rows[k].text_len {
                    byte - rows[k].buffer_byte_offset
                } else {
                    rows[k].text_len as int
                }
            },
        (exists|k: int| #[trigger] row_starts_by(rows, buffer_row, byte, k) && rows[k].buffer_byte_offset == byte)
            ==> (buffer_to_display_spec(rows, buffer_row, byte) matches Some(p) && p.1 == 0),
{
    lemma_best_row_from_latest(rows, buffer_row, byte, 0, None);
    match best_row_from(rows, buffer_row, byte, 0, None) {
        Some(k) => {
            assert(row_starts_by(rows, buffer_row, byte, k));
            if exists|j: int| #[trigger] row_starts_by(rows, buffer_row, byte, j) && rows[j].buffer_byte_offset == byte {
                let j = choose|j: int| #[trigger] row_starts_by(rows, buffer_row, byte, j) && rows[j].buffer_byte_offset == byte;
                assert(rows[j].buffer_byte_offset <= rows[k].buffer_byte_offset);
            }
        },
        None => {},
    }
}

/// Where a display row sits within a span of rows: alone, first, between
/// the first and the last, or last.
#[derive(Clone, Copy, Debug, PartialEq, Eq)]
pub enum RowPosition {
    Only,
    First,
    Middle,
    Last,
}

/// The position of the `i`-th of `len` rows within their span.
pub open spec fn position_in_span(i: int, len: int) -> RowPosition {
    if len == 1 {
        RowPosition::Only
    } else if i == 0 {
        RowPosition::First
    } else if i == len - 1 {
        RowPosition::Last
    } else {
        RowPosition::Middle
    }
}

/// The display rows of `rows` whose buffer line lies in `first..=last`, in
/// the order of `rows`.
pub open spec fn rows_in_span(rows: Seq<RowSpan>, first: u32, last: u32) -> Seq<u32>
    decreases rows.len(),
{
    if rows.len() == 0 {
        seq![]
    } else {
        let before = rows_in_span(rows.drop_last(), first, last);
        let r = rows.last();
        if first <= r.buffer_row <= last {
            before.push(r.display_row)
        } else {
            before
        }
    }
}

/// The rows of a span of buffer lines: a display row is listed exactly
/// when some row shows a buffer line from `first` to `last`, both included,
/// and there are never more than there are rows.
pub proof fn lemma_rows_in_span_members(rows: Seq<RowSpan>, first: u32, last: u32)
    ensures
        rows_in_span(rows, first, last).len() <= rows.len(),
        forall|d: u32|
            rows_in_span(rows, first, last).contains(d) <==> exists|i: int|
                0 <= i < rows.len() && first <= rows[i].buffer_row <= last && #[trigger] rows[i].display_row == d,
    decreases rows.len(),
{
    if rows.len() > 0 {
        let p = rows.drop_last();
        lemma_rows_in_span_members(p, first, last);
        let before = rows_in_span(p, first, last);
        let r = rows.last();
        assert forall|d: u32|
            rows_in_span(rows, first, last).contains(d) <==> exists|i: int|
                0 <= i < rows.len() && first <= rows[i].buffer_row <= last && #[trigger] rows[i].display_row == d by {
            if rows_in_span(rows, first, last).contains(d) {
                let q = choose|q: int| 0 <= q < rows_in_span(rows, first, last).len() && rows_in_span(rows, first, last)[q] == d;
                if q < before.len() && (first <= r.buffer_row <= last) {
                    assert(rows_in_span(rows, first, last)[q] == before[q]);
                    assert(before.contains(d));
                } else if first <= r.buffer_row <= last {
                    assert(rows[rows.len() - 1].display_row == d);
                } else {
                    assert(before.contains(d));
                }
                if before.contains(d) {
                    let i = choose|i: int| 0 <= i < p.len() && first <= p[i].buffer_row <= last && #[trigger] p[i].display_row == d;
                    assert(rows[i] == p[i]);
                }
            }
            if exists|i: int| 0 <= i < rows.len() && first <= rows[i].buffer_row <= last && #[trigger] rows[i].display_row == d {
                let i = choose|i: int| 0 <= i < rows.len() && first <= rows[i].buffer_row <= last && #[trigger] rows[i].display_row == d;
                if i < rows.len() - 1 {
                    assert(p[i] == rows[i]);
                    assert(before.contains(d));
                    let q = choose|q: int| 0 <= q < before.len() && before[q] == d;
                    if first <= r.buffer_row <= last {
                        assert(rows_in_span(rows, first, last)[q] == d);
                    }
                } else {
                    assert(rows_in_span(rows, first, last)[before.len() as int] == d);
                }
            }
        }
    }
}

/// Every display row of `rows` whose buffer line lies in
/// `first_buffer_row..=last_buffer_row`, in order, each with its position
/// within that span of rows.
pub fn rows_in_buffer_span(rows: &[RowSpan], first_buffer_row: u32, last_buffer_row: u32) -> (r: Vec<(u32, RowPosition)>)
    ensures
        r@.len() == rows_in_span(rows@, first_buffer_row, last_buffer_row).len(),
        forall|k: int|
            0 <= k < r@.len() ==> #[trigger] r@[k] == (
                rows_in_span(rows@, first_buffer_row, last_buffer_row)[k],
                position_in_span(k, r@.len() as int),
            ),
{
    let mut picked: Vec<u32> = Vec::new();
    let n = rows.len();
    let mut i: usize = 0;
    while i < n
        invariant
            n == rows@.len(),
            i <= n,
            picked@ == rows_in_span(rows@.take(i as int), first_buffer_row, last_buffer_row),
        decreases n - i,
    {
        proof {
            assert(rows@.take(i + 1).drop_last() =~= rows@.take(i as int));
        }
        let row = rows[i];
        if row.buffer_row >= first_buffer_row && row.buffer_row <= last_buffer_row {
            picked.push(row.display_row);
        }
        i = i + 1;
    }
    proof {
        assert(rows@.take(n as int) =~= rows@);
    }
    let len = picked.len();
    let mut out: Vec<(u32, RowPosition)> = Vec::new();
    let mut k: usize = 0;
    while k < len
        invariant
            len == picked@.len(),
            picked@ == rows_in_span(rows@, first_buffer_row, last_buffer_row),
            k <= len,
            out@.len() == k,
            forall|j: int| 0 <= j < k ==> #[trigger] out@[j] == (picked@[j], position_in_span(j, len as int)),
        decreases len - k,
    {
        let pos = if len == 1 {
            RowPosition::Only
        } else if k == 0 {
            RowPosition::First
        } else if k == len - 1 {
            RowPosition::Last
        } else {
            RowPosition::Middle
        };
        out.push((picked[k], pos));
        k = k + 1;
    }
    out
}

/// The rows of one buffer line `buffer_row`, numbered from display row
/// `first`: each row given by its byte offset in the line and its byte
/// length, and flagged when it continues a wrapped line.
pub open spec fn line_rows(first: int, buffer_row: u32, rows: Seq<(usize, usize)>) -> Seq<(RowSpan, bool)> {
    Seq::new(
        rows.len(),
        |j: int|
            (
                RowSpan {
                    display_row: (first + j) as u32,
                    buffer_row: buffer_row,
                    buffer_byte_offset: rows[j].0,
                    text_len: rows[j].1,
                },
                j > 0,
            ),
    )
}

/// The rows of `lines`, one buffer line after another, numbered in order
/// from display row `first`.
pub open spec fn numbered_rows(first: int, lines: Seq<(u32, Seq<(usize, usize)>)>) -> Seq<(RowSpan, bool)>
    decreases lines.len(),
{
    if lines.len() == 0 {
        seq![]
    } else {
        let before = numbered_rows(first, lines.drop_last());
        before + line_rows(first + before.len(), lines.last().0, lines.last().1)
    }
}

/// The number of rows of `lines`.
pub open spec fn rows_total(lines: Seq<(u32, Seq<(usize, usize)>)>) -> int
    decreases lines.len(),
{
    if lines.len() == 0 {
        0
    } else {
        rows_total(lines.drop_last()) + lines.last().1.len()
    }
}

/// The lines of `lines` with their rows taken by view.
pub open spec fn line_views(lines: Seq<(u32, Vec<(usize, usize)>)>) -> Seq<(u32, Seq<(usize, usize)>)> {
    lines.map_values(|l: (u32, Vec<(usize, usize)>)| (l.0, l.1@))
}

proof fn lemma_numbered_rows_len(first: int, lines: Seq<(u32, Seq<(usize, usize)>)>)
    ensures
        numbered_rows(first, lines).len() == rows_total(lines),
    decreases lines.len(),
{
    if lines.len() > 0 {
        lemma_numbered_rows_len(first, lines.drop_last());
    }
}

proof fn lemma_rows_total_prefix(lines: Seq<(u32, Seq<(usize, usize)>)>, k: int)
    requires
        0 <= k <= lines.len(),
    ensures
        0 <= rows_total(lines.take(k)) <= rows_total(lines),
    decreases lines.len() - k,
{
    if k < lines.len() {
        lemma_rows_total_prefix(lines, k + 1);
        assert(lines.take(k + 1).drop_last() =~= lines.take(k));
    } else {
        assert(lines.take(k) =~= lines);
    }
    lemma_rows_total_nonneg(lines.take(k));
}

proof fn lemma_rows_total_nonneg(lines: Seq<(u32, Seq<(usize, usize)>)>)
    ensures
        rows_total(lines) >= 0,
    decreases lines.len(),
{
    if lines.len() > 0 {
        lemma_rows_total_nonneg(lines.drop_last());
    }
}

/// Row `j` of line `i` of `lines` is numbered where it belongs: at the
/// place after the rows of the lines before, with the line's buffer row, the
/// row's byte offset and length, and marked as continuing the line exactly
/// when it is not the line's first row.
pub open spec fn row_in_place(first: int, lines: Seq<(u32, Seq<(usize, usize)>)>, i: int, j: int) -> bool {
    let k = rows_total(lines.take(i)) + j;
    &&& 0 <= k < numbered_rows(first, lines).len()
    &&& numbered_rows(first, lines)[k].0.buffer_row == lines[i].0
    &&& numbered_rows(first, lines)[k].0.buffer_byte_offset == lines[i].1[j].0
    &&& numbered_rows(first, lines)[k].0.text_len == lines[i].1[j].1
    &&& numbered_rows(first, lines)[k].1 == (j > 0)
}

/// Numbering rows: the rows of all lines come one after another, the `k`-th
/// of them on display row `first + k`; each line's rows keep its buffer row
/// and come in the line's order, and only a line's first row is not marked
/// as continuing it.
pub proof fn lemma_numbered_rows_consecutive(first: int, lines: Seq<(u32, Seq<(usize, usize)>)>)
    requires
        0 <= first,
        first + rows_total(lines) <= u32::MAX,
    ensures
        numbered_rows(first, lines).len() == rows_total(lines),
        forall|k: int|
            0 <= k < numbered_rows(first, lines).len() ==> (#[trigger] numbered_rows(first, lines)[k]).0.display_row
                == first + k,
        forall|i: int, j: int|
            0 <= i < lines.len() && 0 <= j < lines[i].1.len() ==> #[trigger] row_in_place(first, lines, i, j),
    decreases lines.len(),
{
    lemma_numbered_rows_len(first, lines);
    if lines.len() > 0 {
        let d = lines.drop_last();
        lemma_rows_total_nonneg(d);
        lemma_numbered_rows_consecutive(first, d);
        lemma_numbered_rows_len(first, d);
        let before = numbered_rows(first, d);
        let all = numbered_rows(first, lines);
        assert forall|i: int, j: int|
            0 <= i < lines.len() && 0 <= j < lines[i].1.len() implies #[trigger] row_in_place(first, lines, i, j) by {
            lemma_rows_total_prefix(lines, i);
            lemma_rows_total_prefix(lines, i + 1);
            assert(lines.take(i + 1).drop_last() =~= lines.take(i));
            let k = rows_total(lines.take(i)) + j;
            if i < lines.len() - 1 {
                assert(d.take(i) =~= lines.take(i));
                assert(d[i] == lines[i]);
                lemma_rows_total_prefix(d, i + 1);
                assert(d.take(i + 1) =~= lines.take(i + 1));
                assert(d[i].1[j] == lines[i].1[j]);
                assert(row_in_place(first, d, i, j));
                assert(k < before.len());
                assert(all[k] == before[k]);
            } else {
                assert(lines.take(i) =~= d);
                assert(k == before.len() + j);
                assert(all[k] == line_rows(first + before.len(), lines.last().0, lines.last().1)[j]);
                assert(lines.last() == lines[i]);
            }
        }
    }
}

/// Number the display rows of consecutive buffer lines from display row
/// `first_display_row`: each line is its buffer row and the byte offset and
/// byte length of each of its rows; each row gets the next display row, its
/// line's buffer row, and a flag set when it continues a wrapped line.
pub fn number_rows(first_display_row: u32, lines: &[(u32, Vec<(usize, usize)>)]) -> (r: Vec<(RowSpan, bool)>)
    requires
        first_display_row + rows_total(line_views(lines@)) <= u32::MAX,
    ensures
        r@ == numbered_rows(first_display_row as int, line_views(lines@)),
{
    let ghost first = first_display_row as int;
    let ghost all = line_views(lines@);
    let mut out: Vec<(RowSpan, bool)> = Vec::new();
    let mut row: u32 = first_display_row;
    let n = lines.len();
    let mut i: usize = 0;
    proof {
        lemma_numbered_rows_len(first, all.take(0));
    }
    while i < n
        invariant
            n == lines@.len(),
            all == line_views(lines@),
            i <= n,
            first + rows_total(all) <= u32::MAX,
            out@ == numbered_rows(first, all.take(i as int)),
            row == first + out@.len(),
            out@.len() == rows_total(all.take(i as int)),
        decreases n - i,
    {
        let ghost base = out@;
        let b = lines[i].0;
        let rows = &lines[i].1;
        let m = rows.len();
        proof {
            assert(all.take(i + 1).drop_last() =~= all.take(i as int));
            assert(all.take(i + 1).last() == (b, rows@));
            lemma_rows_total_prefix(all, i + 1);
        }
        let mut j: usize = 0;
        while j < m
            invariant
                m == rows@.len(),
                j <= m,
                first + rows_total(all) <= u32::MAX,
                base.len() + m == rows_total(all.take(i + 1)),
                rows_total(all.take(i + 1)) <= rows_total(all),
                row == first + base.len() + j,
                out@ =~= base + line_rows(first + base.len(), b, rows@).take(j as int),
            decreases m - j,
        {
            let (offset, len) = rows[j];
            let span = RowSpan { display_row: row, buffer_row: b, buffer_byte_offset: offset, text_len: len };
            out.push((span, j > 0));
            proof {
                assert(line_rows(first + base.len(), b, rows@).take(j + 1) =~= line_rows(
                    first + base.len(),
                    b,
                    rows@,
                ).take(j as int).push((span, j > 0)));
            }
            row = row + 1;
            j = j + 1;
        }
        proof {
            assert(line_rows(first + base.len(), b, rows@).take(m as int) =~= line_rows(first + base.len(), b, rows@));
            lemma_numbered_rows_len(first, all.take(i + 1));
        }
        i = i + 1;
    }
    proof {
        assert(all.take(n as int) =~= all);
    }
    out
}

} // verus!
