//! Clipping style runs, byte ranges of a line that share one style, to a
//! byte window of the line, renumbered from the window's start.

use std::ops::Range;
use vstd::prelude::*;

verus! {

/// Run `r` clipped to the window `a..b` and shifted so the window starts at
/// 0; nothing when the two do not overlap.
pub open spec fn clip_run(r: Range<usize>, a: int, b: int) -> Option<(int, int)> {
    if r.end <= a || r.start >= b {
        None
    } else {
        let s = (if r.start > a { r.start as int } else { a }) - a;
        let e = (if r.end < b { r.end as int } else { b }) - a;
        if s >= e {
            None
        } else {
            Some((s, e))
        }
    }
}

/// The runs of `runs` that overlap the window `a..b`, each as its index in
/// `runs` and its clipped, renumbered range, in the order of `runs`.
pub open spec fn clipped_runs(runs: Seq<Range<usize>>, a: int, b: int) -> Seq<(int, (int, int))>
    decreases runs.len(),
{
    if runs.len() == 0 {
        seq![]
    } else {
        let before = clipped_runs(runs.drop_last(), a, b);
        match clip_run(runs.last(), a, b) {
            Some(c) => before.push((runs.len() - 1, c)),
            None => before,
        }
    }
}

/// The runs of `runs` that overlap `range`, as their index in `runs` and
/// their range clipped to `range` and counted from `range.start`.
///
/// A reversed `range` is accepted only where no run reaches into it from
/// both sides, as the clipped end would fall before the window's start.
pub fn slice_run_ranges(runs: &[Range<usize>], range: Range<usize>) -> (r: Vec<(usize, Range<usize>)>)
    requires
        range.end < range.start ==> forall|k: int|
            0 <= k < runs@.len() ==> #[trigger] runs@[k].end <= range.start || runs@[k].start
                >= range.end,
    ensures
        r@.len() == clipped_runs(runs@, range.start as int, range.end as int).len(),
        forall|k: int|
            0 <= k < r@.len() ==> {
                let want = #[trigger] clipped_runs(runs@, range.start as int, range.end as int)[k];
                &&& r@[k].0 == want.0
                &&& r@[k].1.start == want.1.0
                &&& r@[k].1.end == want.1.1
            },
{
    let mut out: Vec<(usize, Range<usize>)> = Vec::new();
    let n = runs.len();
    let mut i: usize = 0;
    while i < n
        invariant
            n == runs@.len(),
            i <= n,
            range.end < range.start ==> forall|k: int|
                0 <= k < runs@.len() ==> #[trigger] runs@[k].end <= range.start || runs@[k].start
                    >= range.end,
            out@.len() == clipped_runs(runs@.take(i as int), range.start as int, range.end as int).len(),
            forall|k: int|
                0 <= k < out@.len() ==> {
                    let want = #[trigger] clipped_runs(
                        runs@.take(i as int),
                        range.start as int,
                        range.end as int,
                    )[k];
                    &&& out@[k].0 == want.0
                    &&& out@[k].1.start == want.1.0
                    &&& out@[k].1.end == want.1.1
                },
        decreases n - i,
    {
        let run = &runs[i];
        proof {
            assert(runs@.take(i + 1).drop_last() =~= runs@.take(i as int));
            assert(runs@.take(i + 1).last() == runs@[i as int]);
        }
        if !(run.end <= range.start || run.start >= range.end) {
            let lo = if run.start > range.start { run.start } else { range.start };
            let hi = if run.end < range.end { run.end } else { range.end };
            let s = lo - range.start;
            let e = hi - range.start;
            if s < e {
                out.push((i, s..e));
            }
        }
        i = i + 1;
    }
    proof {
        assert(runs@.take(n as int) =~= runs@);
    }
    out
}


/// Each clipped run lies inside the window, counted from its start, is
/// nonempty, and the runs keep their order in `runs`.
pub proof fn lemma_clipped_runs_in_window(runs: Seq<Range<usize>>, a: int, b: int)
    requires
        a <= b,
    ensures
        forall|k: int|
            0 <= k < clipped_runs(runs, a, b).len() ==> {
                let c = #[trigger] clipped_runs(runs, a, b)[k];
                &&& 0 <= c.1.0 < c.1.1 <= b - a
                &&& 0 <= c.0 < runs.len()
            },
        forall|j: int, k: int|
            0 <= j < k < clipped_runs(runs, a, b).len() ==> #[trigger] clipped_runs(runs, a, b)[j].0
                < #[trigger] clipped_runs(runs, a, b)[k].0,
    decreases runs.len(),
{
    if runs.len() > 0 {
        let before = clipped_runs(runs.drop_last(), a, b);
        lemma_clipped_runs_in_window(runs.drop_last(), a, b);
        let all = clipped_runs(runs, a, b);
        assert forall|k: int| 0 <= k < before.len() implies #[trigger] before[k].0 < runs.len() - 1 by {
            assert(0 <= before[k].0 < runs.drop_last().len());
        }
        match clip_run(runs.last(), a, b) {
            Some(c) => {
                assert(all == before.push((runs.len() - 1, c)));
                assert forall|k: int| 0 <= k < all.len() implies {
                    let x = #[trigger] all[k];
                    &&& 0 <= x.1.0 < x.1.1 <= b - a
                    &&& 0 <= x.0 < runs.len()
                } by {
                    if k < before.len() {
                        assert(all[k] == before[k]);
                    }
                }
                assert forall|j: int, k: int| 0 <= j < k < all.len() implies #[trigger] all[j].0
                    < #[trigger] all[k].0 by {
                    assert(all[j] == before[j]);
                    if k < before.len() {
                        assert(all[k] == before[k]);
                    }
                }
            },
            None => {
                assert(all == before);
            },
        }
    }
}


/// Sum of `lens`.
pub open spec fn total_len(lens: Seq<usize>) -> int
    decreases lens.len(),
{
    if lens.len() == 0 {
        0
    } else {
        total_len(lens.drop_last()) + lens.last()
    }
}

/// Runs laid end to end from byte 0, one per nonempty text length of
/// `lens`, each as its index in `lens` and its byte range.
pub open spec fn stacked_runs(lens: Seq<usize>) -> Seq<(int, (int, int))>
    decreases lens.len(),
{
    if lens.len() == 0 {
        seq![]
    } else {
        let before = stacked_runs(lens.drop_last());
        let start = total_len(lens.drop_last());
        if lens.last() == 0 {
            before
        } else {
            before.push((lens.len() - 1, (start, start + lens.last())))
        }
    }
}

/// Byte ranges for runs whose texts, of byte lengths `text_lens`, are
/// concatenated in order: each nonempty text gets the range it occupies in
/// the concatenation; empty texts get no run.
pub fn stack_run_ranges(text_lens: &[usize]) -> (r: Vec<(usize, Range<usize>)>)
    requires
        total_len(text_lens@) <= usize::MAX,
    ensures
        r@.len() == stacked_runs(text_lens@).len(),
        forall|k: int|
            0 <= k < r@.len() ==> {
                let want = #[trigger] stacked_runs(text_lens@)[k];
                &&& r@[k].0 == want.0
                &&& r@[k].1.start == want.1.0
                &&& r@[k].1.end == want.1.1
            },
{
    let mut out: Vec<(usize, Range<usize>)> = Vec::new();
    let n = text_lens.len();
    let mut cursor: usize = 0;
    let mut i: usize = 0;
    proof {
        lemma_total_len_prefix_le(text_lens@, 0);
    }
    while i < n
        invariant
            n == text_lens@.len(),
            i <= n,
            total_len(text_lens@) <= usize::MAX,
            cursor == total_len(text_lens@.take(i as int)),
            out@.len() == stacked_runs(text_lens@.take(i as int)).len(),
            forall|k: int|
                0 <= k < out@.len() ==> {
                    let want = #[trigger] stacked_runs(text_lens@.take(i as int))[k];
                    &&& out@[k].0 == want.0
                    &&& out@[k].1.start == want.1.0
                    &&& out@[k].1.end == want.1.1
                },
        decreases n - i,
    {
        proof {
            assert(text_lens@.take(i + 1).drop_last() =~= text_lens@.take(i as int));
            assert(text_lens@.take(i + 1).last() == text_lens@[i as int]);
            lemma_total_len_prefix_le(text_lens@, i + 1);
        }
        let len = text_lens[i];
        if len != 0 {
            out.push((i, cursor..cursor + len));
        }
        cursor = cursor + len;
        i = i + 1;
    }
    proof {
        assert(text_lens@.take(n as int) =~= text_lens@);
    }
    out
}

/// The first and last display row of each block, when blocks of
/// `row_counts[i]` rows are laid one after another from row 0. A block's last
/// row is the one before the next block's first; for a block with no rows
/// at the very top it is row 0.
pub fn block_row_spans(row_counts: &[usize]) -> (r: Vec<(u32, u32)>)
    requires
        total_len(row_counts@) <= u32::MAX,
    ensures
        r@.len() == row_counts@.len(),
        forall|i: int|
            0 <= i < r@.len() ==> {
                &&& (#[trigger] r@[i]).0 == total_len(row_counts@.take(i))
                &&& r@[i].1 == if total_len(row_counts@.take(i + 1)) == 0 {
                    0
                } else {
                    total_len(row_counts@.take(i + 1)) - 1
                }
            },
{
    let mut out: Vec<(u32, u32)> = Vec::new();
    let n = row_counts.len();
    let mut row: u32 = 0;
    let mut i: usize = 0;
    proof {
        lemma_total_len_prefix_le(row_counts@, 0);
    }
    while i < n
        invariant
            n == row_counts@.len(),
            i <= n,
            total_len(row_counts@) <= u32::MAX,
            row == total_len(row_counts@.take(i as int)),
            out@.len() == i,
            forall|k: int|
                0 <= k < i ==> {
                    &&& (#[trigger] out@[k]).0 == total_len(row_counts@.take(k))
                    &&& out@[k].1 == if total_len(row_counts@.take(k + 1)) == 0 {
                        0
                    } else {
                        total_len(row_counts@.take(k + 1)) - 1
                    }
                },
        decreases n - i,
    {
        proof {
            assert(row_counts@.take(i + 1).drop_last() =~= row_counts@.take(i as int));
            assert(row_counts@.take(i + 1).last() == row_counts@[i as int]);
            lemma_total_len_prefix_le(row_counts@, i + 1);
        }
        let first = row;
        row = row + row_counts[i] as u32;
        let last = if row == 0 { 0 } else { row - 1 };
        out.push((first, last));
        i = i + 1;
    }
    out
}

proof fn lemma_total_len_prefix_le(lens: Seq<usize>, k: int)
    requires
        0 <= k <= lens.len(),
    ensures
        0 <= total_len(lens.take(k)) <= total_len(lens),
    decreases lens.len() - k,
{
    if k < lens.len() {
        lemma_total_len_prefix_le(lens, k + 1);
        assert(lens.take(k + 1).drop_last() =~= lens.take(k));
    } else {
        assert(lens.take(k) =~= lens);
    }
    lemma_total_len_nonneg(lens.take(k));
}

proof fn lemma_total_len_nonneg(lens: Seq<usize>)
    ensures
        total_len(lens) >= 0,
    decreases lens.len(),
{
    if lens.len() > 0 {
        lemma_total_len_nonneg(lens.drop_last());
    }
}


/// Stacked runs are nonempty, lie within the concatenation, and follow one
/// another in order without overlapping, as a line's runs must.
pub proof fn lemma_stacked_runs_ordered(lens: Seq<usize>)
    ensures
        forall|k: int|
            0 <= k < stacked_runs(lens).len() ==> {
                let c = #[trigger] stacked_runs(lens)[k];
                0 <= c.1.0 < c.1.1 <= total_len(lens)
            },
        forall|j: int, k: int|
            0 <= j < k < stacked_runs(lens).len() ==> #[trigger] stacked_runs(lens)[j].1.1
                <= #[trigger] stacked_runs(lens)[k].1.0,
    decreases lens.len(),
{
    if lens.len() > 0 {
        let d = lens.drop_last();
        let before = stacked_runs(d);
        lemma_stacked_runs_ordered(d);
        lemma_total_len_nonneg(d);
        let all = stacked_runs(lens);
        if lens.last() != 0 {
            assert(all == before.push((lens.len() - 1, (total_len(d), total_len(d) + lens.last()))));
            assert forall|k: int| 0 <= k < all.len() implies {
                let c = #[trigger] all[k];
                0 <= c.1.0 < c.1.1 <= total_len(lens)
            } by {
                if k < before.len() {
                    assert(all[k] == before[k]);
                }
            }
            assert forall|j: int, k: int| 0 <= j < k < all.len() implies #[trigger] all[j].1.1
                <= #[trigger] all[k].1.0 by {
                assert(all[j] == before[j]);
                if k < before.len() {
                    assert(all[k] == before[k]);
                }
            }
        }
    }
}

} // verus!
