//! Byte mapping between a display row's source text and the text it shows
//! once inline virtual spans (inlay hints, ghost text) are spliced in.

use std::ops::Range;
use vstd::prelude::*;

verus! {

/// Byte ranges of a display row's text that came from virtual spans: text
/// that shapes with the row but is invisible to byte-addressed APIs.
/// Expected sorted and non-overlapping, in row-text byte coordinates.
pub struct VirtualByteRanges {
    pub ranges: Vec<Range<usize>>,
}

/// Ranges that are well formed, sorted and do not overlap (they may touch).
pub open spec fn ranges_sorted_disjoint(rs: Seq<Range<usize>>) -> bool {
    &&& forall|i: int| 0 <= i < rs.len() ==> (#[trigger] rs[i]).start <= rs[i].end
    &&& forall|i: int, j: int| 0 <= i < j < rs.len() ==> (#[trigger] rs[i]).end <= (#[trigger] rs[j]).start
}

/// The concat byte of source byte `source`: walking the ranges in order,
/// each range starting at or before the running position pushes it right by
/// its length; the walk stops at the first range starting after it.
pub open spec fn concat_for_source(rs: Seq<Range<usize>>, source: int) -> int
    decreases rs.len(),
{
    if rs.len() == 0 {
        source
    } else if rs[0].start <= source {
        concat_for_source(rs.drop_first(), source + rs[0].end - rs[0].start)
    } else {
        source
    }
}

/// The walk of [`concat_for_source`] never meets a reversed range nor leaves `usize`.
pub open spec fn concat_fits(rs: Seq<Range<usize>>, source: int) -> bool
    decreases rs.len(),
{
    if rs.len() == 0 {
        true
    } else if rs[0].start <= source {
        rs[0].start <= rs[0].end && source + rs[0].end - rs[0].start <= usize::MAX
            && concat_fits(rs.drop_first(), source + rs[0].end - rs[0].start)
    } else {
        true
    }
}

/// The source byte of concat byte `concat`, starting from `acc`: ranges
/// ending at or before `concat` pull it left by their length; a range holding
/// `concat` snaps it to that range's left edge and ends the walk.
pub open spec fn source_for_concat(rs: Seq<Range<usize>>, concat: int, acc: int) -> int
    decreases rs.len(),
{
    if rs.len() == 0 {
        acc
    } else if rs[0].end <= concat {
        source_for_concat(rs.drop_first(), concat, acc - (rs[0].end - rs[0].start))
    } else if rs[0].start <= concat {
        acc - (concat - rs[0].start)
    } else {
        acc
    }
}

/// The walk of [`source_for_concat`] never goes below zero nor meets a reversed range.
pub open spec fn source_fits(rs: Seq<Range<usize>>, concat: int, acc: int) -> bool
    decreases rs.len(),
{
    if rs.len() == 0 {
        true
    } else if rs[0].end <= concat {
        rs[0].start <= rs[0].end && acc - (rs[0].end - rs[0].start) >= 0 && source_fits(
            rs.drop_first(),
            concat,
            acc - (rs[0].end - rs[0].start),
        )
    } else if rs[0].start <= concat {
        acc - (concat - rs[0].start) >= 0
    } else {
        true
    }
}

/// Index of the first range holding `concat`; `rs.len()` when none does.
pub open spec fn first_range_holding(rs: Seq<Range<usize>>, concat: int) -> nat
    decreases rs.len(),
{
    if rs.len() == 0 {
        0
    } else if rs[0].start <= concat && concat < rs[0].end {
        0
    } else {
        1 + first_range_holding(rs.drop_first(), concat)
    }
}

proof fn lemma_first_range_holding_props(rs: Seq<Range<usize>>, c: int)
    ensures
        first_range_holding(rs, c) <= rs.len(),
        forall|j: int|
            0 <= j < first_range_holding(rs, c) ==> !(rs[j].start <= c && c < rs[j].end),
        first_range_holding(rs, c) < rs.len() ==> rs[first_range_holding(rs, c) as int].start <= c
            && c < rs[first_range_holding(rs, c) as int].end,
    decreases rs.len(),
{
    if rs.len() > 0 && !(rs[0].start <= c && c < rs[0].end) {
        lemma_first_range_holding_props(rs.drop_first(), c);
        assert forall|j: int| 0 < j < rs.len() implies rs[j] == rs.drop_first()[j - 1] by {}
    }
}

impl VirtualByteRanges {
    /// The concat byte (a position in the row's text, runs and glyphs) of a
    /// source byte (one the cursor can occupy): each virtual range starting
    /// at or before the running position shifts it right by its length.
    pub fn concat_byte_for_source_byte(&self, source_byte: usize) -> (r: usize)
        requires
            concat_fits(self.ranges@, source_byte as int),
        ensures
            r == concat_for_source(self.ranges@, source_byte as int),
    {
        let n = self.ranges.len();
        let mut concat = source_byte;
        let mut i: usize = 0;
        proof {
            assert(self.ranges@.skip(0) =~= self.ranges@);
        }
        while i < n && self.ranges[i].start <= concat
            invariant
                n == self.ranges@.len(),
                i <= n,
                concat_for_source(self.ranges@, source_byte as int) == concat_for_source(
                    self.ranges@.skip(i as int),
                    concat as int,
                ),
                concat_fits(self.ranges@.skip(i as int), concat as int),
            decreases n - i,
        {
            proof {
                assert(self.ranges@.skip(i as int).drop_first() =~= self.ranges@.skip(i + 1));
                assert(self.ranges@.skip(i as int)[0] == self.ranges@[i as int]);
            }
            concat = concat + (self.ranges[i].end - self.ranges[i].start);
            i = i + 1;
        }
        proof {
            if i < n {
                assert(self.ranges@.skip(i as int)[0] == self.ranges@[i as int]);
            }
        }
        concat
    }

    /// The source byte of a concat byte. A concat byte inside a virtual
    /// range snaps to the source byte at that range's edge; the same source
    /// byte sits at both edges, so `snap_right` does not change the result.
    pub fn source_byte_for_concat_byte(&self, concat_byte: usize, snap_right: bool) -> (r: usize)
        requires
            source_fits(self.ranges@, concat_byte as int, concat_byte as int),
        ensures
            r == source_for_concat(self.ranges@, concat_byte as int, concat_byte as int),
    {
        let n = self.ranges.len();
        let mut source = concat_byte;
        let mut i: usize = 0;
        proof {
            assert(self.ranges@.skip(0) =~= self.ranges@);
        }
        while i < n
            invariant
                n == self.ranges@.len(),
                i <= n,
                source_for_concat(self.ranges@, concat_byte as int, concat_byte as int)
                    == source_for_concat(self.ranges@.skip(i as int), concat_byte as int, source as int),
                source_fits(self.ranges@.skip(i as int), concat_byte as int, source as int),
            decreases n - i,
        {
            let range = &self.ranges[i];
            proof {
                assert(self.ranges@.skip(i as int).drop_first() =~= self.ranges@.skip(i + 1));
                assert(self.ranges@.skip(i as int)[0] == self.ranges@[i as int]);
            }
            if range.end <= concat_byte {
                source = source - (range.end - range.start);
            } else if range.start <= concat_byte {
                source = source - (concat_byte - range.start);
                return source;
            } else {
                return source;
            }
            i = i + 1;
        }
        source
    }

    /// The virtual range holding `concat_byte`, if any, in concat coordinates.
    pub fn virtual_range_at_concat_byte(&self, concat_byte: usize) -> (r: Option<Range<usize>>)
        ensures
            first_range_holding(self.ranges@, concat_byte as int) < self.ranges@.len() ==> r
                == Some(self.ranges@[first_range_holding(self.ranges@, concat_byte as int) as int]),
            first_range_holding(self.ranges@, concat_byte as int) == self.ranges@.len() ==> r is None,
    {
        let n = self.ranges.len();
        let mut i: usize = 0;
        proof {
            lemma_first_range_holding_props(self.ranges@, concat_byte as int);
        }
        while i < n
            invariant
                n == self.ranges@.len(),
                i <= n,
                i <= first_range_holding(self.ranges@, concat_byte as int),
                first_range_holding(self.ranges@, concat_byte as int) <= n,
                forall|j: int|
                    0 <= j < first_range_holding(self.ranges@, concat_byte as int) ==> !(
                    self.ranges@[j].start <= concat_byte && concat_byte < self.ranges@[j].end),
                first_range_holding(self.ranges@, concat_byte as int) < n ==> self.ranges@[
                    first_range_holding(self.ranges@, concat_byte as int) as int].start <= concat_byte
                    && concat_byte < self.ranges@[first_range_holding(
                    self.ranges@,
                    concat_byte as int,
                ) as int].end,
            decreases n - i,
        {
            let start = self.ranges[i].start;
            let end = self.ranges[i].end;
            if start <= concat_byte && concat_byte < end {
                return Some(start..end);
            }
            i = i + 1;
        }
        None
    }
}


proof fn lemma_concat_for_source_grows(rs: Seq<Range<usize>>, p: int)
    requires
        concat_fits(rs, p),
    ensures
        concat_for_source(rs, p) >= p,
    decreases rs.len(),
{
    if rs.len() > 0 && rs[0].start <= p {
        lemma_concat_for_source_grows(rs.drop_first(), p + rs[0].end - rs[0].start);
    }
}

proof fn lemma_source_undoes_concat_from(rs: Seq<Range<usize>>, p: int, acc: int)
    requires
        forall|i: int| 0 <= i < rs.len() ==> (#[trigger] rs[i]).start <= rs[i].end,
        concat_fits(rs, p),
        acc - (concat_for_source(rs, p) - p) >= 0,
    ensures
        source_fits(rs, concat_for_source(rs, p), acc),
        source_for_concat(rs, concat_for_source(rs, p), acc) == acc - (concat_for_source(rs, p) - p),
    decreases rs.len(),
{
    if rs.len() > 0 && rs[0].start <= p {
        let len0 = rs[0].end - rs[0].start;
        let p2 = p + len0;
        lemma_concat_for_source_grows(rs.drop_first(), p2);
        assert forall|i: int| 0 <= i < rs.drop_first().len() implies (#[trigger] rs.drop_first()[i]).start
            <= rs.drop_first()[i].end by {
            assert(rs.drop_first()[i] == rs[i + 1]);
        }
        lemma_source_undoes_concat_from(rs.drop_first(), p2, acc - len0);
        let c = concat_for_source(rs, p);
        assert(c == concat_for_source(rs.drop_first(), p2));
        assert(rs[0].end <= c);
    } else if rs.len() > 0 {
        assert(rs[0].start <= rs[0].end);
    }
}

/// Mapping a source byte to its concat byte and back gives the source byte
/// again, whenever the forward mapping is defined.
pub proof fn lemma_source_of_concat_roundtrip(rs: Seq<Range<usize>>, source: int)
    requires
        source >= 0,
        forall|i: int| 0 <= i < rs.len() ==> (#[trigger] rs[i]).start <= rs[i].end,
        concat_fits(rs, source),
    ensures
        source_fits(rs, concat_for_source(rs, source), concat_for_source(rs, source)),
        source_for_concat(rs, concat_for_source(rs, source), concat_for_source(rs, source)) == source,
{
    lemma_source_undoes_concat_from(rs, source, concat_for_source(rs, source));
}


proof fn lemma_source_fits_from(rs: Seq<Range<usize>>, c: int, acc: int, lo: int)
    requires
        ranges_sorted_disjoint(rs),
        forall|i: int| 0 <= i < rs.len() ==> lo <= (#[trigger] rs[i]).start,
        acc >= c - lo,
    ensures
        source_fits(rs, c, acc),
    decreases rs.len(),
{
    if rs.len() > 0 && rs[0].end <= c {
        let t = rs.drop_first();
        assert forall|i: int| 0 <= i < t.len() implies rs[0].end <= (#[trigger] t[i]).start by {
            assert(t[i] == rs[i + 1]);
        }
        assert(ranges_sorted_disjoint(t)) by {
            assert forall|i: int| 0 <= i < t.len() implies (#[trigger] t[i]).start <= t[i].end by {
                assert(t[i] == rs[i + 1]);
            }
            assert forall|i: int, j: int| 0 <= i < j < t.len() implies (#[trigger] t[i]).end <= (
            #[trigger] t[j]).start by {
                assert(t[i] == rs[i + 1]);
                assert(t[j] == rs[j + 1]);
            }
        }
        lemma_source_fits_from(t, c, acc - (rs[0].end - rs[0].start), rs[0].end as int);
    }
}

/// For sorted, non-overlapping virtual ranges, mapping any concat byte back
/// to a source byte is always defined: the running position never drops below zero.
pub proof fn lemma_sorted_ranges_source_fits(rs: Seq<Range<usize>>, concat: int)
    requires
        ranges_sorted_disjoint(rs),
    ensures
        source_fits(rs, concat, concat),
{
    lemma_source_fits_from(rs, concat, concat, 0);
}

/// The bytes of range `r` that lie before byte `c`.
pub open spec fn bytes_before(r: Range<usize>, c: int) -> int {
    if r.start >= c || r.start >= r.end {
        0
    } else if r.end <= c {
        r.end - r.start
    } else {
        c - r.start
    }
}

/// The virtual bytes before concat byte `c`: those of every range of `rs`.
pub open spec fn virtual_bytes_before(rs: Seq<Range<usize>>, c: int) -> int
    decreases rs.len(),
{
    if rs.len() == 0 {
        0
    } else {
        bytes_before(rs[0], c) + virtual_bytes_before(rs.drop_first(), c)
    }
}

proof fn lemma_sorted_tail(rs: Seq<Range<usize>>)
    requires
        ranges_sorted_disjoint(rs),
        rs.len() > 0,
    ensures
        ranges_sorted_disjoint(rs.drop_first()),
        forall|i: int| 0 <= i < rs.drop_first().len() ==> rs[0].end <= (#[trigger] rs.drop_first()[i]).start,
{
    let t = rs.drop_first();
    assert forall|i: int| 0 <= i < t.len() implies rs[0].end <= (#[trigger] t[i]).start by {
        assert(t[i] == rs[i + 1]);
    }
    assert forall|i: int| 0 <= i < t.len() implies (#[trigger] t[i]).start <= t[i].end by {
        assert(t[i] == rs[i + 1]);
    }
    assert forall|i: int, j: int| 0 <= i < j < t.len() implies (#[trigger] t[i]).end <= (
    #[trigger] t[j]).start by {
        assert(t[i] == rs[i + 1]);
        assert(t[j] == rs[j + 1]);
    }
}

proof fn lemma_no_virtual_bytes_before(rs: Seq<Range<usize>>, c: int)
    requires
        forall|i: int| 0 <= i < rs.len() ==> c <= (#[trigger] rs[i]).start,
    ensures
        virtual_bytes_before(rs, c) == 0,
    decreases rs.len(),
{
    if rs.len() > 0 {
        let t = rs.drop_first();
        assert forall|i: int| 0 <= i < t.len() implies c <= (#[trigger] t[i]).start by {
            assert(t[i] == rs[i + 1]);
        }
        lemma_no_virtual_bytes_before(t, c);
    }
}

proof fn lemma_source_for_concat_direct(rs: Seq<Range<usize>>, c: int, acc: int)
    requires
        ranges_sorted_disjoint(rs),
    ensures
        source_for_concat(rs, c, acc) == acc - virtual_bytes_before(rs, c),
    decreases rs.len(),
{
    if rs.len() > 0 {
        let t = rs.drop_first();
        lemma_sorted_tail(rs);
        if rs[0].end <= c {
            lemma_source_for_concat_direct(t, c, acc - (rs[0].end - rs[0].start));
        } else {
            assert forall|i: int| 0 <= i < t.len() implies c <= (#[trigger] t[i]).start by {
                assert(rs[0].end <= t[i].start);
            }
            lemma_no_virtual_bytes_before(t, c);
        }
    }
}

/// For sorted, non-overlapping virtual ranges, the source byte of a concat
/// byte is that concat byte less the virtual bytes before it.
pub proof fn lemma_source_is_concat_less_virtual(rs: Seq<Range<usize>>, concat: int)
    requires
        ranges_sorted_disjoint(rs),
    ensures
        source_for_concat(rs, concat, concat) == concat - virtual_bytes_before(rs, concat),
{
    lemma_source_for_concat_direct(rs, concat, concat);
}

/// For sorted, non-overlapping virtual ranges, the concat byte of a source
/// byte lies inside no virtual range, and exactly that source byte's worth
/// of non-virtual bytes comes before it.
pub proof fn lemma_concat_lies_outside_virtual(rs: Seq<Range<usize>>, source: int)
    requires
        ranges_sorted_disjoint(rs),
        concat_fits(rs, source),
    ensures
        forall|i: int|
            0 <= i < rs.len() ==> !((#[trigger] rs[i]).start <= concat_for_source(rs, source)
                < rs[i].end),
        concat_for_source(rs, source) - virtual_bytes_before(rs, concat_for_source(rs, source)) == source,
    decreases rs.len(),
{
    let c = concat_for_source(rs, source);
    if rs.len() > 0 {
        let t = rs.drop_first();
        lemma_sorted_tail(rs);
        if rs[0].start <= source {
            let p2 = source + rs[0].end - rs[0].start;
            lemma_concat_lies_outside_virtual(t, p2);
            lemma_concat_for_source_grows(t, p2);
            assert(c == concat_for_source(t, p2));
            assert forall|i: int| 0 <= i < rs.len() implies !((#[trigger] rs[i]).start <= c < rs[i].end) by {
                if i > 0 {
                    assert(rs[i] == t[i - 1]);
                }
            }
        } else {
            assert forall|i: int| 0 <= i < rs.len() implies source <= (#[trigger] rs[i]).start by {
                if i > 0 {
                    assert(rs[i] == t[i - 1]);
                }
            }
            lemma_no_virtual_bytes_before(rs, source);
        }
    }
}

} // verus!
