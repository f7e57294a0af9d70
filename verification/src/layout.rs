//! Which buffer lines a layout pass touches, and how many display rows a
//! line takes when soft-wrapped.

use crate::text::{line_body, line_count_of, TextContent};
use std::collections::HashSet;
use std::ops::Range;
use std::sync::Arc;
use vstd::prelude::*;

verus! {

broadcast use {
    vstd::std_specs::hash::axiom_usize_obeys_hash_table_key_model,
    vstd::std_specs::hash::axiom_random_state_builds_valid_hashers,
    vstd::std_specs::hash::axiom_set_contains_deref_key,
};

/// Buffer lines a view does not show (for example folded regions).
/// Shared, so cloning it is cheap.
#[derive(Clone)]
pub struct HiddenLines(pub Arc<HashSet<usize>>);

impl Default for HiddenLines {
    fn default() -> (r: Self)
        ensures
            r.0@ == Set::<usize>::empty(),
    {
        HiddenLines(Arc::new(HashSet::new()))
    }
}

impl HiddenLines {
    /// The set of hidden lines `lines`.
    pub fn new(lines: HashSet<usize>) -> (r: Self)
        ensures
            r.0@ == lines@,
    {
        HiddenLines(Arc::new(lines))
    }

    /// True when `buffer_line` is shown.
    pub fn is_visible(&self, buffer_line: usize) -> (r: bool)
        ensures
            r == !self.0@.contains(buffer_line),
    {
        !self.0.contains(&buffer_line)
    }
}

/// Display rows line `line` of `t` takes at a wrap budget of `wrap` characters:
/// one without a budget, for lines past the end and for empty lines, else
/// the line's length divided by the budget, rounded up.
pub open spec fn approx_rows(t: Seq<char>, line: int, wrap: Option<usize>) -> int {
    match wrap {
        None => 1,
        Some(budget) => if line >= line_count_of(t) {
            1
        } else {
            let len = line_body(t, line as nat).len();
            if len == 0 { 1 } else { (len + budget - 1) / budget as int }
        },
    }
}

/// [`approx_rows`] as a `u32`, keeping its low 32 bits.
pub open spec fn approx_rows_u32(t: Seq<char>, line: int, wrap: Option<usize>) -> u32 {
    approx_rows(t, line, wrap) as u32
}

/// Cheap approximate display-row count for a buffer line, without shaping.
/// A count past `u32::MAX` keeps its low 32 bits.
pub fn approx_display_rows_for_line<T: TextContent>(buffer: &T, buffer_line: usize, wrap_chars: Option<usize>) -> (r: u32)
    requires
        buffer.text_chars().len() < usize::MAX,
        wrap_chars matches Some(b) ==> b > 0,
    ensures
        r == approx_rows_u32(buffer.text_chars(), buffer_line as int, wrap_chars),
{
    let budget = match wrap_chars {
        Some(b) => b,
        None => return 1,
    };
    if buffer_line >= buffer.line_count() {
        return 1;
    }
    let len = buffer.line_len_chars(buffer_line);
    if len == 0 {
        1
    } else {
        proof {
            crate::text::lemma_line_start_mono(buffer.text_chars(), buffer_line as nat);
            assert(len / budget <= len) by (nonlinear_arith)
                requires budget > 0, len > 0;
        }
        let rows = len / budget + if len % budget == 0 { 0 } else { 1 };
        proof {
            assert((len + budget - 1) / budget as int == len / budget + if len % budget == 0 { 0int } else { 1int }) by (nonlinear_arith)
                requires budget > 0;
            assert(rows <= len) by (nonlinear_arith)
                requires budget > 0, rows == len / budget + if len % budget == 0 { 0int } else { 1int }, len > 0;
        }
        rows as u32
    }
}

/// Rows a line adds to the running display row: its approximate rows when
/// shown, nothing when hidden.
pub open spec fn rows_added(t: Seq<char>, line: int, wrap: Option<usize>, hidden: Option<Set<usize>>) -> int {
    match hidden {
        Some(h) => if h.contains(line as usize) { 0 } else { approx_rows_u32(t, line, wrap) as int },
        None => approx_rows_u32(t, line, wrap) as int,
    }
}

/// Walk lines from `line` with running display row `row`, while lines remain
/// and the row is below `limit` (or at most `limit` when `inclusive`).
/// Yields the line where the walk stops and the row reached.
pub open spec fn walk_rows(
    t: Seq<char>,
    wrap: Option<usize>,
    hidden: Option<Set<usize>>,
    line: int,
    row: int,
    limit: int,
    inclusive: bool,
) -> (int, int)
    decreases line_count_of(t) - line,
{
    if line >= line_count_of(t) || !(if inclusive { row <= limit } else { row < limit }) {
        (line, row)
    } else {
        walk_rows(t, wrap, hidden, line + 1, row + rows_added(t, line, wrap, hidden), limit, inclusive)
    }
}

/// The walk of [`walk_rows`] keeps the running row within `u32`.
pub open spec fn walk_fits(
    t: Seq<char>,
    wrap: Option<usize>,
    hidden: Option<Set<usize>>,
    line: int,
    row: int,
    limit: int,
    inclusive: bool,
) -> bool
    decreases line_count_of(t) - line,
{
    if line >= line_count_of(t) || !(if inclusive { row <= limit } else { row < limit }) {
        true
    } else {
        &&& row + rows_added(t, line, wrap, hidden) <= u32::MAX
        &&& walk_fits(t, wrap, hidden, line + 1, row + rows_added(t, line, wrap, hidden), limit, inclusive)
    }
}

fn walk<T: TextContent>(
    buffer: &T,
    wrap_chars: Option<usize>,
    hidden: Option<&HiddenLines>,
    start_line: usize,
    start_row: u32,
    limit: u32,
    inclusive: bool,
) -> (r: (usize, u32))
    requires
        buffer.text_chars().len() < usize::MAX,
        wrap_chars matches Some(b) ==> b > 0,
        0 <= start_line <= line_count_of(buffer.text_chars()),
        walk_fits(buffer.text_chars(), wrap_chars, match hidden { Some(h) => Some(h.0@), None => None }, start_line as int, start_row as int, limit as int, inclusive),
    ensures
        (r.0 as int, r.1 as int) == walk_rows(buffer.text_chars(), wrap_chars, match hidden { Some(h) => Some(h.0@), None => None }, start_line as int, start_row as int, limit as int, inclusive),
{
    let ghost hs = match hidden { Some(h) => Some(h.0@), None => None };
    let total = buffer.line_count();
    let mut line = start_line;
    let mut row = start_row;
    while line < total && ((inclusive && row <= limit) || (!inclusive && row < limit))
        invariant
            buffer.text_chars().len() < usize::MAX,
            total == line_count_of(buffer.text_chars()),
            wrap_chars matches Some(b) ==> b > 0,
            start_line <= line <= total,
            hs == match hidden { Some(h) => Some(h.0@), None => None },
            walk_rows(buffer.text_chars(), wrap_chars, hs, start_line as int, start_row as int, limit as int, inclusive)
                == walk_rows(buffer.text_chars(), wrap_chars, hs, line as int, row as int, limit as int, inclusive),
            walk_fits(buffer.text_chars(), wrap_chars, hs, line as int, row as int, limit as int, inclusive),
        decreases total - line,
    {
        let shown = match hidden {
            Some(h) => h.is_visible(line),
            None => true,
        };
        if shown {
            let add = approx_display_rows_for_line(buffer, line, wrap_chars);
            row = row + add;
        }
        line = line + 1;
    }
    (line, row)
}

/// The buffer lines `start..end` a layout pass touches for display rows
/// `first_row..=last_row`: `start` is the first line reached once the
/// running display row gets to `first_row`, `end` one past the last line
/// whose first row is at most `last_row`. Hidden lines take no rows.
pub fn visible_line_window<T: TextContent>(
    buffer: &T,
    first_row: u32,
    last_row: u32,
    wrap_chars: Option<usize>,
    hidden: Option<&HiddenLines>,
) -> (r: Range<usize>)
    requires
        buffer.text_chars().len() < usize::MAX,
        wrap_chars matches Some(b) ==> b > 0,
        walk_fits(buffer.text_chars(), wrap_chars, match hidden { Some(h) => Some(h.0@), None => None }, 0, 0, first_row as int, false),
        ({
            let hs = match hidden { Some(h) => Some(h.0@), None => None };
            let first = walk_rows(buffer.text_chars(), wrap_chars, hs, 0, 0, first_row as int, false);
            walk_fits(buffer.text_chars(), wrap_chars, hs, first.0, first.1, last_row as int, true)
        }),
    ensures
        ({
            let hs = match hidden { Some(h) => Some(h.0@), None => None };
            let first = walk_rows(buffer.text_chars(), wrap_chars, hs, 0, 0, first_row as int, false);
            let second = walk_rows(buffer.text_chars(), wrap_chars, hs, first.0, first.1, last_row as int, true);
            r.start == first.0 && r.end == second.0
        }),
{
    let (start, row) = walk(buffer, wrap_chars, hidden, 0, 0, first_row, false);
    proof {
        lemma_walk_stays_in_lines(buffer.text_chars(), wrap_chars, match hidden { Some(h) => Some(h.0@), None => None }, 0, 0, first_row as int, false);
    }
    let (end, _) = walk(buffer, wrap_chars, hidden, start, row, last_row, true);
    start..end
}

proof fn lemma_walk_stays_in_lines(
    t: Seq<char>,
    wrap: Option<usize>,
    hidden: Option<Set<usize>>,
    line: int,
    row: int,
    limit: int,
    inclusive: bool,
)
    requires
        0 <= line <= line_count_of(t),
    ensures
        line <= walk_rows(t, wrap, hidden, line, row, limit, inclusive).0 <= line_count_of(t),
    decreases line_count_of(t) - line,
{
    if line < line_count_of(t) && (if inclusive { row <= limit } else { row < limit }) {
        lemma_walk_stays_in_lines(t, wrap, hidden, line + 1, row + rows_added(t, line, wrap, hidden), limit, inclusive);
    }
}


/// The hidden set of `hidden`, if any.
pub open spec fn hidden_set(hidden: Option<&HiddenLines>) -> Option<Set<usize>> {
    match hidden {
        Some(h) => Some(h.0@),
        None => None,
    }
}

/// Some line before `n` is hidden.
pub open spec fn hidden_before(hidden: Option<Set<usize>>, n: int) -> bool {
    match hidden {
        Some(h) => exists|l: int| 0 <= l < n && #[trigger] h.contains(l as usize),
        None => false,
    }
}

/// Where a layout pass starts for display row `first_row`: without wrap and
/// with no hidden line before it, buffer line `first_row` (at most the line
/// count) at row `first_row`; otherwise the walk of [`walk_rows`] from the
/// top, which stops at the first line reached once the running row gets to
/// `first_row`.
pub open spec fn window_start(t: Seq<char>, wrap: Option<usize>, hidden: Option<Set<usize>>, first_row: int) -> (int, int) {
    let total = line_count_of(t) as int;
    let fast = if first_row < total { first_row } else { total };
    if wrap is Some || hidden_before(hidden, fast) {
        walk_rows(t, wrap, hidden, 0, 0, first_row, false)
    } else {
        (fast, first_row)
    }
}

/// The buffer line and display row where a layout pass for display rows
/// from `first_row` on starts.
pub fn layout_window_start<T: TextContent>(buffer: &T, first_row: u32, wrap_chars: Option<usize>, hidden: Option<&HiddenLines>) -> (r: (usize, u32))
    requires
        buffer.text_chars().len() < usize::MAX,
        wrap_chars matches Some(b) ==> b > 0,
        walk_fits(buffer.text_chars(), wrap_chars, hidden_set(hidden), 0, 0, first_row as int, false),
    ensures
        (r.0 as int, r.1 as int) == window_start(buffer.text_chars(), wrap_chars, hidden_set(hidden), first_row as int),
{
    let total = buffer.line_count();
    let fast = if (first_row as usize) < total { first_row as usize } else { total };
    let mut folding = false;
    if wrap_chars.is_none() {
        match hidden {
            Some(h) => {
                let mut l: usize = 0;
                while l < fast && !folding
                    invariant
                        l <= fast,
                        forall|k: int| 0 <= k < l ==> !(#[trigger] h.0@.contains(k as usize)),
                        folding ==> l < fast && h.0@.contains(l as usize),
                    decreases fast - l + if folding { 0int } else { 1int },
                {
                    if !h.is_visible(l) {
                        folding = true;
                    } else {
                        l = l + 1;
                    }
                }
            },
            None => {},
        }
    }
    if wrap_chars.is_some() || folding {
        walk(buffer, wrap_chars, hidden, 0, 0, first_row, false)
    } else {
        (fast, first_row)
    }
}

/// Number of lines before `n` that are not hidden.
pub open spec fn shown_lines(hidden: Option<Set<usize>>, n: int) -> nat
    decreases n,
{
    if n <= 0 {
        0
    } else {
        shown_lines(hidden, n - 1) + match hidden {
            Some(h) => if h.contains((n - 1) as usize) { 0nat } else { 1nat },
            None => 1nat,
        }
    }
}

/// Display rows the first `n` lines take, hidden ones taking none.
pub open spec fn rows_before(t: Seq<char>, wrap: Option<usize>, hidden: Option<Set<usize>>, n: int) -> int
    decreases n,
{
    if n <= 0 {
        0
    } else {
        rows_before(t, wrap, hidden, n - 1) + rows_added(t, n - 1, wrap, hidden)
    }
}

/// Total display rows of the content: without wrap, the shown lines (a
/// count past `u32::MAX` keeps its low 32 bits); with wrap, the sum of the
/// shown lines' approximate rows.
pub open spec fn total_rows(t: Seq<char>, wrap: Option<usize>, hidden: Option<Set<usize>>) -> int {
    match wrap {
        None => (shown_lines(hidden, line_count_of(t) as int) as u32) as int,
        Some(_) => rows_before(t, wrap, hidden, line_count_of(t) as int),
    }
}

/// Total display rows of `buffer`, as a layout pass reports them.
pub fn total_display_rows<T: TextContent>(buffer: &T, wrap_chars: Option<usize>, hidden: Option<&HiddenLines>) -> (r: u32)
    requires
        buffer.text_chars().len() < usize::MAX,
        wrap_chars matches Some(b) ==> b > 0,
        wrap_chars is Some ==> forall|n: int|
            0 <= n <= line_count_of(buffer.text_chars()) ==> #[trigger] rows_before(buffer.text_chars(), wrap_chars, hidden_set(hidden), n)
                <= u32::MAX,
    ensures
        r == total_rows(buffer.text_chars(), wrap_chars, hidden_set(hidden)),
{
    let ghost hs = hidden_set(hidden);
    let total = buffer.line_count();
    if wrap_chars.is_none() {
        let mut count: usize = 0;
        let mut l: usize = 0;
        while l < total
            invariant
                total == line_count_of(buffer.text_chars()),
                l <= total,
                hs == hidden_set(hidden),
                count == shown_lines(hs, l as int),
                count <= l,
            decreases total - l,
        {
            let shown = match hidden {
                Some(h) => h.is_visible(l),
                None => true,
            };
            if shown {
                count = count + 1;
            }
            l = l + 1;
        }
        count as u32
    } else {
        let mut sum: u32 = 0;
        let mut l: usize = 0;
        while l < total
            invariant
                buffer.text_chars().len() < usize::MAX,
                total == line_count_of(buffer.text_chars()),
                wrap_chars matches Some(b) ==> b > 0,
                wrap_chars is Some,
                l <= total,
                hs == hidden_set(hidden),
                sum == rows_before(buffer.text_chars(), wrap_chars, hs, l as int),
                forall|n: int| 0 <= n <= line_count_of(buffer.text_chars()) ==> #[trigger] rows_before(buffer.text_chars(), wrap_chars, hs, n)
                    <= u32::MAX,
            decreases total - l,
        {
            let shown = match hidden {
                Some(h) => h.is_visible(l),
                None => true,
            };
            if shown {
                let add = approx_display_rows_for_line(buffer, l, wrap_chars);
                proof {
                    assert(rows_before(buffer.text_chars(), wrap_chars, hs, l + 1) <= u32::MAX);
                }
                sum = sum + add;
            }
            l = l + 1;
        }
        sum
    }
}

} // verus!
