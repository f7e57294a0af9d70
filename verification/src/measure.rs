//! Intrinsic text extents in character cells, for sizing a view to its
//! content (`width: auto`).

use crate::text::{chars_of, line_body, line_count_of, line_start, line_text, newlines_before, TextContent};
use vstd::prelude::*;

verus! {

/// Length of the run of characters outside `seps` that ends at position `k` of `t`.
pub open spec fn run_ending_at(t: Seq<char>, k: int, seps: Seq<char>) -> nat
    decreases k,
{
    if k <= 0 || k > t.len() || seps.contains(t[k - 1]) {
        0
    } else {
        1 + run_ending_at(t, k - 1, seps)
    }
}

/// Longest run of characters outside `seps` among the first `k` characters of `t`.
pub open spec fn longest_run(t: Seq<char>, k: int, seps: Seq<char>) -> nat
    decreases k,
{
    if k <= 0 || k > t.len() {
        0
    } else {
        let prev = longest_run(t, k - 1, seps);
        let here = run_ending_at(t, k, seps);
        if prev >= here { prev } else { here }
    }
}

/// Characters that end a line.
pub open spec fn line_breaks() -> Seq<char> {
    seq!['\n']
}

/// Characters at which a line may wrap, and line ends.
pub open spec fn word_breaks() -> Seq<char> {
    seq![' ', '\t', '\n']
}

proof fn lemma_run_le(t: Seq<char>, k: int, seps: Seq<char>)
    requires
        0 <= k <= t.len(),
    ensures
        run_ending_at(t, k, seps) <= k,
        longest_run(t, k, seps) <= k,
    decreases k,
{
    if k > 0 {
        lemma_run_le(t, k - 1, seps);
    }
}

/// No character of `t` at positions `a..b` is one of `seps`.
pub open spec fn run_free_of(t: Seq<char>, a: int, b: int, seps: Seq<char>) -> bool {
    forall|j: int| a <= j < b ==> !seps.contains(#[trigger] t[j])
}

proof fn lemma_run_ending_at_covers(t: Seq<char>, a: int, b: int, seps: Seq<char>)
    requires
        0 <= a <= b <= t.len(),
        run_free_of(t, a, b, seps),
    ensures
        run_ending_at(t, b, seps) >= b - a,
    decreases b - a,
{
    if a < b {
        lemma_run_ending_at_covers(t, a, b - 1, seps);
    }
}

proof fn lemma_run_ending_at_is_run(t: Seq<char>, k: int, seps: Seq<char>)
    requires
        0 <= k <= t.len(),
    ensures
        run_ending_at(t, k, seps) <= k,
        run_free_of(t, k - run_ending_at(t, k, seps), k, seps),
    decreases k,
{
    if k > 0 && !seps.contains(t[k - 1]) {
        lemma_run_ending_at_is_run(t, k - 1, seps);
    }
}

proof fn lemma_longest_run_bounds(t: Seq<char>, k: int, seps: Seq<char>)
    requires
        0 <= k <= t.len(),
    ensures
        forall|a: int, b: int| 0 <= a <= b <= k && run_free_of(t, a, b, seps) ==> longest_run(t, k, seps) >= b - a,
        exists|a: int|
            0 <= a <= a + longest_run(t, k, seps) <= k && #[trigger] run_free_of(t, a, a + longest_run(t, k, seps), seps),
    decreases k,
{
    if k > 0 {
        lemma_longest_run_bounds(t, k - 1, seps);
        lemma_run_ending_at_is_run(t, k, seps);
        assert forall|a: int, b: int| 0 <= a <= b <= k && run_free_of(t, a, b, seps) implies longest_run(t, k, seps) >= b - a by {
            if b == k {
                lemma_run_ending_at_covers(t, a, b, seps);
            }
        }
        let here = run_ending_at(t, k, seps);
        let prev = longest_run(t, k - 1, seps);
        if longest_run(t, k, seps) == here {
            assert(run_free_of(t, k - here, k - here + longest_run(t, k, seps), seps));
        } else {
            let a = choose|a: int| 0 <= a <= a + prev <= k - 1 && #[trigger] run_free_of(t, a, a + prev, seps);
            assert(run_free_of(t, a, a + longest_run(t, k, seps), seps));
        }
    } else {
        assert(longest_run(t, k, seps) == 0);
        assert(run_free_of(t, 0, 0int + longest_run(t, k, seps), seps));
    }
}

/// The longest run of characters outside `seps` in `t` is as long as every
/// stretch of `t` free of `seps`, and as long as one of them.
pub proof fn lemma_longest_run_is_longest(t: Seq<char>, seps: Seq<char>)
    ensures
        forall|a: int, b: int|
            0 <= a <= b <= t.len() && run_free_of(t, a, b, seps) ==> longest_run(t, t.len() as int, seps) >= b - a,
        exists|a: int|
            0 <= a <= a + longest_run(t, t.len() as int, seps) <= t.len() && #[trigger] run_free_of(
                t,
                a,
                a + longest_run(t, t.len() as int, seps),
                seps,
            ),
{
    lemma_longest_run_bounds(t, t.len() as int, seps);
}

proof fn lemma_line_breaks_are_newlines(c: char)
    ensures
        line_breaks().contains(c) <==> c == '\n',
{
    if c == '\n' {
        assert(line_breaks()[0] == c);
    }
}

proof fn lemma_word_breaks_are_blanks(c: char)
    ensures
        word_breaks().contains(c) <==> (c == ' ' || c == '\t' || c == '\n'),
{
    if c == ' ' {
        assert(word_breaks()[0] == c);
    } else if c == '\t' {
        assert(word_breaks()[1] == c);
    } else if c == '\n' {
        assert(word_breaks()[2] == c);
    }
}

/// The body of line `i` is the stretch of `t` from the line's start,
/// holding no `'\n'`.
proof fn lemma_line_body_has_no_newline(t: Seq<char>, i: nat)
    requires
        i < line_count_of(t),
    ensures
        line_start(t, i) + line_body(t, i).len() <= t.len(),
        line_body(t, i) == t.subrange(line_start(t, i), line_start(t, i) + line_body(t, i).len()),
        forall|j: int| line_start(t, i) <= j < line_start(t, i) + line_body(t, i).len() ==> t[j] != '\n',
{
    crate::text::lemma_line_start_mono(t, i);
    crate::text::lemma_first_pos_props_pub(t, i, 0);
    crate::text::lemma_first_pos_props_pub(t, i + 1, 0);
    let s = line_start(t, i);
    let e = line_start(t, i + 1);
    let body = line_body(t, i);
    assert(body =~= t.subrange(s, s + body.len()));
    assert forall|j: int| s <= j < s + body.len() implies t[j] != '\n' by {
        if t[j] == '\n' {
            assert(j + 1 < e || (j + 1 == e && line_text(t, i).last() == '\n'));
            if j + 1 < e {
                if s < t.len() {
                    crate::text::lemma_newlines_before_mono_pub(t, s, j);
                } else {
                    assert(false);
                }
                assert(newlines_before(t, j) >= i);
                assert(newlines_before(t, j + 1) == newlines_before(t, j) + 1);
                assert(newlines_before(t, j + 1) < i + 1);
            }
        }
    }
}

/// Positions `a..b` of `t` hold no `'\n'`.
pub open spec fn no_newline_in(t: Seq<char>, a: int, b: int) -> bool {
    forall|j: int| a <= j < b ==> t[j] != '\n'
}

/// Positions `a..b` of `t` hold no space, tab or `'\n'`.
pub open spec fn no_blank_in(t: Seq<char>, a: int, b: int) -> bool {
    forall|j: int| a <= j < b ==> t[j] != ' ' && t[j] != '\t' && t[j] != '\n'
}

/// Measuring: the max-content width is at least the length of every line
/// (its newline left out) and is the length of some stretch of the text
/// without a newline; the min-content width is at least the length of every
/// stretch without a space, tab or newline, the text's last word included,
/// and is the length of one such stretch.
pub proof fn lemma_intrinsic_widths_measure(t: Seq<char>)
    ensures
        forall|i: nat| i < line_count_of(t) ==> longest_run(t, t.len() as int, line_breaks()) >= (
        #[trigger] line_body(t, i)).len(),
        exists|a: int|
            0 <= a <= a + longest_run(t, t.len() as int, line_breaks()) <= t.len() && #[trigger] no_newline_in(
                t,
                a,
                a + longest_run(t, t.len() as int, line_breaks()),
            ),
        forall|a: int, b: int|
            0 <= a <= b <= t.len() && #[trigger] no_blank_in(t, a, b) ==> longest_run(t, t.len() as int, word_breaks())
                >= b - a,
        exists|a: int|
            0 <= a <= a + longest_run(t, t.len() as int, word_breaks()) <= t.len() && #[trigger] no_blank_in(
                t,
                a,
                a + longest_run(t, t.len() as int, word_breaks()),
            ),
{
    lemma_longest_run_is_longest(t, line_breaks());
    lemma_longest_run_is_longest(t, word_breaks());
    let lmax = longest_run(t, t.len() as int, line_breaks());
    let wmax = longest_run(t, t.len() as int, word_breaks());
    assert forall|i: nat| i < line_count_of(t) implies lmax >= (#[trigger] line_body(t, i)).len() by {
        lemma_line_body_has_no_newline(t, i);
        let s = line_start(t, i);
        crate::text::lemma_first_pos_props_pub(t, i, 0);
        assert forall|j: int| s <= j < s + line_body(t, i).len() implies !line_breaks().contains(#[trigger] t[j]) by {
            lemma_line_breaks_are_newlines(t[j]);
        }
        assert(run_free_of(t, s, s + line_body(t, i).len(), line_breaks()));
    }
    let la = choose|a: int| 0 <= a <= a + lmax <= t.len() && #[trigger] run_free_of(t, a, a + lmax, line_breaks());
    assert forall|j: int| la <= j < la + lmax implies t[j] != '\n' by {
        lemma_line_breaks_are_newlines(t[j]);
    }
    assert(no_newline_in(t, la, la + lmax));
    assert forall|a: int, b: int| 0 <= a <= b <= t.len() && #[trigger] no_blank_in(t, a, b) implies wmax >= b - a by {
        assert forall|j: int| a <= j < b implies !word_breaks().contains(#[trigger] t[j]) by {
            lemma_word_breaks_are_blanks(t[j]);
        }
        assert(run_free_of(t, a, b, word_breaks()));
    }
    let wa = choose|a: int| 0 <= a <= a + wmax <= t.len() && #[trigger] run_free_of(t, a, a + wmax, word_breaks());
    assert forall|j: int| wa <= j < wa + wmax implies t[j] != ' ' && t[j] != '\t' && t[j] != '\n' by {
        lemma_word_breaks_are_blanks(t[j]);
    }
    assert(no_blank_in(t, wa, wa + wmax));
}

/// Approximate intrinsic widths in character cells: the widest line
/// (max-content) and the longest run between spaces or tabs (min-content).
/// A line's trailing newline does not count.
pub fn intrinsic_char_widths<T: TextContent>(content: &T) -> (r: (usize, usize))
    ensures
        r.0 == longest_run(content.text_chars(), content.text_chars().len() as int, line_breaks()),
        r.1 == longest_run(content.text_chars(), content.text_chars().len() as int, word_breaks()),
{
    let ghost t = content.text_chars();
    let n = content.char_count();
    let whole = content.slice_chars(0..n);
    let chars = chars_of(whole.as_str());
    proof {
        assert(chars@ =~= t);
    }
    let mut line_run: usize = 0;
    let mut word_run: usize = 0;
    let mut max_chars: usize = 0;
    let mut min_chars: usize = 0;
    let mut i: usize = 0;
    while i < n
        invariant
            t == content.text_chars(),
            chars@ == t,
            n == t.len(),
            i <= n,
            line_run == run_ending_at(t, i as int, line_breaks()),
            word_run == run_ending_at(t, i as int, word_breaks()),
            max_chars == longest_run(t, i as int, line_breaks()),
            min_chars == longest_run(t, i as int, word_breaks()),
        decreases n - i,
    {
        let c = chars[i];
        proof {
            lemma_run_le(t, i as int, line_breaks());
            lemma_run_le(t, i as int, word_breaks());
            assert(line_breaks().contains(c) == (c == '\n')) by {
                if c == '\n' {
                    assert(line_breaks()[0] == c);
                }
            }
            assert(word_breaks().contains(c) == (c == ' ' || c == '\t' || c == '\n')) by {
                if c == ' ' {
                    assert(word_breaks()[0] == c);
                } else if c == '\t' {
                    assert(word_breaks()[1] == c);
                } else if c == '\n' {
                    assert(word_breaks()[2] == c);
                }
            }
        }
        if c == '\n' {
            line_run = 0;
        } else {
            line_run = line_run + 1;
        }
        if c == ' ' || c == '\t' || c == '\n' {
            word_run = 0;
        } else {
            word_run = word_run + 1;
        }
        if line_run > max_chars {
            max_chars = line_run;
        }
        if word_run > min_chars {
            min_chars = word_run;
        }
        i = i + 1;
    }
    (max_chars, min_chars)
}

} // verus!
