//! The buffer text of styled lines built from `(text, format)` segments:
//! each line is its segments' texts in order, and lines are joined with
//! `'\n'`. Formats stay with the caller, keyed by line index.

use crate::text::{
    first_pos_with_lines, lemma_first_pos_props_pub, line_body, line_count_of, line_start, line_text,
    newlines_before,
};
use vstd::prelude::*;
use vstd::string::StringExecFns;

verus! {

/// The texts of one line's segments, concatenated in order.
pub open spec fn concat_segments(segs: Seq<Seq<char>>) -> Seq<char>
    decreases segs.len(),
{
    if segs.len() == 0 {
        seq![]
    } else {
        concat_segments(segs.drop_last()) + segs.last()
    }
}

/// The buffer text of `lines`: each line's segments concatenated, the lines
/// joined with `'\n'`.
pub open spec fn join_styled_lines(lines: Seq<Seq<Seq<char>>>) -> Seq<char>
    decreases lines.len(),
{
    if lines.len() == 0 {
        seq![]
    } else if lines.len() == 1 {
        concat_segments(lines[0])
    } else {
        join_styled_lines(lines.drop_last()) + seq!['\n'] + concat_segments(lines.last())
    }
}

/// The indices, as `u32`, of the lines that have at least one segment, in
/// increasing order: the lines whose runs get keyed.
pub open spec fn keyed_lines(lines: Seq<Seq<Seq<char>>>) -> Seq<u32>
    decreases lines.len(),
{
    if lines.len() == 0 {
        seq![]
    } else {
        let before = keyed_lines(lines.drop_last());
        if lines.last().len() > 0 {
            before.push((lines.len() - 1) as u32)
        } else {
            before
        }
    }
}

/// The buffer text for lines of segment texts, and the indices of the lines
/// that have segments, whose runs a caller keys to them.
pub fn styled_lines_text(lines: &Vec<Vec<String>>) -> (r: (String, Vec<u32>))
    ensures
        r.0@ == join_styled_lines(lines.deep_view()),
        r.1@ == keyed_lines(lines.deep_view()),
{
    let ghost all = lines.deep_view();
    let mut buffer = String::new();
    let mut keyed: Vec<u32> = Vec::new();
    let n = lines.len();
    let mut i: usize = 0;
    while i < n
        invariant
            n == lines@.len(),
            all == lines.deep_view(),
            all.len() == n,
            i <= n,
            buffer@ == join_styled_lines(all.take(i as int)),
            keyed@ == keyed_lines(all.take(i as int)),
        decreases n - i,
    {
        let ghost before = buffer@;
        if i > 0 {
            buffer.append("\n");
            proof {
                reveal_strlit("\n");
            }
        }
        let ghost line_start = buffer@;
        let segs = &lines[i];
        let m = segs.len();
        let mut j: usize = 0;
        while j < m
            invariant
                m == segs@.len(),
                segs.deep_view() == all[i as int],
                j <= m,
                buffer@ == line_start + concat_segments(all[i as int].take(j as int)),
            decreases m - j,
        {
            buffer.append(segs[j].as_str());
            proof {
                let s = all[i as int];
                assert(s.take(j + 1).drop_last() =~= s.take(j as int));
                assert(s[j as int] == segs[j as int]@);
            }
            j = j + 1;
        }
        if m > 0 {
            keyed.push(i as u32);
        }
        proof {
            assert(all[i as int].take(m as int) =~= all[i as int]);
            assert(all.take(i + 1).drop_last() =~= all.take(i as int));
            if i == 0 {
                assert(before =~= Seq::<char>::empty());
                assert(line_start =~= Seq::<char>::empty());
            }
        }
        i = i + 1;
    }
    proof {
        assert(all.take(n as int) =~= all);
    }
    (buffer, keyed)
}


/// No segment of any line holds a `'\n'`.
pub open spec fn segments_without_newlines(lines: Seq<Seq<Seq<char>>>) -> bool {
    forall|i: int, j: int|
        0 <= i < lines.len() && 0 <= j < lines[i].len() ==> !(#[trigger] lines[i][j]).contains('\n')
}

proof fn lemma_concat_no_newline(segs: Seq<Seq<char>>)
    requires
        forall|j: int| 0 <= j < segs.len() ==> !(#[trigger] segs[j]).contains('\n'),
    ensures
        !concat_segments(segs).contains('\n'),
    decreases segs.len(),
{
    if segs.len() > 0 {
        lemma_concat_no_newline(segs.drop_last());
        let a = concat_segments(segs.drop_last());
        let b = segs.last();
        assert(!b.contains('\n')) by {
            assert(segs[segs.len() - 1] == b);
        }
        if (a + b).contains('\n') {
            let k = choose|k: int| 0 <= k < (a + b).len() && (a + b)[k] == '\n';
            if k < a.len() {
                assert(a[k] == '\n');
            } else {
                assert(b[k - a.len()] == '\n');
            }
        }
    }
}

proof fn lemma_newlines_none(c: Seq<char>, k: int)
    requires
        !c.contains('\n'),
    ensures
        newlines_before(c, k) == 0,
    decreases k,
{
    if k > c.len() {
        lemma_newlines_none(c, c.len() as int);
    } else if k > 0 && c.len() > 0 {
        lemma_newlines_none(c, k - 1);
        if c[k - 1] == '\n' {
            assert(c.contains('\n'));
        }
    }
}

proof fn lemma_newlines_prefix(a: Seq<char>, b: Seq<char>, k: int)
    requires
        0 <= k <= a.len(),
    ensures
        newlines_before(a + b, k) == newlines_before(a, k),
    decreases k,
{
    if k > 0 {
        lemma_newlines_prefix(a, b, k - 1);
        assert((a + b)[k - 1] == a[k - 1]);
    }
}

proof fn lemma_newlines_suffix(a: Seq<char>, b: Seq<char>, k: int)
    requires
        0 <= k <= b.len(),
    ensures
        newlines_before(a + b, a.len() + k) == newlines_before(a, a.len() as int) + newlines_before(b, k),
    decreases k,
{
    if k == 0 {
        lemma_newlines_prefix(a, b, a.len() as int);
    } else {
        lemma_newlines_suffix(a, b, k - 1);
        assert((a + b)[a.len() + k - 1] == b[k - 1]);
    }
}

proof fn lemma_first_pos_is(t: Seq<char>, line: nat, k0: int)
    requires
        0 <= k0 <= t.len(),
        k0 == t.len() || newlines_before(t, k0) >= line,
        forall|k: int| 0 <= k < k0 ==> newlines_before(t, k) < line,
    ensures
        line_start(t, line) == k0,
{
    lemma_first_pos_props_pub(t, line, 0);
    let fp = first_pos_with_lines(t, line, 0);
    if fp < k0 {
        assert(newlines_before(t, fp) >= line);
    }
    if fp > k0 {
        assert(newlines_before(t, k0) < line);
    }
}

/// What the induction over lines keeps: the buffer has one line per styled
/// line, and each line is its segments, followed by `'\n'` but for the last.
spec fn lines_laid_out(lines: Seq<Seq<Seq<char>>>) -> bool {
    let t = join_styled_lines(lines);
    &&& line_count_of(t) == lines.len()
    &&& forall|i: int|
        0 <= i < lines.len() ==> #[trigger] line_text(t, i as nat) == if i < lines.len() - 1 {
            concat_segments(lines[i]) + seq!['\n']
        } else {
            concat_segments(lines[i])
        }
}

proof fn lemma_lines_laid_out(lines: Seq<Seq<Seq<char>>>)
    requires
        lines.len() > 0,
        segments_without_newlines(lines),
    ensures
        lines_laid_out(lines),
    decreases lines.len(),
{
    let t = join_styled_lines(lines);
    let n = lines.len();
    let c = concat_segments(lines[n - 1]);
    assert forall|j: int| 0 <= j < lines[n - 1].len() implies !(#[trigger] lines[n - 1][j]).contains('\n') by {}
    lemma_concat_no_newline(lines[n - 1]);
    if n == 1 {
        assert(t == c);
        assert forall|k: int| 0 <= k <= t.len() implies newlines_before(t, k) == 0 by {
            lemma_newlines_none(c, k);
        }
        lemma_newlines_none(c, t.len() as int);
        lemma_first_pos_is(t, 0, 0);
        lemma_first_pos_is(t, 1, t.len() as int);
        assert(line_text(t, 0) =~= c);
    } else {
        let prev = lines.drop_last();
        assert forall|i: int, j: int| 0 <= i < prev.len() && 0 <= j < prev[i].len() implies !(
        #[trigger] prev[i][j]).contains('\n') by {
            assert(prev[i] == lines[i]);
        }
        lemma_lines_laid_out(prev);
        let tp = join_styled_lines(prev);
        let u = tp + seq!['\n'];
        assert(t == u + c);
        let m = (n - 1) as nat;
        // Newlines: the prefix agrees with `tp`; past the joining '\n' they stay at m.
        assert forall|k: int| 0 <= k <= tp.len() implies newlines_before(t, k) == newlines_before(tp, k) by {
            lemma_newlines_prefix(u, c, k);
            lemma_newlines_prefix(tp, seq!['\n'], k);
        }
        lemma_newlines_suffix(tp, seq!['\n'], 1);
        assert(newlines_before(seq!['\n'], 1) == 1) by {
            let one: Seq<char> = seq!['\n'];
            assert(one[0] == '\n');
            assert(newlines_before(one, 0) == 0);
        }
        assert(newlines_before(tp, tp.len() as int) + 1 == m);
        assert forall|k: int| u.len() <= k <= t.len() implies #[trigger] newlines_before(t, k) == m by {
            lemma_newlines_suffix(u, c, k - u.len());
            lemma_newlines_prefix(tp, seq!['\n'], tp.len() as int);
            lemma_newlines_none(c, k - u.len());
            lemma_newlines_prefix(u, c, u.len() as int);
        }
        assert(line_count_of(t) == n) by {
            lemma_newlines_suffix(u, c, c.len() as int);
            lemma_newlines_none(c, c.len() as int);
        }
        // Line starts: those of `tp` for its lines, then right after the joining '\n', then the end.
        assert forall|i: int| 0 <= i < m implies #[trigger] line_start(t, i as nat) == line_start(tp, i as nat) by {
            lemma_first_pos_props_pub(tp, i as nat, 0);
            let k0 = line_start(tp, i as nat);
            assert(newlines_before(tp, tp.len() as int) == m - 1);
            if k0 == tp.len() {
                assert(newlines_before(t, k0) >= i);
            }
            assert forall|k: int| 0 <= k < k0 implies newlines_before(t, k) < i by {}
            lemma_first_pos_is(t, i as nat, k0);
        }
        assert(line_start(t, m) == u.len()) by {
            assert forall|k: int| 0 <= k < u.len() implies newlines_before(t, k) < m by {
                crate::text::lemma_newlines_before_mono_pub(tp, k, tp.len() as int);
            }
            lemma_first_pos_is(t, m, u.len() as int);
        }
        assert(line_start(t, n as nat) == t.len()) by {
            assert forall|k: int| 0 <= k < t.len() implies newlines_before(t, k) < n by {
                if k <= tp.len() {
                    crate::text::lemma_newlines_before_mono_pub(tp, k, tp.len() as int);
                } else {
                    assert(newlines_before(t, k) == m);
                }
            }
            lemma_first_pos_is(t, n as nat, t.len() as int);
        }
        assert forall|i: int| 0 <= i < n implies #[trigger] line_text(t, i as nat) == if i < n - 1 {
            concat_segments(lines[i]) + seq!['\n']
        } else {
            concat_segments(lines[i])
        } by {
            if i < m {
                assert(prev[i] == lines[i]);
                assert(line_text(tp, i as nat) == if i < m - 1 {
                    concat_segments(prev[i]) + seq!['\n']
                } else {
                    concat_segments(prev[i])
                });
            }
            if i < m - 1 {
                assert(line_start(t, (i + 1) as nat) == line_start(tp, (i + 1) as nat));
                crate::text::lemma_line_start_mono(tp, (i + 1) as nat);
                crate::text::lemma_line_start_mono(tp, i as nat);
                assert forall|k: int| 0 <= k < tp.len() implies #[trigger] t[k] == tp[k] by {
                    assert(u[k] == tp[k]);
                }
                assert(line_text(t, i as nat) =~= line_text(tp, i as nat));
                assert(prev[i] == lines[i]);
            } else if i == m - 1 {
                crate::text::lemma_line_start_mono(tp, i as nat);
                assert(line_start(tp, m) == tp.len()) by {
                    lemma_first_pos_props_pub(tp, m, 0);
                    assert forall|k: int| 0 <= k < tp.len() implies newlines_before(tp, k) < m by {
                        crate::text::lemma_newlines_before_mono_pub(tp, k, tp.len() as int);
                    }
                    lemma_first_pos_is(tp, m, tp.len() as int);
                }
                assert forall|k: int| 0 <= k < tp.len() implies #[trigger] t[k] == tp[k] by {
                    assert(u[k] == tp[k]);
                }
                assert(t[tp.len() as int] == '\n') by {
                    assert(u[tp.len() as int] == '\n');
                }
                assert(line_text(t, i as nat) =~= line_text(tp, i as nat) + seq!['\n']);
                assert(prev[i] == lines[i]);
            } else {
                assert(line_text(t, i as nat) =~= c);
            }
        }
    }
}

/// The buffer text of styled lines has one line per styled line, and each
/// line's text, its `'\n'` aside, is that line's segments in order; so the
/// runs keyed to a line index line up with that line of the buffer. This
/// holds when no segment holds a `'\n'`.
pub proof fn lemma_styled_lines_line_up(lines: Seq<Seq<Seq<char>>>)
    requires
        lines.len() > 0,
        segments_without_newlines(lines),
    ensures
        line_count_of(join_styled_lines(lines)) == lines.len(),
        forall|i: int|
            0 <= i < lines.len() ==> #[trigger] line_body(join_styled_lines(lines), i as nat)
                == concat_segments(lines[i]),
{
    lemma_lines_laid_out(lines);
    let t = join_styled_lines(lines);
    assert forall|i: int| 0 <= i < lines.len() implies #[trigger] line_body(t, i as nat) == concat_segments(lines[i]) by {
        let c = concat_segments(lines[i]);
        assert forall|j: int| 0 <= j < lines[i].len() implies !(#[trigger] lines[i][j]).contains('\n') by {}
        lemma_concat_no_newline(lines[i]);
        let l = line_text(t, i as nat);
        if i < lines.len() - 1 {
            assert(l == c + seq!['\n']);
            assert(l.drop_last() =~= c);
        } else {
            assert(l == c);
            if l.len() > 0 {
                assert(c[c.len() - 1] != '\n') by {
                    if c[c.len() - 1] == '\n' {
                        assert(c.contains('\n'));
                    }
                }
            }
        }
    }
}

} // verus!
