//! Content-aware selection expansion: whole words (double-click) and whole
//! lines (triple-click).

use crate::anchor::Anchor;
use crate::selection::{sel_end, sel_reversed, sel_start, Selection, SelectionMode};
use crate::text::{chars_of, line_count_of, line_of_char, line_start, TextContent};
use vstd::prelude::*;

verus! {

/// Default semantic-boundary characters: word breakers, brackets and quotes.
pub const DEFAULT_SEMANTIC_ESCAPE_CHARS: &'static str = ",\u{2502}`|:\"' ()[]{}<>\t";

/// Whether `c` has the Unicode `White_Space` property: the ASCII tab, line
/// feed, vertical tab, form feed, carriage return and space, next line,
/// no-break space, Ogham space mark, the spaces from en quad to hair space,
/// the line and paragraph separators, narrow no-break space, medium
/// mathematical space and ideographic space.
pub open spec fn char_is_whitespace(c: char) -> bool {
    ('\u{0009}' <= c && c <= '\u{000D}') || c == '\u{0020}' || c == '\u{0085}' || c == '\u{00A0}'
        || c == '\u{1680}' || ('\u{2000}' <= c && c <= '\u{200A}') || c == '\u{2028}' || c
        == '\u{2029}' || c == '\u{202F}' || c == '\u{205F}' || c == '\u{3000}'
}

/// Calls `char::is_whitespace`, which std documents as true exactly for
/// characters with the Unicode `White_Space` property; that property's
/// code points are those [`char_is_whitespace`] lists.
#[verifier::external_body]
fn is_whitespace(c: char) -> (r: bool)
    ensures
        r == char_is_whitespace(c),
{
    c.is_whitespace()
}

/// Whether `c` occurs in `s`.
fn str_contains_char(s: &str, c: char) -> (r: bool)
    ensures
        r == s@.contains(c),
{
    let chars = chars_of(s);
    let n = chars.len();
    let mut i: usize = 0;
    while i < n
        invariant
            chars@ == s@,
            n == chars@.len(),
            i <= n,
            forall|k: int| 0 <= k < i ==> chars@[k] != c,
        decreases n - i,
    {
        if chars[i] == c {
            proof {
                assert(s@[i as int] == c);
            }
            return true;
        }
        i = i + 1;
    }
    false
}

/// `c` ends a word: whitespace or one of `escape`.
pub open spec fn boundary_char(c: char, escape: Seq<char>) -> bool {
    char_is_whitespace(c) || escape.contains(c)
}

/// Number of characters at the end of `s` that are not word boundaries.
pub open spec fn trailing_word_len(s: Seq<char>, escape: Seq<char>) -> nat
    decreases s.len(),
{
    if s.len() == 0 || boundary_char(s.last(), escape) {
        0
    } else {
        1 + trailing_word_len(s.drop_last(), escape)
    }
}

/// Number of characters at the start of `s` that are not word boundaries.
pub open spec fn leading_word_len(s: Seq<char>, escape: Seq<char>) -> nat
    decreases s.len(),
{
    if s.len() == 0 || boundary_char(s[0], escape) {
        0
    } else {
        1 + leading_word_len(s.drop_first(), escape)
    }
}

/// Walking left from `offset` over the characters before it, stopping at a
/// boundary: `offset` less the word characters just before it.
pub open spec fn word_start_before(t: Seq<char>, offset: int, escape: Seq<char>) -> int {
    if offset == 0 {
        0
    } else {
        let upto = if offset < t.len() { offset } else { t.len() as int };
        offset - trailing_word_len(t.take(upto), escape)
    }
}

/// Walking right from `offset` to the next boundary, or to the end of the text.
pub open spec fn word_end_after(t: Seq<char>, offset: int, escape: Seq<char>) -> int {
    if offset >= t.len() {
        t.len() as int
    } else {
        offset + leading_word_len(t.skip(offset), escape)
    }
}

/// True when `ch` ends a word: whitespace or one of `escape_chars`.
pub fn is_boundary(ch: char, escape_chars: &str) -> (r: bool)
    ensures
        r == boundary_char(ch, escape_chars@),
{
    is_whitespace(ch) || str_contains_char(escape_chars, ch)
}

proof fn lemma_trailing_word_len_le(s: Seq<char>, escape: Seq<char>)
    ensures
        trailing_word_len(s, escape) <= s.len(),
    decreases s.len(),
{
    if s.len() > 0 {
        lemma_trailing_word_len_le(s.drop_last(), escape);
    }
}

proof fn lemma_leading_word_len_le(s: Seq<char>, escape: Seq<char>)
    ensures
        leading_word_len(s, escape) <= s.len(),
    decreases s.len(),
{
    if s.len() > 0 {
        lemma_leading_word_len_le(s.drop_first(), escape);
    }
}

/// Walk left from `offset` until a boundary character.
fn walk_back_to_boundary<T: TextContent>(content: &T, offset: usize, escape_chars: &str) -> (r: usize)
    ensures
        r == word_start_before(content.text_chars(), offset as int, escape_chars@),
{
    if offset == 0 {
        return 0;
    }
    let ghost t = content.text_chars();
    let ghost esc = escape_chars@;
    let slice = content.slice_chars(0..offset);
    let before = chars_of(slice.as_str());
    let upto = before.len();
    proof {
        let u = if offset < t.len() { offset as int } else { t.len() as int };
        assert(before@ =~= t.take(u));
        lemma_trailing_word_len_le(t.take(upto as int), esc);
    }
    let mut new_offset = offset;
    let mut k = upto;
    while k > 0 && !is_boundary(before[k - 1], escape_chars)
        invariant
            esc == escape_chars@,
            before@ == t.take(upto as int),
            upto <= t.len(),
            upto <= offset,
            k <= upto,
            new_offset == offset - (upto - k),
            trailing_word_len(t.take(upto as int), esc) == (upto - k) + trailing_word_len(
                t.take(k as int),
                esc,
            ),
        decreases k,
    {
        proof {
            assert(t.take(k as int).drop_last() =~= t.take(k - 1));
            assert(t.take(k as int).last() == before@[k - 1]);
            assert(!boundary_char(t.take(k as int).last(), esc));
            assert(trailing_word_len(t.take(k as int), esc) == 1 + trailing_word_len(t.take(k - 1), esc));
        }
        new_offset = new_offset - 1;
        k = k - 1;
    }
    proof {
        if k > 0 {
            assert(t.take(k as int).last() == before@[k - 1]);
            assert(trailing_word_len(t.take(k as int), esc) == 0);
        }
    }
    new_offset
}

/// Walk right from `offset` until a boundary character or the end.
fn walk_forward_to_boundary<T: TextContent>(content: &T, offset: usize, escape_chars: &str) -> (r: usize)
    ensures
        r == word_end_after(content.text_chars(), offset as int, escape_chars@),
        r <= content.text_chars().len() || r == offset,
{
    let len = content.char_count();
    if offset >= len {
        return len;
    }
    let ghost t = content.text_chars();
    let ghost esc = escape_chars@;
    let slice = content.slice_chars(offset..len);
    let after = chars_of(slice.as_str());
    proof {
        assert(after@ =~= t.skip(offset as int));
        lemma_leading_word_len_le(t.skip(offset as int), esc);
    }
    let mut new_offset = offset;
    while new_offset < len && !is_boundary(after[new_offset - offset], escape_chars)
        invariant
            esc == escape_chars@,
            len == t.len(),
            after@ == t.skip(offset as int),
            offset <= new_offset <= len,
            leading_word_len(t.skip(offset as int), esc) == (new_offset - offset) + leading_word_len(
                t.skip(new_offset as int),
                esc,
            ),
        decreases len - new_offset,
    {
        proof {
            assert(t.skip(new_offset as int).drop_first() =~= t.skip(new_offset + 1));
            assert(t.skip(new_offset as int)[0] == after@[new_offset - offset]);
            assert(leading_word_len(t.skip(new_offset as int), esc) == 1 + leading_word_len(
                t.skip(new_offset + 1),
                esc,
            ));
        }
        new_offset = new_offset + 1;
    }
    proof {
        if new_offset == len {
            assert(t.skip(len as int).len() == 0);
        } else {
            assert(t.skip(new_offset as int)[0] == after@[new_offset - offset]);
        }
    }
    new_offset
}

/// `s` expanded to whole words of `t`: the selection after `expand_semantic`.
pub open spec fn expanded_to_words(s: Selection, t: Seq<char>, escape: Seq<char>) -> Selection {
    if t.len() == 0 {
        s
    } else {
        let new_start = word_start_before(t, sel_start(s), escape);
        let we = word_end_after(t, sel_end(s), escape);
        let new_end = if we < t.len() { we } else { t.len() as int };
        let (h, a) = if sel_reversed(s) { (new_start, new_end) } else { (new_end, new_start) };
        Selection {
            head: Anchor { offset: h as usize, ..s.head },
            anchor: Anchor { offset: a as usize, ..s.anchor },
            mode: SelectionMode::Semantic,
            ..s
        }
    }
}

/// `s` expanded to whole lines of `t`: the selection after `expand_to_lines`.
pub open spec fn expanded_to_lines(s: Selection, t: Seq<char>) -> Selection {
    if t.len() == 0 {
        s
    } else {
        let ls = line_start(t, line_of_char(t, sel_start(s)));
        let e = if sel_end(s) < t.len() { sel_end(s) } else { t.len() as int };
        let end_line = line_of_char(t, e);
        let nl: int = if end_line + 1 < line_count_of(t) { (end_line + 1) as int } else { line_count_of(t) as int };
        let nls0 = line_start(t, nl as nat);
        let nls = if nls0 < t.len() { nls0 } else { t.len() as int };
        let (h, a) = if sel_reversed(s) { (ls, nls) } else { (nls, ls) };
        Selection {
            head: Anchor { offset: h as usize, ..s.head },
            anchor: Anchor { offset: a as usize, ..s.anchor },
            mode: SelectionMode::Line,
            ..s
        }
    }
}

impl Selection {
    /// Expand to whole-word boundaries on both ends: walk left from the start
    /// and right from the end until a whitespace or `escape_chars` character
    /// or the content's edge. The mode becomes `Semantic`; the direction stays.
    pub fn expand_semantic<T: TextContent>(&mut self, content: &T, escape_chars: &str)
        ensures
            *final(self) == expanded_to_words(*old(self), content.text_chars(), escape_chars@),
    {
        let len = content.char_count();
        if len == 0 {
            return;
        }
        let (start, end) = self.range();
        let new_start = walk_back_to_boundary(content, start, escape_chars);
        let we = walk_forward_to_boundary(content, end, escape_chars);
        let new_end = if we < len { we } else { len };
        proof {
            lemma_trailing_word_len_le(
                content.text_chars().take(if start < len { start as int } else { len as int }),
                escape_chars@,
            );
        }
        if self.is_reversed() {
            self.head.offset = new_start;
            self.anchor.offset = new_end;
        } else {
            self.head.offset = new_end;
            self.anchor.offset = new_start;
        }
        self.mode = SelectionMode::Semantic;
    }

    /// Expand to whole lines: the start snaps to its line's start, the end to
    /// the start of the following line (so the trailing newline is included).
    /// The mode becomes `Line`; the direction stays.
    pub fn expand_to_lines<T: TextContent>(&mut self, content: &T)
        requires
            content.text_chars().len() < usize::MAX,
        ensures
            *final(self) == expanded_to_lines(*old(self), content.text_chars()),
    {
        let len = content.char_count();
        if len == 0 {
            return;
        }
        let (start, end) = self.range();
        let line_start = content.line_to_char(content.char_to_line(start));
        let e = if end < len { end } else { len };
        let end_line = content.char_to_line(e);
        let count = content.line_count();
        proof {
            crate::text::lemma_line_of_char_lt_count(content.text_chars(), e as int);
        }
        let nl = if end_line + 1 < count { end_line + 1 } else { count };
        let nls0 = content.line_to_char(nl);
        let next_line_start = if nls0 < len { nls0 } else { len };
        if self.is_reversed() {
            self.head.offset = line_start;
            self.anchor.offset = next_line_start;
        } else {
            self.head.offset = next_line_start;
            self.anchor.offset = line_start;
        }
        self.mode = SelectionMode::Line;
    }
}

} // verus!
