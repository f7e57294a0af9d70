//! Text content seen as lines of characters, following the rope convention:
//! a line includes its trailing `'\n'`, and a text ending in `'\n'` has a
//! last, empty line.

use vstd::prelude::*;
use vstd::std_specs::convert::IntoSpec;

verus! {

/// Appends `c` to `s` with `String::push`, which the standard library
/// documents as appending the character to the end of the string.
#[verifier::external_body]
pub(crate) fn push_char(s: &mut String, c: char)
    ensures
        final(s)@ == old(s)@.push(c),
{
    s.push(c)
}

/// The characters of `s`, in order.
pub fn chars_of(s: &str) -> (r: Vec<char>)
    ensures
        r@ == s@,
{
    let mut out: Vec<char> = Vec::new();
    for c in it: s.chars()
        invariant
            out@ == it.seq().take(it.index() as int),
    {
        out.push(c);
    }
    out
}


/// Number of `'\n'` among the first `k` characters of `t`.
pub open spec fn newlines_before(t: Seq<char>, k: int) -> nat
    decreases k,
{
    if k <= 0 || t.len() == 0 {
        0
    } else if k > t.len() {
        newlines_before(t, t.len() as int)
    } else {
        newlines_before(t, k - 1) + if t[k - 1] == '\n' { 1nat } else { 0nat }
    }
}

/// Number of lines of `t`: one more than its newlines.
pub open spec fn line_count_of(t: Seq<char>) -> nat {
    newlines_before(t, t.len() as int) + 1
}

/// First position `k >= from` (up to `t.len()`) with at least `line`
/// newlines before it; `t.len()` when there is none.
pub open spec fn first_pos_with_lines(t: Seq<char>, line: nat, from: int) -> int
    decreases t.len() - from,
{
    if from >= t.len() || newlines_before(t, from) >= line {
        if from >= t.len() { t.len() as int } else { from }
    } else {
        first_pos_with_lines(t, line, from + 1)
    }
}

/// Character offset where line `line` begins; `t.len()` when `line` is past the last line.
pub open spec fn line_start(t: Seq<char>, line: nat) -> int {
    first_pos_with_lines(t, line, 0)
}

/// Line `i` of `t`, with its trailing `'\n'` when it has one; empty past the last line.
pub open spec fn line_text(t: Seq<char>, i: nat) -> Seq<char> {
    t.subrange(line_start(t, i), line_start(t, i + 1))
}

/// Line `i` of `t` without its trailing `'\n'`.
pub open spec fn line_body(t: Seq<char>, i: nat) -> Seq<char> {
    let l = line_text(t, i);
    if l.len() > 0 && l.last() == '\n' { l.drop_last() } else { l }
}

/// The line that holds character offset `ch`; the last line for offsets at or past the end.
pub open spec fn line_of_char(t: Seq<char>, ch: int) -> nat {
    if ch < t.len() { newlines_before(t, ch) } else { newlines_before(t, t.len() as int) }
}

/// The characters `range.start..range.end` of `t`, with both ends clamped to the text.
pub open spec fn clamped_slice(t: Seq<char>, start: int, end: int) -> Seq<char> {
    let s = if start < t.len() { start } else { t.len() as int };
    let e0 = if end < t.len() { end } else { t.len() as int };
    let e = if e0 < s { s } else { e0 };
    t.subrange(s, e)
}

proof fn lemma_newlines_before_step(t: Seq<char>, k: int)
    requires
        0 <= k < t.len(),
    ensures
        newlines_before(t, k + 1) == newlines_before(t, k) + if t[k] == '\n' { 1nat } else { 0nat },
{
}

proof fn lemma_newlines_before_mono(t: Seq<char>, a: int, b: int)
    requires
        0 <= a <= b <= t.len(),
    ensures
        newlines_before(t, a) <= newlines_before(t, b),
        newlines_before(t, b) <= newlines_before(t, a) + (b - a),
    decreases b - a,
{
    if a < b {
        lemma_newlines_before_mono(t, a, b - 1);
    }
}

proof fn lemma_first_pos_props(t: Seq<char>, line: nat, from: int)
    requires
        0 <= from <= t.len(),
    ensures
        from <= first_pos_with_lines(t, line, from) <= t.len(),
        forall|k: int| from <= k < first_pos_with_lines(t, line, from) ==> newlines_before(t, k) < line,
        first_pos_with_lines(t, line, from) < t.len() ==> newlines_before(
            t,
            first_pos_with_lines(t, line, from),
        ) >= line,
    decreases t.len() - from,
{
    if from < t.len() && newlines_before(t, from) < line {
        lemma_first_pos_props(t, line, from + 1);
    }
}

/// Text content queried by lines and characters, following the rope
/// convention: a line includes its trailing `'\n'`, and content ending in
/// `'\n'` has a last, empty line. Implement it on any type that backs a
/// text view.
pub trait TextContent {
    /// The content's characters.
    spec fn text_chars(&self) -> Seq<char>;

    /// Total number of lines, counting a last empty line after a trailing `'\n'`.
    fn line_count(&self) -> (r: usize)
        requires
            self.text_chars().len() < usize::MAX,
        ensures
            r == line_count_of(self.text_chars()),
    ;

    /// Line `i`, with its trailing `'\n'` when it has one; empty past the last line.
    fn line(&self, i: usize) -> (r: String)
        ensures
            r@ == line_text(self.text_chars(), i as nat),
    ;

    /// Number of characters of line `i`, its trailing `'\n'` excluded.
    fn line_len_chars(&self, i: usize) -> (r: usize)
        ensures
            r == line_body(self.text_chars(), i as nat).len(),
    ;

    /// The whole content as one `&str`, when it is stored contiguously.
    fn as_contiguous_str(&self) -> (r: Option<&str>)
        ensures
            r matches Some(s) ==> s@ == self.text_chars(),
    ;

    /// Total number of characters, newlines included.
    fn char_count(&self) -> (r: usize)
        ensures
            r == self.text_chars().len(),
    ;

    /// Offset where line `line` begins; the character count when `line` is
    /// past the last line.
    fn line_to_char(&self, line: usize) -> (r: usize)
        ensures
            r == line_start(self.text_chars(), line as nat),
    ;

    /// The line holding offset `ch`; the last line for offsets at or past the end.
    fn char_to_line(&self, ch: usize) -> (r: usize)
        ensures
            r == line_of_char(self.text_chars(), ch as int),
    ;

    /// Characters `range.start..range.end`, both ends clamped to the text.
    fn slice_chars(&self, range: std::ops::Range<usize>) -> (r: String)
        ensures
            r@ == clamped_slice(self.text_chars(), range.start as int, range.end as int),
    ;
}

/// Text content as a sequence of characters, queried by lines: the
/// characters of a `String`, held where they can be indexed.
pub(crate) struct CharText {
    chars: Vec<char>,
}

impl View for CharText {
    type V = Seq<char>;

    closed spec fn view(&self) -> Seq<char> {
        self.chars@
    }
}

impl CharText {
    /// The characters of `text`.
    pub(crate) fn new(text: &str) -> (r: Self)
        ensures
            r@ == text@,
    {
        CharText { chars: chars_of(text) }
    }

    fn slice_between(&self, start: usize, end: usize) -> (r: String)
        requires
            start <= end <= self@.len(),
        ensures
            r@ == self@.subrange(start as int, end as int),
    {
        let mut out = String::new();
        let mut i: usize = start;
        while i < end
            invariant
                start <= i <= end,
                end <= self.chars@.len(),
                out@ == self.chars@.subrange(start as int, i as int),
            decreases end - i,
        {
            push_char(&mut out, self.chars[i]);
            proof {
                assert(self.chars@.subrange(start as int, i + 1) =~= self.chars@.subrange(
                    start as int,
                    i as int,
                ).push(self.chars@[i as int]));
            }
            i = i + 1;
        }
        out
    }
}

impl TextContent for CharText {
    open spec fn text_chars(&self) -> Seq<char> {
        self@
    }

    fn line_count(&self) -> (r: usize)
    {
        let n = self.chars.len();
        let mut count: usize = 0;
        let mut i: usize = 0;
        while i < n
            invariant
                n == self.chars@.len(),
                i <= n,
                count == newlines_before(self.chars@, i as int),
                count <= i,
            decreases n - i,
        {
            proof {
                lemma_newlines_before_step(self.chars@, i as int);
            }
            if self.chars[i] == '\n' {
                count = count + 1;
            }
            i = i + 1;
        }
        count + 1
    }

    fn char_count(&self) -> (r: usize)
    {
        self.chars.len()
    }

    fn line_to_char(&self, line: usize) -> (r: usize)
    {
        let n = self.chars.len();
        let ghost t = self.chars@;
        let mut pos: usize = 0;
        let mut seen: usize = 0;
        proof {
            lemma_first_pos_props(t, line as nat, 0);
        }
        while pos < n && seen < line
            invariant
                n == t.len(),
                t == self.chars@,
                pos <= n,
                seen == newlines_before(t, pos as int),
                pos <= line_start(t, line as nat),
                line_start(t, line as nat) <= n,
                forall|k: int| 0 <= k < line_start(t, line as nat) ==> newlines_before(t, k) < line,
                line_start(t, line as nat) < n ==> newlines_before(t, line_start(t, line as nat))
                    >= line,
            decreases n - pos,
        {
            proof {
                lemma_newlines_before_step(t, pos as int);
                lemma_newlines_before_mono(t, 0, pos as int);
            }
            if self.chars[pos] == '\n' {
                seen = seen + 1;
            }
            pos = pos + 1;
        }
        pos
    }

    fn char_to_line(&self, ch: usize) -> (r: usize)
    {
        let n = self.chars.len();
        let upper = if ch < n { ch } else { n };
        let mut count: usize = 0;
        let mut i: usize = 0;
        while i < upper
            invariant
                n == self.chars@.len(),
                upper <= n,
                i <= upper,
                count == newlines_before(self.chars@, i as int),
                count <= i,
            decreases upper - i,
        {
            proof {
                lemma_newlines_before_step(self.chars@, i as int);
            }
            if self.chars[i] == '\n' {
                count = count + 1;
            }
            i = i + 1;
        }
        count
    }

    fn line(&self, i: usize) -> (r: String)
    {
        let start = self.line_to_char(i);
        let end = if i < usize::MAX { self.line_to_char(i + 1) } else { self.chars.len() };
        proof {
            let t = self@;
            lemma_first_pos_props(t, i as nat, 0);
            if i == usize::MAX {
                lemma_first_pos_props(t, (i + 1) as nat, 0);
                let fp = line_start(t, (i + 1) as nat);
                lemma_newlines_before_mono(t, 0, fp);
                assert(fp == t.len());
            }
            lemma_line_start_mono(t, i as nat);
        }
        self.slice_between(start, end)
    }

    fn line_len_chars(&self, i: usize) -> (r: usize)
    {
        let start = self.line_to_char(i);
        let end = if i < usize::MAX { self.line_to_char(i + 1) } else { self.chars.len() };
        proof {
            let t = self@;
            lemma_first_pos_props(t, i as nat, 0);
            if i == usize::MAX {
                lemma_first_pos_props(t, (i + 1) as nat, 0);
                let fp = line_start(t, (i + 1) as nat);
                lemma_newlines_before_mono(t, 0, fp);
                assert(fp == t.len());
            }
            lemma_line_start_mono(t, i as nat);
        }
        if end > start && self.chars[end - 1] == '\n' {
            end - start - 1
        } else {
            end - start
        }
    }

    fn slice_chars(&self, range: std::ops::Range<usize>) -> (r: String)
    {
        let total = self.chars.len();
        let start = if range.start < total { range.start } else { total };
        let end0 = if range.end < total { range.end } else { total };
        let end = if end0 < start { start } else { end0 };
        self.slice_between(start, end)
    }

    fn as_contiguous_str(&self) -> (r: Option<&str>) {
        None
    }
}

/// A simple string-backed text content, for labels and other short text
/// that needs no rope.
#[derive(Debug)]
pub struct TextSpan(pub String);

impl View for TextSpan {
    type V = Seq<char>;

    open spec fn view(&self) -> Seq<char> {
        self.0@
    }
}

impl Clone for TextSpan {
    fn clone(&self) -> (r: Self)
        ensures
            r == *self,
    {
        TextSpan(self.0.clone())
    }
}

impl Default for TextSpan {
    fn default() -> (r: Self)
        ensures
            r@ == Seq::<char>::empty(),
    {
        TextSpan(String::new())
    }
}

impl TextSpan {
    /// The content `text.into()`.
    pub fn new<S: Into<String>>(text: S) -> (r: Self)
        ensures
            S::obeys_into_spec() ==> r.0 == text.into_spec(),
    {
        TextSpan(text.into())
    }
}

impl TextContent for TextSpan {
    open spec fn text_chars(&self) -> Seq<char> {
        self.0@
    }

    fn line_count(&self) -> (r: usize) {
        CharText::new(self.0.as_str()).line_count()
    }

    fn line(&self, i: usize) -> (r: String) {
        CharText::new(self.0.as_str()).line(i)
    }

    fn line_len_chars(&self, i: usize) -> (r: usize) {
        CharText::new(self.0.as_str()).line_len_chars(i)
    }

    fn as_contiguous_str(&self) -> (r: Option<&str>)
        ensures
            r is None,
    {
        None
    }

    fn char_count(&self) -> (r: usize) {
        CharText::new(self.0.as_str()).char_count()
    }

    fn line_to_char(&self, line: usize) -> (r: usize) {
        CharText::new(self.0.as_str()).line_to_char(line)
    }

    fn char_to_line(&self, ch: usize) -> (r: usize) {
        CharText::new(self.0.as_str()).char_to_line(ch)
    }

    fn slice_chars(&self, range: std::ops::Range<usize>) -> (r: String) {
        CharText::new(self.0.as_str()).slice_chars(range)
    }
}

impl TextContent for String {
    open spec fn text_chars(&self) -> Seq<char> {
        self@
    }

    fn line_count(&self) -> (r: usize) {
        CharText::new(self.as_str()).line_count()
    }

    fn line(&self, i: usize) -> (r: String) {
        CharText::new(self.as_str()).line(i)
    }

    fn line_len_chars(&self, i: usize) -> (r: usize) {
        CharText::new(self.as_str()).line_len_chars(i)
    }

    fn as_contiguous_str(&self) -> (r: Option<&str>)
        ensures
            r matches Some(s) && s@ == self@,
    {
        Some(self.as_str())
    }

    fn char_count(&self) -> (r: usize) {
        CharText::new(self.as_str()).char_count()
    }

    fn line_to_char(&self, line: usize) -> (r: usize) {
        CharText::new(self.as_str()).line_to_char(line)
    }

    fn char_to_line(&self, ch: usize) -> (r: usize) {
        CharText::new(self.as_str()).char_to_line(ch)
    }

    fn slice_chars(&self, range: std::ops::Range<usize>) -> (r: String) {
        CharText::new(self.as_str()).slice_chars(range)
    }
}

/// Line starts never decrease from one line to the next.
pub proof fn lemma_line_start_mono(t: Seq<char>, i: nat)
    ensures
        0 <= line_start(t, i) <= line_start(t, i + 1) <= t.len(),
{
    lemma_first_pos_props(t, i, 0);
    lemma_first_pos_props(t, i + 1, 0);
    let a = line_start(t, i);
    let b = line_start(t, i + 1);
    if b < a {
        assert(newlines_before(t, b) < i);
        if b < t.len() {
            assert(newlines_before(t, b) >= i + 1);
        }
    }
}


/// A character's line never exceeds the last line.
pub proof fn lemma_line_of_char_lt_count(t: Seq<char>, ch: int)
    ensures
        line_of_char(t, ch) < line_count_of(t),
{
    if ch < t.len() && 0 <= ch {
        lemma_newlines_before_mono(t, ch, t.len() as int);
    } else if ch < 0 {
    }
}


/// Properties of [`first_pos_with_lines`]: every position before it has
/// fewer newlines, and it has enough unless it is the end of the text.
pub proof fn lemma_first_pos_props_pub(t: Seq<char>, line: nat, from: int)
    requires
        0 <= from <= t.len(),
    ensures
        from <= first_pos_with_lines(t, line, from) <= t.len(),
        forall|k: int| from <= k < first_pos_with_lines(t, line, from) ==> newlines_before(t, k) < line,
        first_pos_with_lines(t, line, from) < t.len() ==> newlines_before(
            t,
            first_pos_with_lines(t, line, from),
        ) >= line,
{
    lemma_first_pos_props(t, line, from);
}

/// Newline counts grow with the prefix, by at most one per character.
pub proof fn lemma_newlines_before_mono_pub(t: Seq<char>, a: int, b: int)
    requires
        0 <= a <= b <= t.len(),
    ensures
        newlines_before(t, a) <= newlines_before(t, b),
        newlines_before(t, b) <= newlines_before(t, a) + (b - a),
{
    lemma_newlines_before_mono(t, a, b);
}

/// The characters of line `i` of `content`, its trailing `'\n'` excluded.
pub fn line_body_of<T: TextContent>(content: &T, i: usize) -> (r: Vec<char>)
    ensures
        r@ == line_body(content.text_chars(), i as nat),
{
    let line = content.line(i);
    let mut chars = chars_of(line.as_str());
    let n = chars.len();
    if n > 0 && chars[n - 1] == '\n' {
        chars.pop();
    }
    chars
}


/// The line holding character offset `ch` and the column of `ch` in it,
/// `ch` first clamped to the character count.
pub fn line_and_column<T: TextContent>(content: &T, ch: usize) -> (r: (usize, usize))
    ensures
        r.0 == line_of_char(content.text_chars(), ch as int),
        r.1 == (if ch < content.text_chars().len() { ch as int } else { content.text_chars().len() as int }) - line_start(
            content.text_chars(),
            r.0 as nat,
        ),
        r.1 >= 0,
{
    let total = content.char_count();
    let c = if ch < total { ch } else { total };
    let line = content.char_to_line(c);
    let start = content.line_to_char(line);
    proof {
        let t = content.text_chars();
        lemma_first_pos_props(t, line as nat, 0);
        if c < t.len() {
            assert(line == newlines_before(t, c as int));
        } else {
            assert(line == newlines_before(t, t.len() as int));
        }
        if start > c {
            assert(newlines_before(t, c as int) < line);
        }
    }
    (line, c - start)
}

} // verus!
