//! Source spans of proof evidence: a byte range of a Kobo source file with
//! its one-based line and the trimmed text of that line.
use vstd::prelude::*;
use crate::scenario::KoboSpan;
use crate::strings::{chars_of, string_from_chars};
use crate::text::{char_index, char_rindex, copy_range, find_char, lemma_char_index,
    lemma_char_rindex, rfind_char, trim_range, trimmed, trim_bounds, utf8_len, utf8_width,
    char_utf8_width, lemma_utf8_len_concat};

verus! {

/// Where a piece of evidence stands in the source.
#[derive(Debug)]
pub struct SourceSpan {
    pub path: String,
    pub line: usize,
    pub start: usize,
    pub end: usize,
    pub mapped: bool,
    pub snippet: String,
}

/// Byte offset `offset` falls between two characters of `s` (or at its end).
pub open spec fn byte_boundary(s: Seq<char>, offset: int) -> bool {
    exists|k: int| 0 <= k <= s.len() && utf8_len(#[trigger] s.take(k)) == offset
}

/// The number of characters before byte offset `offset`.
pub open spec fn chars_before_byte(s: Seq<char>, offset: int) -> int {
    choose|k: int| 0 <= k <= s.len() && utf8_len(#[trigger] s.take(k)) == offset
}

/// The number of newlines in `s`.
pub open spec fn newline_count(s: Seq<char>) -> nat
    decreases s.len(),
{
    if s.len() == 0 {
        0
    } else {
        newline_count(s.drop_last()) + if s.last() == '\n' { 1nat } else { 0nat }
    }
}

/// The one-based line on which byte offset `offset` (clamped to the end) lies.
pub open spec fn line_of_offset(s: Seq<char>, offset: int) -> nat {
    let bounded = if offset < utf8_len(s) { offset } else { utf8_len(s) as int };
    newline_count(s.take(chars_before_byte(s, bounded))) + 1
}

/// The trimmed text of the line holding the character at index `k`.
pub open spec fn snippet_at(s: Seq<char>, k: int) -> Seq<char> {
    let line_start = match char_rindex(s, '\n', 0, k) {
        Some(i) => i + 1,
        None => 0,
    };
    let line_end = char_index(s, '\n', k, s.len() as int);
    trimmed(s.subrange(line_start, line_end))
}

/// The offset clamped to the end of the text.
pub open spec fn clamp_offset(s: Seq<char>, offset: int) -> int {
    if offset < utf8_len(s) { offset } else { utf8_len(s) as int }
}

proof fn lemma_utf8_len_push(s: Seq<char>, c: char)
    ensures
        utf8_len(s.push(c)) == utf8_len(s) + utf8_width(c),
{
    let one = seq![c];
    lemma_utf8_len_concat(s, one);
    assert(s + one =~= s.push(c));
    assert(one.drop_first() =~= Seq::<char>::empty());
    assert(utf8_len(Seq::<char>::empty()) == 0);
    assert(utf8_len(one) == utf8_width(one[0]) + utf8_len(one.drop_first()));
}

proof fn lemma_utf8_len_at_least_len(s: Seq<char>)
    ensures
        utf8_len(s) >= s.len(),
    decreases s.len(),
{
    if s.len() > 0 {
        lemma_utf8_len_at_least_len(s.drop_first());
    }
}

/// A prefix takes no more bytes than the whole text.
pub proof fn lemma_prefix_bytes_bounded(s: Seq<char>, k: int)
    requires
        0 <= k <= s.len(),
    ensures
        utf8_len(s.take(k)) <= utf8_len(s),
{
    lemma_utf8_len_prefix_bounded(s, k);
}

/// Longer prefixes take more bytes.
pub proof fn lemma_prefix_bytes_grow(s: Seq<char>, j: int, k: int)
    requires
        0 <= j < k <= s.len(),
    ensures
        utf8_len(s.take(j)) < utf8_len(s.take(k)),
{
    lemma_utf8_len_prefix_grows(s, j, k);
}

proof fn lemma_utf8_len_prefix_grows(s: Seq<char>, j: int, k: int)
    requires
        0 <= j < k <= s.len(),
    ensures
        utf8_len(s.take(j)) < utf8_len(s.take(k)),
    decreases k - j,
{
    assert(s.take(k) =~= s.take(k - 1).push(s[k - 1]));
    lemma_utf8_len_push(s.take(k - 1), s[k - 1]);
    if j < k - 1 {
        lemma_utf8_len_prefix_grows(s, j, k - 1);
    }
}

proof fn lemma_utf8_len_prefix_bounded(s: Seq<char>, k: int)
    requires
        0 <= k <= s.len(),
    ensures
        utf8_len(s.take(k)) <= utf8_len(s),
{
    assert(s =~= s.take(k) + s.skip(k));
    lemma_utf8_len_concat(s.take(k), s.skip(k));
}

/// The character index at which byte offset `offset` falls.
pub fn char_at_byte(s: &[char], offset: usize) -> (k: usize)
    requires
        byte_boundary(s@, offset as int),
    ensures
        k as int == chars_before_byte(s@, offset as int),
        k <= s@.len(),
        utf8_len(s@.take(k as int)) == offset,
{
    let ghost w = chars_before_byte(s@, offset as int);
    let mut k: usize = 0;
    let mut acc: usize = 0;
    assert(s@.take(0) =~= Seq::<char>::empty());
    while acc < offset
        invariant
            0 <= w <= s@.len(),
            utf8_len(s@.take(w)) == offset,
            k <= w,
            acc == utf8_len(s@.take(k as int)),
            acc <= offset,
        decreases w - k,
    {
        proof {
            assert(k < w);
            assert(s@.take(k + 1) =~= s@.take(k as int).push(s@[k as int]));
            lemma_utf8_len_push(s@.take(k as int), s@[k as int]);
            if k + 1 < w {
                lemma_utf8_len_prefix_grows(s@, k + 1, w);
            }
        }
        acc = acc + char_utf8_width(s[k]);
        k = k + 1;
    }
    proof {
        if k < w {
            lemma_utf8_len_prefix_grows(s@, k as int, w);
        }
        assert(k == w);
    }
    k
}

/// Counts the newlines in `s[..k]`.
fn count_newlines(s: &[char], k: usize) -> (n: usize)
    requires
        k <= s@.len(),
    ensures
        n == newline_count(s@.take(k as int)),
        n <= k,
{
    let mut n: usize = 0;
    let mut i: usize = 0;
    assert(s@.take(0) =~= Seq::<char>::empty());
    while i < k
        invariant
            i <= k <= s@.len(),
            n == newline_count(s@.take(i as int)),
            n <= i,
        decreases k - i,
    {
        proof {
            assert(s@.take(i + 1).drop_last() =~= s@.take(i as int));
        }
        if s[i] == '\n' {
            n = n + 1;
        }
        i = i + 1;
    }
    n
}

/// The one-based line of byte offset `offset` (clamped to the end).
pub fn one_based_line_for_offset(source: &str, offset: usize) -> (line: usize)
    requires
        utf8_len(source@) < usize::MAX,
        byte_boundary(source@, clamp_offset(source@, offset as int)),
    ensures
        line == line_of_offset(source@, offset as int),
{
    let s = chars_of(source);
    proof {
        assert(s@.subrange(0, s@.len() as int) =~= s@);
    }
    let total = crate::text::utf8_len_range(s.as_slice(), 0, s.len());
    let bounded = if offset < total { offset } else { total };
    let k = char_at_byte(s.as_slice(), bounded);
    proof {
        lemma_utf8_len_at_least_len(s@);
    }
    let n = count_newlines(s.as_slice(), k);
    n + 1
}

/// The trimmed text of the line that byte offset `offset` (clamped) lies on.
pub fn line_snippet(source: &str, offset: usize) -> (snippet: String)
    requires
        utf8_len(source@) <= usize::MAX,
        byte_boundary(source@, clamp_offset(source@, offset as int)),
    ensures
        snippet@ == snippet_at(source@, chars_before_byte(source@, clamp_offset(source@, offset as int))),
{
    let s = chars_of(source);
    proof {
        assert(s@.subrange(0, s@.len() as int) =~= s@);
    }
    let total = crate::text::utf8_len_range(s.as_slice(), 0, s.len());
    let bounded = if offset < total { offset } else { total };
    let k = char_at_byte(s.as_slice(), bounded);
    snippet_of(s.as_slice(), k)
}

fn snippet_of(s: &[char], k: usize) -> (snippet: String)
    requires
        k <= s@.len(),
    ensures
        snippet@ == snippet_at(s@, k as int),
{
    let n = s.len();
    proof {
        lemma_char_rindex(s@, '\n', 0, k as int);
    }
    let line_start = match rfind_char(s, '\n', 0, k) {
        Some(i) => i + 1,
        None => 0,
    };
    let line_end = find_char(s, '\n', k, n);
    let line = copy_range(s, line_start, line_end);
    let (a, b) = trim_range(line.as_slice(), 0, line.len());
    proof {
        assert(line@.subrange(0, line@.len() as int) =~= line@);
    }
    let text = copy_range(line.as_slice(), a, b);
    string_from_chars(text.as_slice())
}

/// The byte range `start..end` of `source`, clamped to the text and at least
/// one byte long where the text allows, with its line and snippet.
pub fn source_span_from_range(source_path: &str, source: &str, start: usize, end: usize) -> (span: SourceSpan)
    requires
        utf8_len(source@) < usize::MAX,
        byte_boundary(source@, clamp_offset(source@, start as int)),
    ensures
        span.path@ == source_path@,
        span.start as int == clamp_offset(source@, start as int),
        span.end as int == clamp_offset(source@, if end > span.start + 1 { end as int } else { span.start + 1 }),
        span.mapped == (span.end > span.start),
        span.line == line_of_offset(source@, start as int),
        span.snippet@ == snippet_at(source@, chars_before_byte(source@, span.start as int)),
{
    let s = chars_of(source);
    proof {
        assert(s@.subrange(0, s@.len() as int) =~= s@);
    }
    let total = crate::text::utf8_len_range(s.as_slice(), 0, s.len());
    let bounded_start = if start < total { start } else { total };
    let lower_end = if end > bounded_start + 1 { end } else { bounded_start + 1 };
    let bounded_end = if lower_end < total { lower_end } else { total };
    let line = one_based_line_for_offset(source, bounded_start);
    let snippet = line_snippet(source, bounded_start);
    SourceSpan {
        path: crate::config::owned(source_path),
        line: line,
        start: bounded_start,
        end: bounded_end,
        mapped: bounded_end > bounded_start,
        snippet: snippet,
    }
}

/// The span of a Core source range.
pub fn source_span_from_kobo(source_path: &str, source: &str, span: KoboSpan) -> (r: SourceSpan)
    requires
        utf8_len(source@) < usize::MAX,
        byte_boundary(source@, clamp_offset(source@, span.start as int)),
    ensures
        r.path@ == source_path@,
        r.start as int == clamp_offset(source@, span.start as int),
        r.end as int == clamp_offset(source@, if span.end > r.start + 1 { span.end as int } else { r.start + 1 }),
        r.mapped == (r.end > r.start),
        r.line == line_of_offset(source@, span.start as int),
        r.snippet@ == snippet_at(source@, chars_before_byte(source@, r.start as int)),
{
    source_span_from_range(source_path, source, span.start as usize, span.end as usize)
}

/// Whether two spans are equal, field by field.
pub fn spans_equal(a: &SourceSpan, b: &SourceSpan) -> (r: bool)
    ensures
        r == (a.path@ == b.path@ && a.line == b.line && a.start == b.start && a.end == b.end
            && a.mapped == b.mapped && a.snippet@ == b.snippet@),
{
    a.path == b.path && a.line == b.line && a.start == b.start && a.end == b.end
        && a.mapped == b.mapped && a.snippet == b.snippet
}

} // verus!
