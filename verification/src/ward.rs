//! Ward-syntax preprocessing: `ward Name { ... }` blocks in Kobo source are
//! rewritten into attribute-annotated Rust items before parsing. Scanning runs
//! on a copy of the source whose comments and string literals are blanked.
use vstd::prelude::*;
use crate::errors::joined;
use crate::strings::chars_of;
use crate::text::{
    ascii_ws, char_utf8_width, lemma_utf8_len_concat, utf8_len, utf8_len_range, utf8_width, line_bounds, push_all, push_range, push_str, starts_with_at, starts_with_at_exec, trim_bounds, trim_range, lemma_skip_ws_bounds, char_index, copy_range, find_char, find_in, first_match, is_ascii_ws, is_ident, is_ident_char,
    lemma_char_index, lemma_first_match, matches_at, opt_index,
};

verus! {

/// `c` replaced by a space unless it is a newline.
pub open spec fn blank_char(c: char) -> char {
    if c == '\n' { '\n' } else { ' ' }
}

/// Every character of `seg` except newlines replaced by a space.
pub open spec fn blanked(seg: Seq<char>) -> Seq<char> {
    seg.map_values(|c: char| blank_char(c))
}

/// Position where a `/* ... */` comment whose body starts at `j` stops scanning:
/// the start of the first `*/` at or after `j`, or the last index.
pub open spec fn block_close(s: Seq<char>, j: int) -> int
    decreases s.len() - j,
{
    if j + 1 >= s.len() {
        j
    } else if s[j] == '*' && s[j + 1] == '/' {
        j
    } else {
        block_close(s, j + 1)
    }
}

/// End (exclusive) of a string literal whose body starts at `j`: just past the
/// closing quote, skipping backslash escapes, or the end of the source.
pub open spec fn string_end(s: Seq<char>, j: int) -> int
    decreases s.len() - j,
{
    if j >= s.len() {
        s.len() as int
    } else if s[j] == '\\' {
        if j + 2 >= s.len() {
            s.len() as int
        } else {
            string_end(s, j + 2)
        }
    } else if s[j] == '"' {
        j + 1
    } else {
        string_end(s, j + 1)
    }
}

pub open spec fn starts_line_comment(s: Seq<char>, i: int) -> bool {
    s[i] == '/' && i + 1 < s.len() && s[i + 1] == '/'
}

pub open spec fn starts_block_comment(s: Seq<char>, i: int) -> bool {
    s[i] == '/' && i + 1 < s.len() && s[i + 1] == '*'
}

/// The source token that starts at `i` is a comment or a string literal.
pub open spec fn is_blanked_token(s: Seq<char>, i: int) -> bool {
    starts_line_comment(s, i) || starts_block_comment(s, i) || s[i] == '"'
}

/// End (exclusive) of the token starting at `i`: a `//` comment runs to the
/// next newline, a `/*` comment past its `*/` (or to the end), a string past
/// its closing quote; anything else is one character.
pub open spec fn token_end(s: Seq<char>, i: int) -> int {
    if starts_line_comment(s, i) {
        char_index(s, '\n', i + 2, s.len() as int)
    } else if starts_block_comment(s, i) {
        let close = block_close(s, i + 2);
        if close + 2 < s.len() { close + 2 } else { s.len() as int }
    } else if s[i] == '"' {
        string_end(s, i + 1)
    } else {
        i + 1
    }
}

pub proof fn lemma_block_close(s: Seq<char>, j: int)
    ensures
        j <= block_close(s, j),
        j + 1 < s.len() ==> block_close(s, j) + 1 < s.len() || block_close(s, j) + 1 == s.len(),
        j + 1 >= s.len() ==> block_close(s, j) == j,
    decreases s.len() - j,
{
    if j + 1 < s.len() && !(s[j] == '*' && s[j + 1] == '/') {
        lemma_block_close(s, j + 1);
    }
}

pub proof fn lemma_string_end(s: Seq<char>, j: int)
    requires
        0 <= j,
    ensures
        j <= string_end(s, j) <= s.len() || (j > s.len() && string_end(s, j) == s.len()),
        string_end(s, j) <= s.len(),
    decreases s.len() - j,
{
    if j < s.len() {
        if s[j] == '\\' {
            if j + 2 < s.len() {
                lemma_string_end(s, j + 2);
            }
        } else if s[j] != '"' {
            lemma_string_end(s, j + 1);
        }
    }
}

pub proof fn lemma_token_end(s: Seq<char>, i: int)
    requires
        0 <= i < s.len(),
    ensures
        i < token_end(s, i) <= s.len(),
{
    if starts_line_comment(s, i) {
        lemma_char_index(s, '\n', i + 2, s.len() as int);
    } else if starts_block_comment(s, i) {
        lemma_block_close(s, i + 2);
    } else if s[i] == '"' {
        lemma_string_end(s, i + 1);
    }
}

/// The source from `i` on with comments and string literals blanked, reading
/// tokens from `i`.
pub open spec fn scrubbed_from(s: Seq<char>, i: int) -> Seq<char>
    decreases s.len() - i via scrubbed_from_decreases
{
    if i < 0 || i >= s.len() {
        Seq::empty()
    } else {
        let e = token_end(s, i);
        let seg = s.subrange(i, e);
        (if is_blanked_token(s, i) { blanked(seg) } else { seg }) + scrubbed_from(s, e)
    }
}

#[via_fn]
proof fn scrubbed_from_decreases(s: Seq<char>, i: int) {
    if !(i < 0 || i >= s.len()) {
        lemma_token_end(s, i);
    }
}

/// The source with every comment and string literal blanked, newlines kept.
pub open spec fn scrubbed(s: Seq<char>) -> Seq<char> {
    scrubbed_from(s, 0)
}

pub proof fn lemma_scrubbed_from_len(s: Seq<char>, i: int)
    requires
        0 <= i <= s.len(),
    ensures
        scrubbed_from(s, i).len() == s.len() - i,
    decreases s.len() - i,
{
    if i < s.len() {
        lemma_token_end(s, i);
        lemma_scrubbed_from_len(s, token_end(s, i));
    }
}

/// Blanks every non-newline character of `bytes[start..end]`, `end` clipped to
/// the length.
pub fn blank_non_newlines(bytes: &mut Vec<char>, start: usize, end: usize)
    requires
        start <= end,
        start <= old(bytes)@.len(),
    ensures
        ({
            let e = if end < old(bytes)@.len() { end as int } else { old(bytes)@.len() as int };
            final(bytes)@ == old(bytes)@.subrange(0, start as int) + blanked(
                old(bytes)@.subrange(start as int, e),
            ) + old(bytes)@.subrange(e, old(bytes)@.len() as int)
        }),
{
    let bounded_end = if end < bytes.len() { end } else { bytes.len() };
    let ghost orig = bytes@;
    let mut i = start;
    while i < bounded_end
        invariant
            start <= i <= bounded_end <= orig.len(),
            bytes@ == orig.subrange(0, start as int) + blanked(orig.subrange(start as int, i as int))
                + orig.subrange(i as int, orig.len() as int),
        decreases bounded_end - i,
    {
        let ghost prev = bytes@;
        let c = bytes[i];
        proof {
            assert(prev[i as int] == orig[i as int]);
        }
        if c != '\n' {
            bytes.set(i, ' ');
        }
        i = i + 1;
        proof {
            assert(bytes@ =~= orig.subrange(0, start as int) + blanked(
                orig.subrange(start as int, i as int),
            ) + orig.subrange(i as int, orig.len() as int));
        }
    }
}

fn line_comment_end(s: &[char], start: usize) -> (e: usize)
    requires
        start + 1 < s.len(),
        starts_line_comment(s@, start as int),
    ensures
        e as int == token_end(s@, start as int),
{
    find_char(s, '\n', start + 2, s.len())
}

fn block_comment_end(s: &[char], start: usize) -> (e: usize)
    requires
        start + 1 < s.len(),
        starts_block_comment(s@, start as int),
    ensures
        e as int == token_end(s@, start as int),
{
    let mut index = start + 2;
    while index < s.len() && index + 1 < s.len() && !(s[index] == '*' && s[index + 1] == '/')
        invariant
            start + 2 <= index <= s@.len(),
            block_close(s@, index as int) == block_close(s@, start + 2),
        decreases s@.len() - index,
    {
        index = index + 1;
    }
    if s.len() - index > 2 {
        index + 2
    } else {
        s.len()
    }
}

fn string_literal_end(s: &[char], start: usize) -> (e: usize)
    requires
        start < s.len(),
        s@[start as int] == '"',
    ensures
        e as int == token_end(s@, start as int),
{
    assert(token_end(s@, start as int) == string_end(s@, start + 1));
    let mut index = start + 1;
    while index < s.len()
        invariant
            start + 1 <= index <= s@.len(),
            string_end(s@, index as int) == string_end(s@, start + 1),
            token_end(s@, start as int) == string_end(s@, start + 1),
        decreases s@.len() - index,
    {
        if s[index] == '\\' {
            if s.len() - index <= 2 {
                assert(string_end(s@, index as int) == s@.len());
                return s.len();
            }
            index = index + 2;
        } else if s[index] == '"' {
            assert(string_end(s@, index as int) == index + 1);
            return index + 1;
        } else {
            index = index + 1;
        }
    }
    s.len()
}

/// Copy of `source` with comments and string literals blanked (newlines kept),
/// so that keyword and brace scanning ignores them.
pub fn scrub_comments_and_strings(source: &[char]) -> (cleaned: Vec<char>)
    ensures
        cleaned@ == scrubbed(source@),
{
    let s = source;
    let mut cleaned = copy_range(s, 0, s.len());
    let mut index: usize = 0;
    proof {
        assert(s@.subrange(0, s@.len() as int) =~= s@);
    }
    while index < s.len()
        invariant
            index <= s@.len(),
            cleaned@.len() == s@.len(),
            scrubbed(s@) == cleaned@.subrange(0, index as int) + scrubbed_from(s@, index as int),
            cleaned@.subrange(index as int, s@.len() as int) == s@.subrange(index as int, s@.len() as int),
        decreases s@.len() - index,
    {
        let ghost before = cleaned@;
        let start = index;
        proof {
            lemma_token_end(s@, start as int);
        }
        let blank: bool;
        if s[index] == '/' && index + 1 < s.len() && s[index + 1] == '/' {
            index = line_comment_end(s, start);
            blank = true;
        } else if s[index] == '/' && index + 1 < s.len() && s[index + 1] == '*' {
            index = block_comment_end(s, start);
            blank = true;
        } else if s[index] == '"' {
            index = string_literal_end(s, start);
            blank = true;
        } else {
            index = index + 1;
            blank = false;
        }
        if blank {
            blank_non_newlines(&mut cleaned, start, index);
        }
        proof {
            let e = index as int;
            let seg = s@.subrange(start as int, e);
            assert(e == token_end(s@, start as int));
            assert(blank == is_blanked_token(s@, start as int));
            assert(scrubbed_from(s@, start as int) == (if blank { blanked(seg) } else { seg })
                + scrubbed_from(s@, e));
            assert(before.subrange(start as int, e) =~= seg);
            assert(cleaned@.subrange(0, start as int) =~= before.subrange(0, start as int));
            assert(cleaned@.subrange(start as int, e) =~= (if blank { blanked(seg) } else { seg }));
            assert(cleaned@.subrange(0, e) =~= cleaned@.subrange(0, start as int) + cleaned@.subrange(
                start as int,
                e,
            ));
            assert(cleaned@.subrange(e, s@.len() as int) =~= before.subrange(e, s@.len() as int));
            assert(before.subrange(e, s@.len() as int) =~= before.subrange(start as int, s@.len() as int).subrange(
                e - start,
                s@.len() - start,
            ));
            assert(cleaned@.subrange(e, s@.len() as int) =~= s@.subrange(e, s@.len() as int));
        }
    }
    proof {
        assert(cleaned@.subrange(0, s@.len() as int) =~= cleaned@);
    }
    cleaned
}

/// The occurrence of `kw` at `start` is a keyword: the character before it
/// (the first character itself at offset 0, as a saturating `start - 1` reads
/// it) is not an identifier character, and an ASCII whitespace follows it.
pub open spec fn keyword_boundary(s: Seq<char>, kw: Seq<char>, start: int) -> bool {
    let before = if start == 0 { 0 } else { start - 1 };
    let end = start + kw.len();
    !(before < s.len() && is_ident_char(s[before])) && end < s.len() && is_ascii_ws(s[end])
}

/// Keyword search from `cursor`: take the next occurrence of `kw`; if it is not
/// a keyword, continue after its end.
pub open spec fn keyword_search(s: Seq<char>, kw: Seq<char>, cursor: int) -> Option<int>
    decreases s.len() - cursor via keyword_search_decreases
{
    if kw.len() == 0 || cursor < 0 || cursor + kw.len() > s.len() {
        None
    } else {
        match first_match(s, kw, cursor, s.len() as int) {
            None => None,
            Some(start) => if keyword_boundary(s, kw, start) {
                Some(start)
            } else {
                keyword_search(s, kw, start + kw.len())
            },
        }
    }
}

#[via_fn]
proof fn keyword_search_decreases(s: Seq<char>, kw: Seq<char>, cursor: int) {
    if !(kw.len() == 0 || cursor < 0 || cursor + kw.len() > s.len()) {
        lemma_first_match(s, kw, cursor, s.len() as int);
    }
}

/// A keyword found from `from` is an occurrence at or after `from` that
/// satisfies the keyword boundary.
pub proof fn lemma_keyword_search(s: Seq<char>, kw: Seq<char>, cursor: int)
    ensures
        keyword_search(s, kw, cursor) matches Some(k) ==> cursor <= k && matches_at(s, kw, k)
            && keyword_boundary(s, kw, k),
    decreases s.len() - cursor,
{
    if !(kw.len() == 0 || cursor < 0 || cursor + kw.len() > s.len()) {
        lemma_first_match(s, kw, cursor, s.len() as int);
        if let Some(start) = first_match(s, kw, cursor, s.len() as int) {
            if !keyword_boundary(s, kw, start) {
                lemma_keyword_search(s, kw, start + kw.len());
            }
        }
    }
}

/// First keyword occurrence of `keyword` found from `from` (see `keyword_search`).
pub fn find_keyword(source: &[char], from: usize, keyword: &[char]) -> (r: Option<usize>)
    ensures
        opt_index(r) == keyword_search(source@, keyword@, from as int),
        r matches Some(k) ==> from <= k && matches_at(source@, keyword@, k as int)
            && keyword_boundary(source@, keyword@, k as int),
{
    proof {
        lemma_keyword_search(source@, keyword@, from as int);
    }
    if keyword.len() == 0 {
        return None;
    }
    let mut cursor = from;
    while cursor <= source.len() && keyword.len() <= source.len() - cursor
        invariant
            keyword@.len() > 0,
            keyword_search(source@, keyword@, cursor as int) == keyword_search(source@, keyword@, from as int),
            keyword_search(source@, keyword@, from as int) matches Some(k) ==> from <= k && matches_at(
                source@,
                keyword@,
                k,
            ) && keyword_boundary(source@, keyword@, k),
        decreases source@.len() - cursor,
    {
        proof {
            lemma_first_match(source@, keyword@, cursor as int, source@.len() as int);
        }
        let start = match find_in(source, keyword, cursor, source.len()) {
            Some(start) => start,
            None => {
                return None;
            },
        };
        let end = start + keyword.len();
        let before_index = if start == 0 { 0 } else { start - 1 };
        let before_ident = before_index < source.len() && is_ident(source[before_index]);
        let after_ws = end < source.len() && ascii_ws(source[end]);
        if !before_ident && after_ws {
            return Some(start);
        }
        cursor = end;
    }
    None
}

/// The four characters of `ward`.
pub open spec fn ward_word() -> Seq<char> {
    seq!['w', 'a', 'r', 'd']
}

fn ward_chars() -> (w: Vec<char>)
    ensures
        w@ == ward_word(),
{
    let mut w: Vec<char> = Vec::new();
    w.push('w');
    w.push('a');
    w.push('r');
    w.push('d');
    assert(w@ =~= ward_word());
    w
}

/// First `ward` keyword found from `from`.
pub fn find_ward_keyword(source: &[char], from: usize) -> (r: Option<usize>)
    ensures
        opt_index(r) == keyword_search(source@, ward_word(), from as int),
        r matches Some(k) ==> from <= k && matches_at(source@, ward_word(), k as int)
            && keyword_boundary(source@, ward_word(), k as int),
{
    let word = ward_chars();
    find_keyword(source, from, word.as_slice())
}

/// Closing brace search from `i` at nesting `depth`: `{` nests deeper, `}`
/// leaves a level (never below zero) and ends the search when the level is
/// zero afterwards.
pub open spec fn brace_close(s: Seq<char>, i: int, depth: nat) -> Option<int>
    decreases s.len() - i,
{
    if i < 0 || i >= s.len() {
        None
    } else if s[i] == '{' {
        brace_close(s, i + 1, depth + 1)
    } else if s[i] == '}' {
        let d: nat = if depth == 0 { 0 } else { (depth - 1) as nat };
        if d == 0 {
            Some(i)
        } else {
            brace_close(s, i + 1, d)
        }
    } else {
        brace_close(s, i + 1, depth)
    }
}

pub proof fn lemma_brace_close(s: Seq<char>, i: int, depth: nat)
    ensures
        brace_close(s, i, depth) matches Some(c) ==> i <= c < s.len() && s[c] == '}',
    decreases s.len() - i,
{
    if !(i < 0 || i >= s.len()) {
        if s[i] == '{' {
            lemma_brace_close(s, i + 1, depth + 1);
        } else if s[i] == '}' {
            let d: nat = if depth == 0 { 0 } else { (depth - 1) as nat };
            if d != 0 {
                lemma_brace_close(s, i + 1, d);
            }
        } else {
            lemma_brace_close(s, i + 1, depth);
        }
    }
}

/// Index of the brace that closes the one opened at `open`.
pub fn matching_brace_in_bytes(bytes: &[char], open: usize) -> (r: Option<usize>)
    ensures
        opt_index(r) == brace_close(bytes@, open as int, 0),
        r matches Some(c) ==> open <= c < bytes@.len() && bytes@[c as int] == '}',
{
    proof {
        lemma_brace_close(bytes@, open as int, 0);
    }
    let mut depth: usize = 0;
    let mut index = open;
    while index < bytes.len()
        invariant
            open <= index,
            depth <= index - open,
            brace_close(bytes@, index as int, depth as nat) == brace_close(bytes@, open as int, 0),
        decreases bytes@.len() - index,
    {
        let c = bytes[index];
        if c == '{' {
            depth = depth + 1;
        } else if c == '}' {
            depth = if depth == 0 { 0 } else { depth - 1 };
            if depth == 0 {
                return Some(index);
            }
        }
        index = index + 1;
    }
    None
}

/// First index at or after `i` that is not ASCII whitespace (or the length).
pub open spec fn skip_ascii_ws(s: Seq<char>, i: int) -> int
    decreases s.len() - i,
{
    if 0 <= i < s.len() && is_ascii_ws(s[i]) {
        skip_ascii_ws(s, i + 1)
    } else {
        i
    }
}

/// End of the run of identifier characters starting at `i`.
pub open spec fn ident_end(s: Seq<char>, i: int) -> int
    decreases s.len() - i,
{
    if 0 <= i < s.len() && is_ident_char(s[i]) {
        ident_end(s, i + 1)
    } else {
        i
    }
}

pub proof fn lemma_skip_ident(s: Seq<char>, i: int)
    requires
        0 <= i <= s.len(),
    ensures
        i <= skip_ascii_ws(s, i) <= s.len(),
        i <= ident_end(s, i) <= s.len(),
    decreases s.len() - i,
{
    if i < s.len() {
        lemma_skip_ident(s, i + 1);
    }
}

fn skip_ascii_ws_exec(s: &[char], i: usize) -> (r: usize)
    requires
        i <= s@.len(),
    ensures
        r as int == skip_ascii_ws(s@, i as int),
{
    let mut j = i;
    while j < s.len() && ascii_ws(s[j])
        invariant
            i <= j <= s@.len(),
            skip_ascii_ws(s@, j as int) == skip_ascii_ws(s@, i as int),
        decreases s@.len() - j,
    {
        j = j + 1;
    }
    j
}

fn ident_end_exec(s: &[char], i: usize) -> (r: usize)
    requires
        i <= s@.len(),
    ensures
        r as int == ident_end(s@, i as int),
{
    let mut j = i;
    while j < s.len() && is_ident(s[j])
        invariant
            i <= j <= s@.len(),
            ident_end(s@, j as int) == ident_end(s@, i as int),
        decreases s@.len() - j,
    {
        j = j + 1;
    }
    j
}

/// A `ward Name { body }` block: its name, the span of the whole block in the
/// source, and the text between the braces.
pub struct WardBlock {
    pub name: Vec<char>,
    pub start: usize,
    pub end: usize,
    pub body: Vec<char>,
}

/// The ward block whose keyword is at `start`: the name is the identifier after
/// the keyword and its whitespace; the body runs from the first `{` after the
/// name to its matching `}` (found in `cleaned`, cut from `source`).
pub open spec fn ward_block_at(source: Seq<char>, cleaned: Seq<char>, start: int) -> Option<
    (Seq<char>, int, int, Seq<char>),
> {
    let name_start = skip_ascii_ws(cleaned, start + 4);
    let name_end = ident_end(cleaned, name_start);
    match first_match(cleaned, seq!['{'], name_end, cleaned.len() as int) {
        None => None,
        Some(brace_start) => match brace_close(cleaned, brace_start, 0) {
            None => None,
            Some(brace_end) => Some(
                (
                    source.subrange(name_start, name_end),
                    start,
                    brace_end + 1,
                    source.subrange(brace_start + 1, brace_end),
                ),
            ),
        },
    }
}

/// Parses the ward block whose keyword starts at `start`.
pub fn parse_ward_block(source: &[char], cleaned: &[char], start: usize) -> (r: Option<WardBlock>)
    requires
        cleaned@.len() == source@.len(),
        start + 4 <= source.len(),
    ensures
        match r {
            None => ward_block_at(source@, cleaned@, start as int) is None,
            Some(w) => ward_block_at(source@, cleaned@, start as int) == Some(
                (w.name@, w.start as int, w.end as int, w.body@),
            ),
        },
{
    proof {
        lemma_skip_ident(cleaned@, start + 4);
    }
    let name_start = skip_ascii_ws_exec(cleaned, start + 4);
    proof {
        lemma_skip_ident(cleaned@, name_start as int);
    }
    let name_end = ident_end_exec(cleaned, name_start);
    let name = copy_range(source, name_start, name_end);
    let mut open_brace: Vec<char> = Vec::new();
    open_brace.push('{');
    assert(open_brace@ =~= seq!['{']);
    proof {
        lemma_first_match(cleaned@, open_brace@, name_end as int, cleaned@.len() as int);
    }
    let brace_start = match find_in(cleaned, open_brace.as_slice(), name_end, cleaned.len()) {
        Some(b) => b,
        None => {
            return None;
        },
    };
    proof {
        assert(cleaned@.subrange(brace_start as int, brace_start + 1)[0] == '{');
        lemma_brace_close(cleaned@, brace_start as int, 0);
        reveal_with_fuel(brace_close, 2);
    }
    let brace_end = match matching_brace_in_bytes(cleaned, brace_start) {
        Some(b) => b,
        None => {
            return None;
        },
    };
    assert(brace_end > brace_start);
    let body = copy_range(source, brace_start + 1, brace_end);
    Some(WardBlock { name, start, end: brace_end + 1, body })
}

/// `s[lo..hi]` with surrounding white space removed.
pub open spec fn sub_trim(s: Seq<char>, lo: int, hi: int) -> Seq<char> {
    s.subrange(trim_bounds(s, lo, hi).0, trim_bounds(s, lo, hi).1)
}

/// The non-empty trimmed pieces of `s[lo..hi]` split at `|`.
pub open spec fn action_list(s: Seq<char>, lo: int, hi: int) -> Seq<Seq<char>>
    decreases hi - lo via action_list_decreases
{
    if lo < 0 || lo > hi || hi > s.len() {
        Seq::empty()
    } else {
        let p = char_index(s, '|', lo, hi);
        let piece = sub_trim(s, lo, p);
        let rest = if p < hi { action_list(s, p + 1, hi) } else { Seq::empty() };
        if piece.len() > 0 { seq![piece] + rest } else { rest }
    }
}

#[via_fn]
proof fn action_list_decreases(s: Seq<char>, lo: int, hi: int) {
    if !(lo < 0 || lo > hi || hi > s.len()) {
        lemma_char_index(s, '|', lo, hi);
    }
}

/// What one line of a ward body declares.
pub enum LineFact {
    State(Seq<char>, Seq<char>),
    Obligation(Seq<char>, Seq<Seq<char>>),
    Comment(Seq<char>),
    Nothing,
}

/// A metadata comment `// kobo: {word} {rest}` for a line `{word} {rest}`.
pub open spec fn metadata_comment(word: Seq<char>, s: Seq<char>, lo: int, hi: int) -> Seq<char> {
    "// kobo: "@ + word + " "@ + sub_trim(s, lo + word.len() + 1, hi)
}

/// The fact declared by the ward-body line `s[lo..hi]`, read after trimming:
/// `state name: Type`, `obligation Type must a | b`, or one of the metadata
/// lines `invariant`, `temporal`, `port`, `recording`, `debt`.
pub open spec fn line_fact(s: Seq<char>, lo: int, hi: int) -> LineFact {
    let (a, b) = trim_bounds(s, lo, hi);
    if starts_with_at(s, "state "@, a, b) {
        let r = a + "state "@.len();
        let p = char_index(s, ':', r, b);
        if p < b {
            LineFact::State(sub_trim(s, r, p), sub_trim(s, p + 1, b))
        } else {
            LineFact::Nothing
        }
    } else if starts_with_at(s, "obligation "@, a, b) {
        let r = a + "obligation "@.len();
        match first_match(s, " must "@, r, b) {
            Some(m) => LineFact::Obligation(sub_trim(s, r, m), action_list(s, m + " must "@.len(), b)),
            None => LineFact::Nothing,
        }
    } else if starts_with_at(s, "invariant "@, a, b) {
        LineFact::Comment(metadata_comment("invariant"@, s, a, b))
    } else if starts_with_at(s, "temporal "@, a, b) {
        LineFact::Comment(metadata_comment("temporal"@, s, a, b))
    } else if starts_with_at(s, "port "@, a, b) {
        LineFact::Comment(metadata_comment("port"@, s, a, b))
    } else if starts_with_at(s, "recording "@, a, b) {
        LineFact::Comment(metadata_comment("recording"@, s, a, b))
    } else if starts_with_at(s, "debt "@, a, b) {
        LineFact::Comment(metadata_comment("debt"@, s, a, b))
    } else {
        LineFact::Nothing
    }
}

/// The facts a ward body declares.
#[verifier::ext_equal]
pub struct WardFactsSpec {
    pub states: Seq<(Seq<char>, Seq<char>)>,
    pub obligations: Seq<(Seq<char>, Seq<Seq<char>>)>,
    pub scenarios: Seq<(Seq<char>, Seq<char>)>,
    pub metadata_comments: Seq<Seq<char>>,
}

/// Facts declared by the given lines of `s`, in line order.
pub open spec fn line_facts(s: Seq<char>, lines: Seq<(int, int)>) -> WardFactsSpec
    decreases lines.len(),
{
    if lines.len() == 0 {
        WardFactsSpec {
            states: Seq::empty(),
            obligations: Seq::empty(),
            scenarios: Seq::empty(),
            metadata_comments: Seq::empty(),
        }
    } else {
        with_line_fact(line_facts(s, lines.drop_last()), s, lines.last().0, lines.last().1)
    }
}

/// The facts of a ward body, as an exec value.
pub struct WardFacts {
    pub states: Vec<(Vec<char>, Vec<char>)>,
    pub obligations: Vec<(Vec<char>, Vec<Vec<char>>)>,
    pub scenarios: Vec<(Vec<char>, Vec<char>)>,
    pub metadata_comments: Vec<Vec<char>>,
}

pub open spec fn pair_views(v: Seq<(Vec<char>, Vec<char>)>) -> Seq<(Seq<char>, Seq<char>)> {
    v.map_values(|p: (Vec<char>, Vec<char>)| (p.0@, p.1@))
}

pub open spec fn text_views(v: Seq<Vec<char>>) -> Seq<Seq<char>> {
    v.map_values(|t: Vec<char>| t@)
}

pub open spec fn obligation_views(v: Seq<(Vec<char>, Vec<Vec<char>>)>) -> Seq<(Seq<char>, Seq<Seq<char>>)> {
    v.map_values(|p: (Vec<char>, Vec<Vec<char>>)| (p.0@, text_views(p.1@)))
}

impl View for WardFacts {
    type V = WardFactsSpec;

    open spec fn view(&self) -> WardFactsSpec {
        WardFactsSpec {
            states: pair_views(self.states@),
            obligations: obligation_views(self.obligations@),
            scenarios: pair_views(self.scenarios@),
            metadata_comments: text_views(self.metadata_comments@),
        }
    }
}

fn trimmed_copy(s: &[char], lo: usize, hi: usize) -> (r: Vec<char>)
    requires
        lo <= hi <= s@.len(),
    ensures
        r@ == sub_trim(s@, lo as int, hi as int),
{
    let (a, b) = trim_range(s, lo, hi);
    copy_range(s, a, b)
}

fn parse_actions(s: &[char], lo: usize, hi: usize) -> (r: Vec<Vec<char>>)
    requires
        lo <= hi <= s@.len(),
    ensures
        text_views(r@) == action_list(s@, lo as int, hi as int),
    decreases hi - lo,
{
    proof {
        lemma_char_index(s@, '|', lo as int, hi as int);
    }
    let p = find_char(s, '|', lo, hi);
    let piece = trimmed_copy(s, lo, p);
    let rest = if p < hi { parse_actions(s, p + 1, hi) } else { Vec::new() };
    if piece.len() > 0 {
        let mut out = rest;
        let ghost tail = out@;
        out.insert(0, piece);
        proof {
            assert(out@ =~= seq![piece].add(tail));
            assert(text_views(out@) =~= seq![piece@] + text_views(tail));
        }
        out
    } else {
        proof {
            if p >= hi {
                assert(text_views(rest@) =~= Seq::<Seq<char>>::empty());
            }
        }
        rest
    }
}

/// The facts after adding what the line `s[lo..hi]` declares.
pub open spec fn with_line_fact(prev: WardFactsSpec, s: Seq<char>, lo: int, hi: int) -> WardFactsSpec {
    match line_fact(s, lo, hi) {
        LineFact::State(n, t) => WardFactsSpec { states: prev.states.push((n, t)), ..prev },
        LineFact::Obligation(t, a) => WardFactsSpec {
            obligations: prev.obligations.push((t, a)),
            ..prev
        },
        LineFact::Comment(c) => WardFactsSpec {
            metadata_comments: prev.metadata_comments.push(c),
            ..prev
        },
        LineFact::Nothing => prev,
    }
}

fn push_metadata_comment(facts: &mut WardFacts, word: &str, s: &[char], a: usize, b: usize)
    requires
        a + word@.len() + 1 <= b <= s@.len(),
    ensures
        final(facts)@ == (WardFactsSpec {
            metadata_comments: old(facts)@.metadata_comments.push(
                metadata_comment(word@, s@, a as int, b as int),
            ),
            ..old(facts)@
        }),
{
    let mut comment: Vec<char> = Vec::new();
    push_str(&mut comment, "// kobo: ");
    push_str(&mut comment, word);
    push_str(&mut comment, " ");
    let word_len = chars_of(word).len();
    let (x, y) = trim_range(s, a + word_len + 1, b);
    push_range(&mut comment, s, x, y);
    let ghost old_comments = facts.metadata_comments@;
    facts.metadata_comments.push(comment);
    proof {
        assert(text_views(facts.metadata_comments@) =~= text_views(old_comments).push(comment@));
    }
}

/// Adds what the line `s[lo..hi]` declares to `facts`.
fn apply_ward_line(facts: &mut WardFacts, s: &[char], lo: usize, hi: usize)
    requires
        lo <= hi <= s@.len(),
    ensures
        final(facts)@ == with_line_fact(old(facts)@, s@, lo as int, hi as int),
{
    let (a, b) = trim_range(s, lo, hi);
    let state_kw = chars_of("state ");
    let obligation_kw = chars_of("obligation ");
    let invariant_kw = chars_of("invariant ");
    let temporal_kw = chars_of("temporal ");
    let port_kw = chars_of("port ");
    let recording_kw = chars_of("recording ");
    let debt_kw = chars_of("debt ");
    if starts_with_at_exec(s, state_kw.as_slice(), a, b) {
        let r = a + state_kw.len();
        let p = find_char(s, ':', r, b);
        if p < b {
            let name = trimmed_copy(s, r, p);
            let ty = trimmed_copy(s, p + 1, b);
            let ghost old_states = facts.states@;
            facts.states.push((name, ty));
            proof {
                assert(pair_views(facts.states@) =~= pair_views(old_states).push((name@, ty@)));
            }
        }
    } else if starts_with_at_exec(s, obligation_kw.as_slice(), a, b) {
        let r = a + obligation_kw.len();
        let must = chars_of(" must ");
        proof {
            reveal_strlit(" must ");
            lemma_first_match(s@, must@, r as int, b as int);
        }
        match find_in(s, must.as_slice(), r, b) {
            Some(m) => {
                let owner_type = trimmed_copy(s, r, m);
                let actions = parse_actions(s, m + must.len(), b);
                let ghost old_obligations = facts.obligations@;
                facts.obligations.push((owner_type, actions));
                proof {
                    assert(obligation_views(facts.obligations@) =~= obligation_views(
                        old_obligations,
                    ).push((owner_type@, text_views(actions@))));
                }
            },
            None => {},
        }
    } else if starts_with_at_exec(s, invariant_kw.as_slice(), a, b) {
        proof { reveal_strlit("invariant "); reveal_strlit("invariant"); }
        push_metadata_comment(facts, "invariant", s, a, b);
    } else if starts_with_at_exec(s, temporal_kw.as_slice(), a, b) {
        proof { reveal_strlit("temporal "); reveal_strlit("temporal"); }
        push_metadata_comment(facts, "temporal", s, a, b);
    } else if starts_with_at_exec(s, port_kw.as_slice(), a, b) {
        proof { reveal_strlit("port "); reveal_strlit("port"); }
        push_metadata_comment(facts, "port", s, a, b);
    } else if starts_with_at_exec(s, recording_kw.as_slice(), a, b) {
        proof { reveal_strlit("recording "); reveal_strlit("recording"); }
        push_metadata_comment(facts, "recording", s, a, b);
    } else if starts_with_at_exec(s, debt_kw.as_slice(), a, b) {
        proof { reveal_strlit("debt "); reveal_strlit("debt"); }
        push_metadata_comment(facts, "debt", s, a, b);
    }
}

/// Facts of every line of `s`.
fn ward_line_facts(s: &[char]) -> (facts: WardFacts)
    ensures
        facts@ == line_facts(s@, line_bounds(s@, 0, s@.len() as int)),
{
    let mut facts = WardFacts {
        states: Vec::new(),
        obligations: Vec::new(),
        scenarios: Vec::new(),
        metadata_comments: Vec::new(),
    };
    let ghost mut done: Seq<(int, int)> = Seq::empty();
    proof {
        assert(pair_views(facts.states@) =~= Seq::<(Seq<char>, Seq<char>)>::empty());
        assert(pair_views(facts.scenarios@) =~= Seq::<(Seq<char>, Seq<char>)>::empty());
        assert(obligation_views(facts.obligations@) =~= Seq::<(Seq<char>, Seq<Seq<char>>)>::empty());
        assert(text_views(facts.metadata_comments@) =~= Seq::<Seq<char>>::empty());
        assert(facts@ =~= line_facts(s@, done));
        assert(done + line_bounds(s@, 0, s@.len() as int) =~= line_bounds(s@, 0, s@.len() as int));
    }
    let mut lo: usize = 0;
    while lo < s.len()
        invariant
            lo <= s@.len(),
            facts@ == line_facts(s@, done),
            done + line_bounds(s@, lo as int, s@.len() as int) == line_bounds(s@, 0, s@.len() as int),
        decreases s@.len() - lo,
    {
        let e = find_char(s, '\n', lo, s.len());
        let end = if e < s.len() && e > lo && s[e - 1] == '\r' { e - 1 } else { e };
        apply_ward_line(&mut facts, s, lo, end);
        proof {
            let rest = if e >= s@.len() { Seq::<(int, int)>::empty() } else { line_bounds(s@, e + 1, s@.len() as int) };
            assert(line_bounds(s@, lo as int, s@.len() as int) == seq![(lo as int, end as int)] + rest);
            assert(done.push((lo as int, end as int)).drop_last() =~= done);
            done = done.push((lo as int, end as int));
            assert(done + rest =~= line_bounds(s@, 0, s@.len() as int));
        }
        if e >= s.len() {
            lo = s.len();
            proof {
                assert(done + line_bounds(s@, lo as int, s@.len() as int) =~= done);
            }
        } else {
            lo = e + 1;
        }
    }
    proof {
        assert(done + line_bounds(s@, lo as int, s@.len() as int) =~= done);
    }
    facts
}

/// Index of the first character in `lo..hi` other than `c`, or `hi`.
pub open spec fn skip_char_front(s: Seq<char>, c: char, lo: int, hi: int) -> int
    decreases hi - lo,
{
    if lo < hi && s[lo] == c { skip_char_front(s, c, lo + 1, hi) } else { lo }
}

/// End of `s[lo..hi]` after dropping trailing `c` characters.
pub open spec fn skip_char_back(s: Seq<char>, c: char, lo: int, hi: int) -> int
    decreases hi - lo,
{
    if lo < hi && s[hi - 1] == c { skip_char_back(s, c, lo, hi - 1) } else { hi }
}

/// `s[lo..hi]` without leading and trailing newlines (`trim_matches('\n')`).
pub open spec fn trim_newlines(s: Seq<char>, lo: int, hi: int) -> Seq<char> {
    let a = skip_char_front(s, '\n', lo, hi);
    s.subrange(a, skip_char_back(s, '\n', a, hi))
}

fn trim_newlines_copy(s: &[char], lo: usize, hi: usize) -> (r: Vec<char>)
    requires
        lo <= hi <= s@.len(),
    ensures
        r@ == trim_newlines(s@, lo as int, hi as int),
{
    let mut a = lo;
    while a < hi && s[a] == '\n'
        invariant
            lo <= a <= hi <= s@.len(),
            skip_char_front(s@, '\n', a as int, hi as int) == skip_char_front(s@, '\n', lo as int, hi as int),
        decreases hi - a,
    {
        a = a + 1;
    }
    let mut b = hi;
    while b > a && s[b - 1] == '\n'
        invariant
            a <= b <= hi <= s@.len(),
            skip_char_back(s@, '\n', a as int, b as int) == skip_char_back(s@, '\n', a as int, hi as int),
        decreases b - a,
    {
        b = b - 1;
    }
    copy_range(s, a, b)
}

/// The scenarios of a ward body found from `search`: each `scenario name { ... }`
/// keyword (found in `cleaned`) yields its name and its brace body.
pub open spec fn scenario_facts(body: Seq<char>, cleaned: Seq<char>, search: int) -> Seq<(Seq<char>, Seq<char>)>
    decreases cleaned.len() - search via scenario_facts_decreases
{
    if search < 0 || cleaned.len() != body.len() {
        Seq::empty()
    } else {
        match keyword_search(cleaned, "scenario"@, search) {
            None => Seq::empty(),
            Some(sc) => {
                let name_start = sc + "scenario "@.len();
                let name_end = ident_end(cleaned, name_start);
                let name = sub_trim(body, name_start, name_end);
                match first_match(cleaned, seq!['{'], name_end, cleaned.len() as int) {
                    None => scenario_facts(body, cleaned, name_end),
                    Some(bs) => match brace_close(cleaned, bs, 0) {
                        None => Seq::empty(),
                        Some(be) => seq![(name, trim_newlines(body, bs + 1, be))] + scenario_facts(
                            body,
                            cleaned,
                            be + 1,
                        ),
                    },
                }
            },
        }
    }
}

#[via_fn]
proof fn scenario_facts_decreases(body: Seq<char>, cleaned: Seq<char>, search: int) {
    reveal_strlit("scenario");
    reveal_strlit("scenario ");
    if !(search < 0 || cleaned.len() != body.len()) {
        lemma_keyword_search(cleaned, "scenario"@, search);
        if let Some(sc) = keyword_search(cleaned, "scenario"@, search) {
            let name_start = sc + "scenario "@.len();
            lemma_skip_ident(cleaned, name_start);
            let name_end = ident_end(cleaned, name_start);
            lemma_first_match(cleaned, seq!['{'], name_end, cleaned.len() as int);
            if let Some(bs) = first_match(cleaned, seq!['{'], name_end, cleaned.len() as int) {
                lemma_brace_close(cleaned, bs, 0);
            }
        }
    }
}

/// The facts declared by a ward body: `state`, `obligation` and metadata lines
/// (read line by line, trimmed) and `scenario name { ... }` blocks.
pub fn parse_ward_facts(body: &[char]) -> (facts: WardFacts)
    ensures
        facts@ == (WardFactsSpec {
            scenarios: scenario_facts(body@, scrubbed(body@), 0),
            ..line_facts(body@, line_bounds(body@, 0, body@.len() as int))
        }),
{
    let mut facts = ward_line_facts(body);
    let ghost lines = facts@;
    let cleaned = scrub_comments_and_strings(body);
    proof {
        lemma_scrubbed_from_len(body@, 0);
        reveal_strlit("scenario");
        reveal_strlit("scenario ");
        assert(pair_views(facts.scenarios@) =~= Seq::<(Seq<char>, Seq<char>)>::empty()) by {
            assert(lines.scenarios =~= Seq::<(Seq<char>, Seq<char>)>::empty()) by {
                lemma_line_facts_no_scenarios(body@, line_bounds(body@, 0, body@.len() as int));
            }
        }
    }
    let kw = chars_of("scenario");
    let mut search: usize = 0;
    loop
        invariant
            cleaned@ == scrubbed(body@),
            cleaned@.len() == body@.len(),
            kw@ == "scenario"@,
            "scenario"@.len() == 8,
            "scenario "@.len() == 9,
            search <= cleaned@.len(),
            facts@.states == lines.states,
            facts@.obligations == lines.obligations,
            facts@.metadata_comments == lines.metadata_comments,
            lines == line_facts(body@, line_bounds(body@, 0, body@.len() as int)),
            facts@.scenarios + scenario_facts(body@, cleaned@, search as int) == scenario_facts(
                body@,
                cleaned@,
                0,
            ),
        ensures
            facts@.states == lines.states,
            facts@.obligations == lines.obligations,
            facts@.metadata_comments == lines.metadata_comments,
            facts@.scenarios == scenario_facts(body@, scrubbed(body@), 0),
        decreases cleaned@.len() - search,
    {
        let sc = match find_keyword(cleaned.as_slice(), search, kw.as_slice()) {
            Some(sc) => sc,
            None => {
                proof {
                    assert(facts@.scenarios + Seq::<(Seq<char>, Seq<char>)>::empty() =~= facts@.scenarios);
                }
                break;
            },
        };
        let name_start = sc + kw.len() + 1;
        proof {
            lemma_skip_ident(cleaned@, name_start as int);
        }
        let name_end = ident_end_exec(cleaned.as_slice(), name_start);
        let name = trimmed_copy(body, name_start, name_end);
        let mut open_brace: Vec<char> = Vec::new();
        open_brace.push('{');
        assert(open_brace@ =~= seq!['{']);
        proof {
            lemma_first_match(cleaned@, open_brace@, name_end as int, cleaned@.len() as int);
        }
        let bs = match find_in(cleaned.as_slice(), open_brace.as_slice(), name_end, cleaned.len()) {
            Some(bs) => bs,
            None => {
                search = name_end;
                continue;
            },
        };
        proof {
            lemma_brace_close(cleaned@, bs as int, 0);
            assert(cleaned@.subrange(bs as int, bs + 1)[0] == '{');
            reveal_with_fuel(brace_close, 2);
        }
        let be = match matching_brace_in_bytes(cleaned.as_slice(), bs) {
            Some(be) => be,
            None => {
                proof {
                    assert(facts@.scenarios + Seq::<(Seq<char>, Seq<char>)>::empty() =~= facts@.scenarios);
                }
                break;
            },
        };
        let text = trim_newlines_copy(body, bs + 1, be);
        let ghost prev = facts.scenarios@;
        facts.scenarios.push((name, text));
        proof {
            assert(pair_views(facts.scenarios@) =~= pair_views(prev).push((name@, text@)));
            assert(pair_views(prev).push((name@, text@)) + scenario_facts(body@, cleaned@, be + 1) =~= pair_views(prev) + (seq![(name@, text@)] + scenario_facts(body@, cleaned@, be + 1)));
        }
        search = be + 1;
    }
    proof {
        assert(facts@.scenarios == scenario_facts(body@, scrubbed(body@), 0));
    }
    facts
}

proof fn lemma_line_facts_no_scenarios(s: Seq<char>, lines: Seq<(int, int)>)
    ensures
        line_facts(s, lines).scenarios == Seq::<(Seq<char>, Seq<char>)>::empty(),
    decreases lines.len(),
{
    if lines.len() > 0 {
        lemma_line_facts_no_scenarios(s, lines.drop_last());
    }
}

/// The facts a ward body declares.
pub open spec fn ward_facts(body: Seq<char>) -> WardFactsSpec {
    WardFactsSpec {
        scenarios: scenario_facts(body, scrubbed(body), 0),
        ..line_facts(body, line_bounds(body, 0, body.len() as int))
    }
}

/// `    name: Type,` lines of the ward struct.
pub open spec fn state_lines(states: Seq<(Seq<char>, Seq<char>)>) -> Seq<char>
    decreases states.len(),
{
    if states.len() == 0 {
        Seq::empty()
    } else {
        state_lines(states.drop_last()) + "    "@ + states.last().0 + ": "@ + states.last().1 + ",\n"@
    }
}

/// One empty method per terminal action.
pub open spec fn action_fns(actions: Seq<Seq<char>>) -> Seq<char>
    decreases actions.len(),
{
    if actions.len() == 0 {
        Seq::empty()
    } else {
        action_fns(actions.drop_last()) + "    fn "@ + actions.last() + "(self) {}\n"@
    }
}

/// A `must_call` obligation type and its impl of terminal actions.
pub open spec fn obligation_item(owner: Seq<char>, actions: Seq<Seq<char>>) -> Seq<char> {
    "#[kobo::must_call("@ + joined(actions, " | "@) + ")]\nstruct "@ + owner + " {}\n\n"@ + "impl "@
        + owner + " {\n"@ + action_fns(actions) + "}\n\n"@
}

pub open spec fn obligation_items(obligations: Seq<(Seq<char>, Seq<Seq<char>>)>) -> Seq<char>
    decreases obligations.len(),
{
    if obligations.len() == 0 {
        Seq::empty()
    } else {
        obligation_items(obligations.drop_last()) + obligation_item(
            obligations.last().0,
            obligations.last().1,
        )
    }
}

pub open spec fn comment_lines(comments: Seq<Seq<char>>) -> Seq<char>
    decreases comments.len(),
{
    if comments.len() == 0 {
        Seq::empty()
    } else {
        comment_lines(comments.drop_last()) + comments.last() + "\n"@
    }
}

/// A scenario block as a `#[kobo::scenario]` function.
pub open spec fn scenario_item(name: Seq<char>, body: Seq<char>) -> Seq<char> {
    "#[kobo::scenario(profile = \"sync\")]\n"@ + "fn "@ + name + "() {\n"@ + body + "\n}\n\n"@
}

pub open spec fn scenario_items(scenarios: Seq<(Seq<char>, Seq<char>)>) -> Seq<char>
    decreases scenarios.len(),
{
    if scenarios.len() == 0 {
        Seq::empty()
    } else {
        scenario_items(scenarios.drop_last()) + scenario_item(scenarios.last().0, scenarios.last().1)
    }
}

/// The Rust items a ward named `name` with the given facts becomes.
pub open spec fn ward_attribute_text(name: Seq<char>, facts: WardFactsSpec) -> Seq<char> {
    "#[kobo::ward]\n"@ + "struct "@ + name + " {\n"@ + state_lines(facts.states) + "}\n\n"@
        + obligation_items(facts.obligations) + comment_lines(facts.metadata_comments)
        + scenario_items(facts.scenarios)
}

proof fn lemma_scenario_items_contain(scenarios: Seq<(Seq<char>, Seq<char>)>, k: int)
    requires
        0 <= k < scenarios.len(),
    ensures
        crate::text::contains_seq(scenario_items(scenarios),
            "#[kobo::scenario(profile = \"sync\")]\n"@ + "fn "@ + scenarios[k].0 + "() {\n"@ + scenarios[k].1 + "\n}\n\n"@),
    decreases scenarios.len(),
{
    let item = "#[kobo::scenario(profile = \"sync\")]\n"@ + "fn "@ + scenarios[k].0 + "() {\n"@ + scenarios[k].1 + "\n}\n\n"@;
    let prev = scenario_items(scenarios.drop_last());
    if k == scenarios.len() - 1 {
        crate::text::lemma_contains_self(item);
        crate::text::lemma_contains_extend(item, item, prev, Seq::empty());
        assert(prev + item + Seq::<char>::empty() =~= scenario_items(scenarios));
    } else {
        lemma_scenario_items_contain(scenarios.drop_last(), k);
        let last = scenario_item(scenarios.last().0, scenarios.last().1);
        crate::text::lemma_contains_extend(prev, item, Seq::empty(), last);
        assert(Seq::<char>::empty() + prev + last =~= scenario_items(scenarios));
    }
}

/// Every scenario that a ward declares becomes a `#[kobo::scenario]`
/// function with its name and body in the ward's rewritten source.
pub proof fn lemma_ward_keeps_scenarios(name: Seq<char>, facts: WardFactsSpec, k: int)
    requires
        0 <= k < facts.scenarios.len(),
    ensures
        crate::text::contains_seq(ward_attribute_text(name, facts),
            "#[kobo::scenario(profile = \"sync\")]\n"@ + "fn "@ + facts.scenarios[k].0 + "() {\n"@ + facts.scenarios[k].1 + "\n}\n\n"@),
{
    let item = "#[kobo::scenario(profile = \"sync\")]\n"@ + "fn "@ + facts.scenarios[k].0 + "() {\n"@ + facts.scenarios[k].1 + "\n}\n\n"@;
    lemma_scenario_items_contain(facts.scenarios, k);
    let head = "#[kobo::ward]\n"@ + "struct "@ + name + " {\n"@ + state_lines(facts.states) + "}\n\n"@
        + obligation_items(facts.obligations) + comment_lines(facts.metadata_comments);
    crate::text::lemma_contains_extend(scenario_items(facts.scenarios), item, head, Seq::empty());
    assert(head + scenario_items(facts.scenarios) + Seq::<char>::empty() =~= ward_attribute_text(name, facts));
}

fn push_joined(out: &mut Vec<char>, parts: &Vec<Vec<char>>, sep: &str)
    ensures
        final(out)@ == old(out)@ + joined(text_views(parts@), sep@),
{
    let ghost start = out@;
    let mut i: usize = 0;
    while i < parts.len()
        invariant
            i <= parts@.len(),
            out@ == start + joined(text_views(parts@.take(i as int)), sep@),
        decreases parts@.len() - i,
    {
        if i > 0 {
            push_str(out, sep);
        }
        push_all(out, parts[i].as_slice());
        proof {
            let v = text_views(parts@.take(i + 1));
            assert(v.drop_last() =~= text_views(parts@.take(i as int)));
            assert(v.last() == parts@[i as int]@);
            if i == 0 {
                assert(v.len() == 1);
                assert(text_views(parts@.take(0)) =~= Seq::<Seq<char>>::empty());
            }
            assert(out@ =~= start + joined(v, sep@));
        }
        i = i + 1;
    }
    assert(parts@.take(parts@.len() as int) =~= parts@);
}

/// Renders a parsed ward as attribute-annotated Rust items: the ward struct with
/// its state fields, a `must_call` struct and impl per obligation, the metadata
/// comments, and a scenario function per scenario.
pub fn ward_to_attribute_source(ward: &WardBlock) -> (out: Vec<char>)
    ensures
        out@ == ward_attribute_text(ward.name@, ward_facts(ward.body@)),
{
    let facts = parse_ward_facts(ward.body.as_slice());
    let mut out: Vec<char> = Vec::new();
    push_str(&mut out, "#[kobo::ward]\n");
    push_str(&mut out, "struct ");
    push_all(&mut out, ward.name.as_slice());
    push_str(&mut out, " {\n");
    let ghost head = out@;
    let mut i: usize = 0;
    while i < facts.states.len()
        invariant
            i <= facts.states@.len(),
            out@ == head + state_lines(pair_views(facts.states@.take(i as int))),
        decreases facts.states@.len() - i,
    {
        push_str(&mut out, "    ");
        push_all(&mut out, facts.states[i].0.as_slice());
        push_str(&mut out, ": ");
        push_all(&mut out, facts.states[i].1.as_slice());
        push_str(&mut out, ",\n");
        proof {
            let v = pair_views(facts.states@.take(i + 1));
            assert(v.drop_last() =~= pair_views(facts.states@.take(i as int)));
        }
        i = i + 1;
    }
    push_str(&mut out, "}\n\n");
    assert(facts.states@.take(facts.states@.len() as int) =~= facts.states@);
    let ghost head = out@;
    let mut i: usize = 0;
    while i < facts.obligations.len()
        invariant
            i <= facts.obligations@.len(),
            out@ == head + obligation_items(obligation_views(facts.obligations@.take(i as int))),
        decreases facts.obligations@.len() - i,
    {
        let owner = &facts.obligations[i].0;
        let actions = &facts.obligations[i].1;
        let ghost before = out@;
        push_str(&mut out, "#[kobo::must_call(");
        push_joined(&mut out, actions, " | ");
        push_str(&mut out, ")]\nstruct ");
        push_all(&mut out, owner.as_slice());
        push_str(&mut out, " {}\n\n");
        push_str(&mut out, "impl ");
        push_all(&mut out, owner.as_slice());
        push_str(&mut out, " {\n");
        let ghost fns_start = out@;
        let mut j: usize = 0;
        while j < actions.len()
            invariant
                j <= actions@.len(),
                out@ == fns_start + action_fns(text_views(actions@.take(j as int))),
            decreases actions@.len() - j,
        {
            push_str(&mut out, "    fn ");
            push_all(&mut out, actions[j].as_slice());
            push_str(&mut out, "(self) {}\n");
            proof {
                let v = text_views(actions@.take(j + 1));
                assert(v.drop_last() =~= text_views(actions@.take(j as int)));
            }
            j = j + 1;
        }
        push_str(&mut out, "}\n\n");
        proof {
            assert(actions@.take(actions@.len() as int) =~= actions@);
            let v = obligation_views(facts.obligations@.take(i + 1));
            assert(v.drop_last() =~= obligation_views(facts.obligations@.take(i as int)));
            assert(out@ =~= before + obligation_item(owner@, text_views(actions@)));
        }
        i = i + 1;
    }
    assert(facts.obligations@.take(facts.obligations@.len() as int) =~= facts.obligations@);
    let ghost head = out@;
    let mut i: usize = 0;
    while i < facts.metadata_comments.len()
        invariant
            i <= facts.metadata_comments@.len(),
            out@ == head + comment_lines(text_views(facts.metadata_comments@.take(i as int))),
        decreases facts.metadata_comments@.len() - i,
    {
        push_all(&mut out, facts.metadata_comments[i].as_slice());
        out.push('\n');
        proof {
            reveal_strlit("\n");
            let v = text_views(facts.metadata_comments@.take(i + 1));
            assert(v.drop_last() =~= text_views(facts.metadata_comments@.take(i as int)));
        }
        i = i + 1;
    }
    assert(facts.metadata_comments@.take(facts.metadata_comments@.len() as int) =~= facts.metadata_comments@);
    let ghost head = out@;
    let mut i: usize = 0;
    while i < facts.scenarios.len()
        invariant
            i <= facts.scenarios@.len(),
            out@ == head + scenario_items(pair_views(facts.scenarios@.take(i as int))),
        decreases facts.scenarios@.len() - i,
    {
        let ghost before = out@;
        push_str(&mut out, "#[kobo::scenario(profile = \"sync\")]\n");
        push_str(&mut out, "fn ");
        push_all(&mut out, facts.scenarios[i].0.as_slice());
        push_str(&mut out, "() {\n");
        push_all(&mut out, facts.scenarios[i].1.as_slice());
        push_str(&mut out, "\n}\n\n");
        proof {
            let v = pair_views(facts.scenarios@.take(i + 1));
            assert(v.drop_last() =~= pair_views(facts.scenarios@.take(i as int)));
            assert(out@ =~= before + scenario_item(facts.scenarios@[i as int].0@, facts.scenarios@[i as int].1@));
        }
        i = i + 1;
    }
    assert(facts.scenarios@.take(facts.scenarios@.len() as int) =~= facts.scenarios@);
    assert(out@ =~= ward_attribute_text(ward.name@, ward_facts(ward.body@)));
    out
}

/// A byte offset as the 32-bit span fields store it (`as u32`, modulo 2^32).
pub open spec fn trunc32(n: int) -> u32 {
    (n % 0x1_0000_0000) as u32
}

proof fn lemma_trunc32_step(n: nat, w: nat)
    requires
        w <= 4,
    ensures
        trunc32(n + w as int) == vstd::wrapping::u32_specs::wrapping_add(trunc32(n as int), w as u32),
{
    let m: int = 0x1_0000_0000;
    vstd::arithmetic::div_mod::lemma_add_mod_noop(n as int, w as int, m);
    vstd::arithmetic::div_mod::lemma_small_mod(w, m as nat);
    let x: int = (n as int) % m;
    assert(0 <= x < m);
    if x + w >= m {
        vstd::arithmetic::div_mod::lemma_mod_sub_multiples_vanish(x + w as int, m);
        vstd::arithmetic::div_mod::lemma_small_mod((x + w - m) as nat, m as nat);
    } else {
        vstd::arithmetic::div_mod::lemma_small_mod((x + w) as nat, m as nat);
    }
}

/// The UTF-8 byte length of `s`, truncated to 32 bits.
pub fn utf8_len_u32(s: &[char]) -> (n: u32)
    ensures
        n == trunc32(utf8_len(s@) as int),
{
    let mut n: u32 = 0;
    let mut i: usize = 0;
    assert(s@.take(0) =~= Seq::<char>::empty());
    while i < s.len()
        invariant
            i <= s@.len(),
            n == trunc32(utf8_len(s@.take(i as int)) as int),
        decreases s@.len() - i,
    {
        let w = char_utf8_width(s[i]);
        proof {
            let a = s@.take(i as int);
            let one = seq![s@[i as int]];
            assert(s@.take(i + 1) =~= a + one);
            lemma_utf8_len_concat(a, one);
            assert(one.drop_first() =~= Seq::<char>::empty());
            assert(utf8_len(Seq::<char>::empty()) == 0);
            assert(utf8_len(one) == utf8_width(one[0]) + utf8_len(one.drop_first()));
            assert(utf8_len(one) == utf8_width(s@[i as int]));
            lemma_trunc32_step(utf8_len(a), w as nat);
        }
        n = n.wrapping_add(w as u32);
        i = i + 1;
    }
    assert(s@.take(s@.len() as int) =~= s@);
    n
}

fn trunc_usize(x: usize) -> (r: u32)
    ensures
        r == trunc32(x as int),
{
    ((x as u64) % 0x1_0000_0000u64) as u32
}

/// One segment of a preprocessing source map: a generated byte range and the
/// original byte range it came from.
#[derive(Clone, Copy, Debug, PartialEq, Eq, Structural)]
pub struct SourceMapSegment {
    pub generated_start: u32,
    pub generated_end: u32,
    pub original_start: u32,
    pub original_end: u32,
}

/// A piece of the rewritten source: a verbatim copy of `source[lo..hi]`, or a
/// ward block `source[lo..hi]` replaced by generated text.
pub enum RewritePiece {
    Copy(int, int),
    Ward(int, int, Seq<char>),
}

pub open spec fn copy_piece(lo: int, hi: int) -> Seq<RewritePiece> {
    if lo < hi { seq![RewritePiece::Copy(lo, hi)] } else { Seq::empty() }
}

/// The pieces of the rewrite of `source` from `cursor`: text up to each ward
/// keyword is copied, each parsed ward block is replaced by its items, and
/// scanning stops at the first keyword whose block does not parse.
pub open spec fn ward_pieces(source: Seq<char>, cleaned: Seq<char>, cursor: int) -> Seq<RewritePiece>
    decreases source.len() - cursor via ward_pieces_decreases
{
    if cursor < 0 || cursor > source.len() || cleaned.len() != source.len() {
        Seq::empty()
    } else {
        match keyword_search(cleaned, ward_word(), cursor) {
            None => copy_piece(cursor, source.len() as int),
            Some(ws) => match ward_block_at(source, cleaned, ws) {
                None => copy_piece(cursor, source.len() as int),
                Some((name, start, end, body)) => copy_piece(cursor, ws) + seq![
                    RewritePiece::Ward(start, end, ward_attribute_text(name, ward_facts(body))),
                ] + ward_pieces(source, cleaned, end),
            },
        }
    }
}

#[via_fn]
proof fn ward_pieces_decreases(source: Seq<char>, cleaned: Seq<char>, cursor: int) {
    if !(cursor < 0 || cursor > source.len() || cleaned.len() != source.len()) {
        lemma_keyword_search(cleaned, ward_word(), cursor);
        if let Some(ws) = keyword_search(cleaned, ward_word(), cursor) {
            lemma_ward_block_at(source, cleaned, ws);
        }
    }
}

proof fn lemma_ward_block_at(source: Seq<char>, cleaned: Seq<char>, start: int)
    requires
        cleaned.len() == source.len(),
        0 <= start,
        start + 4 <= source.len(),
    ensures
        ward_block_at(source, cleaned, start) matches Some((n, st, en, b)) ==> st == start && start
            < en <= source.len(),
{
    lemma_skip_ident(cleaned, start + 4);
    let name_start = skip_ascii_ws(cleaned, start + 4);
    lemma_skip_ident(cleaned, name_start);
    let name_end = ident_end(cleaned, name_start);
    lemma_first_match(cleaned, seq!['{'], name_end, cleaned.len() as int);
    if let Some(bs) = first_match(cleaned, seq!['{'], name_end, cleaned.len() as int) {
        lemma_brace_close(cleaned, bs, 0);
    }
}

pub open spec fn piece_text(source: Seq<char>, p: RewritePiece) -> Seq<char> {
    match p {
        RewritePiece::Copy(lo, hi) => source.subrange(lo, hi),
        RewritePiece::Ward(_, _, text) => text,
    }
}

pub open spec fn pieces_text(source: Seq<char>, ps: Seq<RewritePiece>) -> Seq<char>
    decreases ps.len(),
{
    if ps.len() == 0 {
        Seq::empty()
    } else {
        pieces_text(source, ps.drop_last()) + piece_text(source, ps.last())
    }
}

/// Source-map segments of the pieces: each maps its generated byte range to the
/// original byte range it replaces or copies.
pub open spec fn pieces_segments(source: Seq<char>, ps: Seq<RewritePiece>) -> Seq<SourceMapSegment>
    decreases ps.len(),
{
    if ps.len() == 0 {
        Seq::empty()
    } else {
        let (lo, hi) = match ps.last() {
            RewritePiece::Copy(lo, hi) => (lo, hi),
            RewritePiece::Ward(lo, hi, _) => (lo, hi),
        };
        pieces_segments(source, ps.drop_last()).push(
            SourceMapSegment {
                generated_start: trunc32(utf8_len(pieces_text(source, ps.drop_last())) as int),
                generated_end: trunc32(utf8_len(pieces_text(source, ps)) as int),
                original_start: trunc32(utf8_len(source.take(lo)) as int),
                original_end: trunc32(utf8_len(source.take(hi)) as int),
            },
        )
    }
}

/// Rewritten source and its map back to the original; `None` stands for the
/// identity map (nothing was rewritten).
pub struct PreprocessedWard {
    pub rewritten: Vec<char>,
    pub source_map: Option<Vec<SourceMapSegment>>,
}

fn push_segment(
    rewritten: &mut Vec<char>,
    source_map: &mut Vec<SourceMapSegment>,
    text: &[char],
    original_start: u32,
    original_end: u32,
)
    ensures
        final(rewritten)@ == old(rewritten)@ + text@,
        final(source_map)@ == old(source_map)@.push(
            SourceMapSegment {
                generated_start: trunc32(utf8_len(old(rewritten)@) as int),
                generated_end: trunc32(utf8_len(old(rewritten)@ + text@) as int),
                original_start,
                original_end,
            },
        ),
{
    let generated_start = utf8_len_u32(rewritten.as_slice());
    push_all(rewritten, text);
    let generated_end = utf8_len_u32(rewritten.as_slice());
    source_map.push(SourceMapSegment { generated_start, generated_end, original_start, original_end });
}

/// Copies `source[start..end]` into the rewrite with its segment; nothing for
/// an empty range.
pub fn push_rewrite_segment(
    rewritten: &mut Vec<char>,
    source_map: &mut Vec<SourceMapSegment>,
    source: &[char],
    start: usize,
    end: usize,
)
    requires
        end <= source@.len(),
        utf8_len(source@) <= usize::MAX,
    ensures
        start >= end ==> final(rewritten)@ == old(rewritten)@ && final(source_map)@ == old(source_map)@,
        start < end ==> final(rewritten)@ == old(rewritten)@ + source@.subrange(start as int, end as int)
            && final(source_map)@ == old(source_map)@.push(
            SourceMapSegment {
                generated_start: trunc32(utf8_len(old(rewritten)@) as int),
                generated_end: trunc32(
                    utf8_len(old(rewritten)@ + source@.subrange(start as int, end as int)) as int,
                ),
                original_start: trunc32(utf8_len(source@.take(start as int)) as int),
                original_end: trunc32(utf8_len(source@.take(end as int)) as int),
            },
        ),
{
    if start >= end {
        return;
    }
    proof {
        lemma_utf8_len_prefix(source@, start as int);
        lemma_utf8_len_prefix(source@, end as int);
    }
    let original_start = trunc_usize(utf8_len_range(source, 0, start));
    let original_end = trunc_usize(utf8_len_range(source, 0, end));
    proof {
        assert(source@.subrange(0, start as int) =~= source@.take(start as int));
        assert(source@.subrange(0, end as int) =~= source@.take(end as int));
    }
    let piece = copy_range(source, start, end);
    push_segment(rewritten, source_map, piece.as_slice(), original_start, original_end);
}

proof fn lemma_utf8_len_prefix(s: Seq<char>, k: int)
    requires
        0 <= k <= s.len(),
    ensures
        utf8_len(s.subrange(0, k)) <= utf8_len(s),
{
    lemma_utf8_len_concat(s.subrange(0, k), s.subrange(k, s.len() as int));
    assert(s.subrange(0, k) + s.subrange(k, s.len() as int) =~= s);
}

pub open spec fn segments_view(v: Option<Vec<SourceMapSegment>>) -> Option<Seq<SourceMapSegment>> {
    match v {
        Some(v) => Some(v@),
        None => None,
    }
}

/// The ward preprocessing of `source`: unchanged with the identity map when it
/// has no `ward` keyword outside comments and strings, else the rewrite pieces'
/// text and segments.
pub open spec fn preprocessed_ward(source: Seq<char>) -> (Seq<char>, Option<Seq<SourceMapSegment>>) {
    let cleaned = scrubbed(source);
    if keyword_search(cleaned, ward_word(), 0) is None {
        (source, None)
    } else {
        let ps = ward_pieces(source, cleaned, 0);
        (pieces_text(source, ps), Some(pieces_segments(source, ps)))
    }
}

/// Rewrites every `ward Name { ... }` block of `source` into attribute-annotated
/// items, recording where each generated range came from.
pub fn preprocess_ward_syntax_mapped(source: &[char]) -> (r: PreprocessedWard)
    requires
        utf8_len(source@) <= usize::MAX,
    ensures
        (r.rewritten@, segments_view(r.source_map)) == preprocessed_ward(source@),
{
    let cleaned = scrub_comments_and_strings(source);
    proof {
        lemma_scrubbed_from_len(source@, 0);
    }
    if find_ward_keyword(cleaned.as_slice(), 0).is_none() {
        return PreprocessedWard { rewritten: copy_range(source, 0, source.len()), source_map: None };
    }
    let mut rewritten: Vec<char> = Vec::new();
    let mut source_map: Vec<SourceMapSegment> = Vec::new();
    let mut cursor: usize = 0;
    let ghost mut done: Seq<RewritePiece> = Seq::empty();
    proof {
        assert(done + ward_pieces(source@, cleaned@, 0) =~= ward_pieces(source@, cleaned@, 0));
    }
    loop
        invariant
            cursor <= source@.len(),
            cleaned@ == scrubbed(source@),
            cleaned@.len() == source@.len(),
            utf8_len(source@) <= usize::MAX,
            done + ward_pieces(source@, cleaned@, cursor as int) == ward_pieces(source@, cleaned@, 0),
            rewritten@ == pieces_text(source@, done),
            source_map@ == pieces_segments(source@, done),
        ensures
            cursor <= source@.len(),
            done + copy_piece(cursor as int, source@.len() as int) == ward_pieces(source@, cleaned@, 0),
            rewritten@ == pieces_text(source@, done),
            source_map@ == pieces_segments(source@, done),
        decreases source@.len() - cursor,
    {
        let ward_start = match find_ward_keyword(cleaned.as_slice(), cursor) {
            Some(w) => w,
            None => {
                break;
            },
        };
        let ward = match parse_ward_block(source, cleaned.as_slice(), ward_start) {
            Some(w) => w,
            None => {
                break;
            },
        };
        proof {
            lemma_ward_block_at(source@, cleaned@, ward_start as int);
        }
        let ghost before_text = rewritten@;
        let ghost before_map = source_map@;
        push_rewrite_segment(&mut rewritten, &mut source_map, source, cursor, ward_start);
        proof {
            let cp = copy_piece(cursor as int, ward_start as int);
            if cursor < ward_start {
                assert((done + cp).drop_last() =~= done);
                assert(pieces_text(source@, done + cp) == before_text + source@.subrange(cursor as int, ward_start as int));
            } else {
                assert(done + cp =~= done);
            }
            done = done + cp;
        }
        let generated = ward_to_attribute_source(&ward);
        proof {
            lemma_utf8_len_prefix(source@, ward.start as int);
            lemma_utf8_len_prefix(source@, ward.end as int);
            assert(source@.subrange(0, ward.start as int) =~= source@.take(ward.start as int));
            assert(source@.subrange(0, ward.end as int) =~= source@.take(ward.end as int));
        }
        let original_start = trunc_usize(utf8_len_range(source, 0, ward.start));
        let original_end = trunc_usize(utf8_len_range(source, 0, ward.end));
        push_segment(&mut rewritten, &mut source_map, generated.as_slice(), original_start, original_end);
        proof {
            let wp = RewritePiece::Ward(
                ward.start as int,
                ward.end as int,
                ward_attribute_text(ward.name@, ward_facts(ward.body@)),
            );
            assert(done.push(wp).drop_last() =~= done);
            assert(done.push(wp).last() == wp);
            assert(pieces_text(source@, done.push(wp)) == pieces_text(source@, done) + generated@);
            assert(pieces_segments(source@, done.push(wp)) == pieces_segments(source@, done).push(
                SourceMapSegment {
                    generated_start: trunc32(utf8_len(pieces_text(source@, done)) as int),
                    generated_end: trunc32(utf8_len(pieces_text(source@, done) + generated@) as int),
                    original_start: trunc32(utf8_len(source@.take(ward.start as int)) as int),
                    original_end: trunc32(utf8_len(source@.take(ward.end as int)) as int),
                },
            ));
            done = done.push(wp);
            assert(ward_pieces(source@, cleaned@, cursor as int) == copy_piece(cursor as int, ward_start as int)
                + seq![wp] + ward_pieces(source@, cleaned@, ward.end as int));
        }
        cursor = ward.end;
    }
    let ghost before_text = rewritten@;
    push_rewrite_segment(&mut rewritten, &mut source_map, source, cursor, source.len());
    proof {
        let cp = copy_piece(cursor as int, source@.len() as int);
        if cursor < source.len() {
            assert((done + cp).drop_last() =~= done);
        } else {
            assert(done + cp =~= done);
        }
        done = done + cp;
    }
    PreprocessedWard { rewritten, source_map: Some(source_map) }
}

/// `n` spaces.
pub open spec fn spaces(n: nat) -> Seq<char> {
    Seq::new(n, |i: int| ' ')
}

/// `source` from `pos` with every ` using { ... }` field-capability list
/// replaced by as many spaces as it has bytes.
pub open spec fn masked_from(s: Seq<char>, pos: int) -> Seq<char>
    decreases s.len() - pos via masked_from_decreases
{
    if pos < 0 || pos > s.len() {
        Seq::empty()
    } else {
        match first_match(s, " using {"@, pos, s.len() as int) {
            None => s.subrange(pos, s.len() as int),
            Some(start) => {
                let close = char_index(s, '}', start, s.len() as int);
                if close >= s.len() {
                    s.subrange(pos, s.len() as int)
                } else {
                    s.subrange(pos, start) + spaces(utf8_len(s.subrange(start, close + 1)))
                        + masked_from(s, close + 1)
                }
            },
        }
    }
}

#[via_fn]
proof fn masked_from_decreases(s: Seq<char>, pos: int) {
    reveal_strlit(" using {");
    if !(pos < 0 || pos > s.len()) {
        lemma_first_match(s, " using {"@, pos, s.len() as int);
        if let Some(start) = first_match(s, " using {"@, pos, s.len() as int) {
            lemma_char_index(s, '}', start, s.len() as int);
        }
    }
}

/// Blanks the ` using { ... }` field-capability lists (keeping byte offsets)
/// so that the Rust parser does not see them.
pub fn mask_field_capability_views(source: &[char]) -> (output: Vec<char>)
    requires
        utf8_len(source@) <= usize::MAX,
    ensures
        output@ == masked_from(source@, 0),
{
    let needle = chars_of(" using {");
    proof {
        reveal_strlit(" using {");
    }
    let mut output: Vec<char> = Vec::new();
    let mut pos: usize = 0;
    loop
        invariant
            pos <= source@.len(),
            needle@ == " using {"@,
            needle@.len() == 8,
            utf8_len(source@) <= usize::MAX,
            output@ + masked_from(source@, pos as int) == masked_from(source@, 0),
        ensures
            output@ + source@.subrange(pos as int, source@.len() as int) == masked_from(source@, 0),
        decreases source@.len() - pos,
    {
        proof {
            lemma_first_match(source@, needle@, pos as int, source@.len() as int);
        }
        let start = match find_in(source, needle.as_slice(), pos, source.len()) {
            Some(start) => start,
            None => {
                break;
            },
        };
        proof {
            lemma_char_index(source@, '}', start as int, source@.len() as int);
        }
        let close = find_char(source, '}', start, source.len());
        if close >= source.len() {
            break;
        }
        let ghost before = output@;
        push_range(&mut output, source, pos, start);
        proof {
            lemma_utf8_len_prefix(source@.subrange(start as int, source@.len() as int), close + 1 - start);
            assert(source@.subrange(start as int, source@.len() as int).subrange(0, close + 1 - start)
                =~= source@.subrange(start as int, close + 1));
            lemma_utf8_len_concat(source@.subrange(0, start as int), source@.subrange(start as int, source@.len() as int));
            assert(source@.subrange(0, start as int) + source@.subrange(start as int, source@.len() as int) =~= source@);
        }
        let width = utf8_len_range(source, start, close + 1);
        let ghost mid = output@;
        let mut k: usize = 0;
        while k < width
            invariant
                k <= width,
                output@ == mid + spaces(k as nat),
            decreases width - k,
        {
            output.push(' ');
            k = k + 1;
            assert(output@ =~= mid + spaces(k as nat));
        }
        proof {
            assert(output@ + masked_from(source@, close + 1) =~= before + masked_from(source@, pos as int));
        }
        pos = close + 1;
    }
    push_range(&mut output, source, pos, source.len());
    output
}

} // verus!
