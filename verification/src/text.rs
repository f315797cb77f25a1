//! Character-level scanning used by the source preprocessors: identifier and
//! whitespace classes, substring search, trimming and line splitting.
use vstd::prelude::*;

verus! {

/// ASCII letters, digits and `_`.
pub open spec fn is_ident_char(c: char) -> bool {
    ('0' as u32 <= c as u32 <= '9' as u32) || ('a' as u32 <= c as u32 <= 'z' as u32)
        || ('A' as u32 <= c as u32 <= 'Z' as u32) || c == '_'
}

/// `char::is_ascii_whitespace`: space, tab, line feed, form feed, carriage return.
pub open spec fn is_ascii_ws(c: char) -> bool {
    c == ' ' || c == '\t' || c == '\n' || c as u32 == 0x0C || c == '\r'
}

/// `char::is_whitespace`: the characters with the Unicode `White_Space` property.
pub open spec fn is_white_space(c: char) -> bool {
    let v = c as u32;
    (0x09 <= v <= 0x0D) || v == 0x20 || v == 0x85 || v == 0xA0 || v == 0x1680
        || (0x2000 <= v <= 0x200A) || v == 0x2028 || v == 0x2029 || v == 0x202F
        || v == 0x205F || v == 0x3000
}

pub fn is_ident(c: char) -> (b: bool)
    ensures
        b == is_ident_char(c),
{
    let v = c as u32;
    (48 <= v && v <= 57) || (97 <= v && v <= 122) || (65 <= v && v <= 90) || c == '_'
}

pub fn ascii_ws(c: char) -> (b: bool)
    ensures
        b == is_ascii_ws(c),
{
    c == ' ' || c == '\t' || c == '\n' || c as u32 == 0x0C || c == '\r'
}

pub fn white_space(c: char) -> (b: bool)
    ensures
        b == is_white_space(c),
{
    let v = c as u32;
    (0x09 <= v && v <= 0x0D) || v == 0x20 || v == 0x85 || v == 0xA0 || v == 0x1680 || (0x2000
        <= v && v <= 0x200A) || v == 0x2028 || v == 0x2029 || v == 0x202F || v == 0x205F || v
        == 0x3000
}

/// `needle` occurs in `hay` starting at `i`.
pub open spec fn matches_at(hay: Seq<char>, needle: Seq<char>, i: int) -> bool {
    0 <= i && i + needle.len() <= hay.len() && hay.subrange(i, i + needle.len()) == needle
}

/// The first start `i` in `from..` with `i + needle.len() <= hi` where `needle`
/// occurs; none for an empty needle (as `str::find` on a byte needle is used here).
pub open spec fn first_match(hay: Seq<char>, needle: Seq<char>, from: int, hi: int) -> Option<int>
    decreases hi - from,
{
    if needle.len() == 0 || from < 0 || from + needle.len() > hi || hi > hay.len() {
        None
    } else if matches_at(hay, needle, from) {
        Some(from)
    } else {
        first_match(hay, needle, from + 1, hi)
    }
}

pub proof fn lemma_first_match(hay: Seq<char>, needle: Seq<char>, from: int, hi: int)
    requires
        0 <= from,
        hi <= hay.len(),
        needle.len() > 0,
    ensures
        first_match(hay, needle, from, hi) matches Some(i) ==> {
            &&& from <= i
            &&& i + needle.len() <= hi
            &&& matches_at(hay, needle, i)
            &&& forall|j: int| from <= j < i ==> !matches_at(hay, needle, j)
        },
        first_match(hay, needle, from, hi) is None ==> forall|j: int|
            from <= j && j + needle.len() <= hi ==> !matches_at(hay, needle, j),
    decreases hi - from,
{
    if from + needle.len() > hi {
    } else if matches_at(hay, needle, from) {
    } else {
        lemma_first_match(hay, needle, from + 1, hi);
    }
}

pub open spec fn opt_index(o: Option<usize>) -> Option<int> {
    match o {
        Some(i) => Some(i as int),
        None => None,
    }
}

/// Whether `needle` occurs at `i` (bounds-checked).
pub fn matches_at_exec(hay: &[char], needle: &[char], i: usize) -> (b: bool)
    ensures
        b == matches_at(hay@, needle@, i as int),
{
    if needle.len() > hay.len() || i > hay.len() - needle.len() {
        return false;
    }
    let mut k: usize = 0;
    while k < needle.len()
        invariant
            k <= needle@.len(),
            i + needle@.len() <= hay@.len(),
            i + needle.len() <= hay.len(),
            forall|m: int| 0 <= m < k ==> hay@[i + m] == needle@[m],
        decreases needle@.len() - k,
    {
        assert(i + k < hay@.len());
        if hay[i + k] != needle[k] {
            assert(hay@.subrange(i as int, i + needle@.len())[k as int] != needle@[k as int]);
            return false;
        }
        k = k + 1;
    }
    assert(hay@.subrange(i as int, i + needle@.len()) =~= needle@);
    true
}

/// First occurrence of `needle` starting in `from..` and ending by `hi`.
pub fn find_in(hay: &[char], needle: &[char], from: usize, hi: usize) -> (r: Option<usize>)
    requires
        hi <= hay@.len(),
    ensures
        opt_index(r) == first_match(hay@, needle@, from as int, hi as int),
    decreases hi - from,
{
    if needle.len() == 0 || from > hi || needle.len() > hi - from {
        return None;
    }
    if matches_at_exec(hay, needle, from) {
        return Some(from);
    }
    find_in(hay, needle, from + 1, hi)
}

/// The characters `s[lo..hi]`.
pub fn copy_range(s: &[char], lo: usize, hi: usize) -> (r: Vec<char>)
    requires
        lo <= hi <= s@.len(),
    ensures
        r@ == s@.subrange(lo as int, hi as int),
{
    let mut r: Vec<char> = Vec::new();
    let mut i = lo;
    while i < hi
        invariant
            lo <= i <= hi <= s@.len(),
            r@ == s@.subrange(lo as int, i as int),
        decreases hi - i,
    {
        r.push(s[i]);
        i = i + 1;
        assert(r@ =~= s@.subrange(lo as int, i as int));
    }
    r
}

/// Appends `s[lo..hi]` to `out`.
pub fn push_range(out: &mut Vec<char>, s: &[char], lo: usize, hi: usize)
    requires
        lo <= hi <= s@.len(),
    ensures
        final(out)@ == old(out)@ + s@.subrange(lo as int, hi as int),
{
    let mut i = lo;
    while i < hi
        invariant
            lo <= i <= hi <= s@.len(),
            out@ == old(out)@ + s@.subrange(lo as int, i as int),
        decreases hi - i,
    {
        out.push(s[i]);
        i = i + 1;
        assert(out@ =~= old(out)@ + s@.subrange(lo as int, i as int));
    }
}

/// Appends all of `s` to `out`.
pub fn push_all(out: &mut Vec<char>, s: &[char])
    ensures
        final(out)@ == old(out)@ + s@,
{
    push_range(out, s, 0, s.len());
    assert(s@.subrange(0, s@.len() as int) =~= s@);
}

/// Appends the characters of a string slice to `out`.
pub fn push_str(out: &mut Vec<char>, s: &str)
    ensures
        final(out)@ == old(out)@ + s@,
{
    let chars = crate::strings::chars_of(s);
    push_all(out, chars.as_slice());
}

/// Index of the first character in `lo..hi` that is not white space, or `hi`.
pub open spec fn skip_ws_front(s: Seq<char>, lo: int, hi: int) -> int
    decreases hi - lo,
{
    if lo >= hi {
        hi
    } else if is_white_space(s[lo]) {
        skip_ws_front(s, lo + 1, hi)
    } else {
        lo
    }
}

/// End of `s[lo..hi]` after dropping trailing white space (never below `lo`).
pub open spec fn skip_ws_back(s: Seq<char>, lo: int, hi: int) -> int
    decreases hi - lo,
{
    if hi <= lo {
        lo
    } else if is_white_space(s[hi - 1]) {
        skip_ws_back(s, lo, hi - 1)
    } else {
        hi
    }
}

pub proof fn lemma_skip_ws_bounds(s: Seq<char>, lo: int, hi: int)
    requires
        0 <= lo <= hi <= s.len(),
    ensures
        lo <= skip_ws_front(s, lo, hi) <= hi,
        lo <= skip_ws_back(s, lo, hi) <= hi,
    decreases hi - lo,
{
    if lo < hi {
        lemma_skip_ws_bounds(s, lo + 1, hi);
        lemma_skip_ws_bounds(s, lo, hi - 1);
    }
}

/// `str::trim` on `s[lo..hi]`, as a pair of bounds.
pub open spec fn trim_bounds(s: Seq<char>, lo: int, hi: int) -> (int, int) {
    let a = skip_ws_front(s, lo, hi);
    (a, skip_ws_back(s, a, hi))
}

/// `s` with leading and trailing white space removed (`str::trim`).
pub open spec fn trimmed(s: Seq<char>) -> Seq<char> {
    let (a, b) = trim_bounds(s, 0, s.len() as int);
    s.subrange(a, b)
}

pub fn trim_range(s: &[char], lo: usize, hi: usize) -> (r: (usize, usize))
    requires
        lo <= hi <= s@.len(),
    ensures
        r.0 as int == trim_bounds(s@, lo as int, hi as int).0,
        r.1 as int == trim_bounds(s@, lo as int, hi as int).1,
        lo <= r.0 <= r.1 <= hi,
{
    let mut a = lo;
    while a < hi && white_space(s[a])
        invariant
            lo <= a <= hi <= s@.len(),
            skip_ws_front(s@, a as int, hi as int) == skip_ws_front(s@, lo as int, hi as int),
        decreases hi - a,
    {
        a = a + 1;
    }
    let mut b = hi;
    while b > a && white_space(s[b - 1])
        invariant
            a <= b <= hi <= s@.len(),
            skip_ws_back(s@, a as int, b as int) == skip_ws_back(s@, a as int, hi as int),
        decreases b - a,
    {
        b = b - 1;
    }
    (a, b)
}

/// Index of the first `c` in `lo..hi`, or `hi`.
pub open spec fn char_index(s: Seq<char>, c: char, lo: int, hi: int) -> int
    decreases hi - lo,
{
    if lo >= hi {
        hi
    } else if s[lo] == c {
        lo
    } else {
        char_index(s, c, lo + 1, hi)
    }
}

pub proof fn lemma_char_index(s: Seq<char>, c: char, lo: int, hi: int)
    requires
        0 <= lo <= hi <= s.len(),
    ensures
        lo <= char_index(s, c, lo, hi) <= hi,
        char_index(s, c, lo, hi) < hi ==> s[char_index(s, c, lo, hi)] == c,
        forall|j: int| lo <= j < char_index(s, c, lo, hi) ==> s[j] != c,
    decreases hi - lo,
{
    if lo < hi && s[lo] != c {
        lemma_char_index(s, c, lo + 1, hi);
    }
}

pub fn find_char(s: &[char], c: char, lo: usize, hi: usize) -> (r: usize)
    requires
        lo <= hi <= s@.len(),
    ensures
        r as int == char_index(s@, c, lo as int, hi as int),
        lo <= r <= hi,
{
    proof {
        lemma_char_index(s@, c, lo as int, hi as int);
    }
    let mut i = lo;
    while i < hi && s[i] != c
        invariant
            lo <= i <= hi <= s@.len(),
            char_index(s@, c, i as int, hi as int) == char_index(s@, c, lo as int, hi as int),
        decreases hi - i,
    {
        i = i + 1;
    }
    i
}

/// Index of the last `c` in `lo..hi`, if any (`str::rfind` on a char).
pub open spec fn char_rindex(s: Seq<char>, c: char, lo: int, hi: int) -> Option<int>
    decreases hi - lo,
{
    if hi <= lo {
        None
    } else if s[hi - 1] == c {
        Some(hi - 1)
    } else {
        char_rindex(s, c, lo, hi - 1)
    }
}

pub proof fn lemma_char_rindex(s: Seq<char>, c: char, lo: int, hi: int)
    requires
        0 <= lo <= hi <= s.len(),
    ensures
        char_rindex(s, c, lo, hi) matches Some(i) ==> lo <= i < hi && s[i] == c && forall|j: int|
            i < j < hi ==> s[j] != c,
        char_rindex(s, c, lo, hi) is None ==> forall|j: int| lo <= j < hi ==> s[j] != c,
    decreases hi - lo,
{
    if lo < hi && s[hi - 1] != c {
        lemma_char_rindex(s, c, lo, hi - 1);
    }
}

pub fn rfind_char(s: &[char], c: char, lo: usize, hi: usize) -> (r: Option<usize>)
    requires
        lo <= hi <= s@.len(),
    ensures
        opt_index(r) == char_rindex(s@, c, lo as int, hi as int),
{
    let mut j = hi;
    while j > lo
        invariant
            lo <= j <= hi <= s@.len(),
            char_rindex(s@, c, lo as int, j as int) == char_rindex(s@, c, lo as int, hi as int),
        decreases j - lo,
    {
        if s[j - 1] == c {
            return Some(j - 1);
        }
        j = j - 1;
    }
    None
}

/// `s[i..]` begins with `prefix` (within `..hi`).
pub open spec fn starts_with_at(s: Seq<char>, prefix: Seq<char>, i: int, hi: int) -> bool {
    i + prefix.len() <= hi && matches_at(s, prefix, i)
}

pub fn starts_with_at_exec(s: &[char], prefix: &[char], i: usize, hi: usize) -> (b: bool)
    requires
        hi <= s@.len(),
    ensures
        b == starts_with_at(s@, prefix@, i as int, hi as int),
{
    if prefix.len() > hi || i > hi - prefix.len() {
        return false;
    }
    matches_at_exec(s, prefix, i)
}

/// Lines of `s[lo..hi]` as `str::lines` yields them, each as bounds: split at
/// `'\n'`, a `'\r'` before that newline dropped, no empty line after a final
/// newline.
pub open spec fn line_bounds(s: Seq<char>, lo: int, hi: int) -> Seq<(int, int)>
    decreases hi - lo via line_bounds_decreases
{
    if lo >= hi || lo < 0 || hi > s.len() {
        Seq::empty()
    } else {
        let e = char_index(s, '\n', lo, hi);
        let end = if e < hi && e > lo && s[e - 1] == '\r' { e - 1 } else { e };
        if e >= hi {
            seq![(lo, end)]
        } else {
            seq![(lo, end)] + line_bounds(s, e + 1, hi)
        }
    }
}

/// Number of bytes in the UTF-8 encoding of `c`.
pub open spec fn utf8_width(c: char) -> nat {
    let v = c as u32;
    if v <= 0x7F {
        1
    } else if v <= 0x7FF {
        2
    } else if v <= 0xFFFF {
        3
    } else {
        4
    }
}

/// Number of bytes in the UTF-8 encoding of `s` (its `str::len`).
pub open spec fn utf8_len(s: Seq<char>) -> nat
    decreases s.len(),
{
    if s.len() == 0 {
        0
    } else {
        utf8_width(s[0]) + utf8_len(s.drop_first())
    }
}

pub proof fn lemma_utf8_len_concat(a: Seq<char>, b: Seq<char>)
    ensures
        utf8_len(a + b) == utf8_len(a) + utf8_len(b),
    decreases a.len(),
{
    if a.len() > 0 {
        assert((a + b).drop_first() =~= a.drop_first() + b);
        lemma_utf8_len_concat(a.drop_first(), b);
    } else {
        assert(a + b =~= b);
    }
}

/// `utf8_len` is the length of vstd's UTF-8 encoding, so it agrees with `str::len`.
pub proof fn lemma_utf8_len_is_encoded_len(s: Seq<char>)
    ensures
        utf8_len(s) == vstd::utf8::encode_utf8(s).len(),
    decreases s.len(),
{
    if s.len() > 0 {
        vstd::utf8::char_is_scalar(s[0]);
        lemma_utf8_len_is_encoded_len(s.drop_first());
    }
}

pub fn char_utf8_width(c: char) -> (n: usize)
    ensures
        n == utf8_width(c),
{
    let v = c as u32;
    if v <= 0x7F {
        1
    } else if v <= 0x7FF {
        2
    } else if v <= 0xFFFF {
        3
    } else {
        4
    }
}

/// Byte length of `s[lo..hi]`.
pub fn utf8_len_range(s: &[char], lo: usize, hi: usize) -> (n: usize)
    requires
        lo <= hi <= s@.len(),
        utf8_len(s@.subrange(lo as int, hi as int)) <= usize::MAX,
    ensures
        n == utf8_len(s@.subrange(lo as int, hi as int)),
{
    let mut n: usize = 0;
    let mut i = lo;
    while i < hi
        invariant
            lo <= i <= hi <= s@.len(),
            n == utf8_len(s@.subrange(lo as int, i as int)),
            utf8_len(s@.subrange(lo as int, hi as int)) <= usize::MAX,
        decreases hi - i,
    {
        proof {
            let a = s@.subrange(lo as int, i as int);
            let one = s@.subrange(i as int, i + 1);
            let rest = s@.subrange(i + 1, hi as int);
            assert(s@.subrange(lo as int, i + 1) =~= a + one);
            assert(s@.subrange(lo as int, hi as int) =~= a + one + rest);
            lemma_utf8_len_concat(a, one);
            lemma_utf8_len_concat(a + one, rest);
            assert(one.drop_first() =~= Seq::<char>::empty());
            assert(one[0] == s@[i as int]);
            assert(utf8_len(one) == utf8_width(s@[i as int]) + utf8_len(one.drop_first()));
        }
        n = n + char_utf8_width(s[i]);
        i = i + 1;
    }
    n
}

#[via_fn]
proof fn line_bounds_decreases(s: Seq<char>, lo: int, hi: int) {
    if !(lo >= hi || lo < 0 || hi > s.len()) {
        lemma_char_index(s, '\n', lo, hi);
    }
}


/// Whether two character slices hold the same characters.
pub fn chars_equal(a: &[char], b: &[char]) -> (r: bool)
    ensures
        r == (a@ == b@),
{
    if a.len() != b.len() {
        return false;
    }
    let mut i: usize = 0;
    while i < a.len()
        invariant
            i <= a@.len(),
            a@.len() == b@.len(),
            forall|k: int| 0 <= k < i ==> a@[k] == b@[k],
        decreases a@.len() - i,
    {
        if a[i] != b[i] {
            return false;
        }
        i = i + 1;
    }
    assert(a@ =~= b@);
    true
}

/// Whether two strings are equal (`==` on `str`).
pub fn str_equals(a: &str, b: &str) -> (r: bool)
    ensures
        r == (a@ == b@),
{
    let ac = crate::strings::chars_of(a);
    let bc = crate::strings::chars_of(b);
    chars_equal(ac.as_slice(), bc.as_slice())
}

/// `needle` occurs somewhere in `hay` (`str::contains`).
pub open spec fn contains_seq(hay: Seq<char>, needle: Seq<char>) -> bool {
    exists|i: int| matches_at(hay, needle, i)
}

/// An occurrence stays an occurrence when text is added on either side.
pub proof fn lemma_contains_extend(a: Seq<char>, needle: Seq<char>, before: Seq<char>, after: Seq<char>)
    requires
        contains_seq(a, needle),
    ensures
        contains_seq(before + a + after, needle),
{
    let i = choose|i: int| matches_at(a, needle, i);
    let t = before + a + after;
    assert(t.subrange(before.len() + i, before.len() + i + needle.len()) =~= a.subrange(i, i + needle.len()));
    assert(matches_at(t, needle, before.len() + i));
}

/// Text occurs in itself.
pub proof fn lemma_contains_self(a: Seq<char>)
    ensures
        contains_seq(a, a),
{
    assert(a.subrange(0, a.len() as int) =~= a);
    assert(matches_at(a, a, 0));
}

/// Whether `needle` occurs in `hay` (`str::contains`).
pub fn str_contains(hay: &str, needle: &str) -> (r: bool)
    ensures
        r == contains_seq(hay@, needle@),
{
    let h = crate::strings::chars_of(hay);
    let n = crate::strings::chars_of(needle);
    if n.len() == 0 {
        assert(hay@.subrange(0, 0) =~= needle@);
        assert(matches_at(hay@, needle@, 0));
        return true;
    }
    let found = find_in(h.as_slice(), n.as_slice(), 0, h.len());
    proof {
        lemma_first_match(h@, n@, 0, h@.len() as int);
    }
    found.is_some()
}

/// Lexicographic order on character sequences, compared character by
/// character (the order of `str`'s `Ord`, as UTF-8 keeps code-point order).
pub open spec fn seq_less(a: Seq<char>, b: Seq<char>) -> bool
    decreases a.len(),
{
    if a.len() == 0 {
        b.len() > 0
    } else if b.len() == 0 {
        false
    } else if a[0] != b[0] {
        (a[0] as u32) < (b[0] as u32)
    } else {
        seq_less(a.drop_first(), b.drop_first())
    }
}

pub proof fn lemma_seq_less_irreflexive(a: Seq<char>)
    ensures
        !seq_less(a, a),
    decreases a.len(),
{
    if a.len() > 0 {
        lemma_seq_less_irreflexive(a.drop_first());
    }
}

pub proof fn lemma_seq_less_transitive(a: Seq<char>, b: Seq<char>, c: Seq<char>)
    requires
        seq_less(a, b),
        seq_less(b, c),
    ensures
        seq_less(a, c),
    decreases a.len(),
{
    if a.len() > 0 && b.len() > 0 && c.len() > 0 && a[0] == b[0] && b[0] == c[0] {
        lemma_seq_less_transitive(a.drop_first(), b.drop_first(), c.drop_first());
    }
}

pub proof fn lemma_seq_less_total(a: Seq<char>, b: Seq<char>)
    ensures
        seq_less(a, b) || a == b || seq_less(b, a),
        !(seq_less(a, b) && seq_less(b, a)),
    decreases a.len(),
{
    if a.len() > 0 && b.len() > 0 && a[0] == b[0] {
        lemma_seq_less_total(a.drop_first(), b.drop_first());
        if a.drop_first() == b.drop_first() {
            assert(a =~= seq![a[0]] + a.drop_first());
            assert(b =~= seq![b[0]] + b.drop_first());
        }
    } else if a.len() == 0 && b.len() == 0 {
        assert(a =~= b);
    } else if a.len() > 0 && b.len() > 0 {
        vstd::utf8::char_u32_cast(a[0], a[0] as u32);
        vstd::utf8::char_u32_cast(b[0], b[0] as u32);
    }
}

/// Whether `a` sorts strictly before `b`.
pub fn chars_less(a: &[char], b: &[char]) -> (r: bool)
    ensures
        r == seq_less(a@, b@),
{
    let mut i: usize = 0;
    proof {
        assert(a@.skip(0) =~= a@);
        assert(b@.skip(0) =~= b@);
    }
    while i < a.len() && i < b.len()
        invariant
            i <= a@.len(),
            i <= b@.len(),
            forall|k: int| 0 <= k < i ==> a@[k] == b@[k],
            seq_less(a@, b@) == seq_less(a@.skip(i as int), b@.skip(i as int)),
        decreases a@.len() - i,
    {
        let x = a[i];
        let y = b[i];
        if x != y {
            proof {
                assert(a@.skip(i as int).len() > 0);
                assert(b@.skip(i as int).len() > 0);
                assert(a@.skip(i as int)[0] == x);
                assert(b@.skip(i as int)[0] == y);
                assert(seq_less(a@.skip(i as int), b@.skip(i as int)) == ((x as u32) < (y as u32)));
            }
            return (x as u32) < (y as u32);
        }
        proof {
            assert(a@.skip(i as int).drop_first() =~= a@.skip(i + 1));
            assert(b@.skip(i as int).drop_first() =~= b@.skip(i + 1));
        }
        i = i + 1;
    }
    i < b.len()
}

/// Whether string `a` sorts strictly before string `b`.
pub fn str_less(a: &str, b: &str) -> (r: bool)
    ensures
        r == seq_less(a@, b@),
{
    let ac = crate::strings::chars_of(a);
    let bc = crate::strings::chars_of(b);
    chars_less(ac.as_slice(), bc.as_slice())
}

} // verus!
