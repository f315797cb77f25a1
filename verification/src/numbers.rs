//! Decimal parsing as `str::parse` does it for unsigned integers.
use vstd::prelude::*;

verus! {

pub open spec fn is_digit(c: char) -> bool {
    '0' as u32 <= c as u32 <= '9' as u32
}

/// Value of a sequence of decimal digits.
pub open spec fn digits_value(s: Seq<char>) -> nat
    decreases s.len(),
{
    if s.len() == 0 {
        0
    } else {
        digits_value(s.drop_last()) * 10 + ((s.last() as u32) - ('0' as u32)) as nat
    }
}

/// The digits `str::parse` reads for an unsigned integer: an optional `+`
/// followed by the rest.
pub open spec fn unsigned_digits(s: Seq<char>) -> Seq<char> {
    if s.len() > 0 && s[0] == '+' { s.drop_first() } else { s }
}

/// `s.parse::<uN>()` for an unsigned type whose largest value is `max`: an
/// optional `+` and at least one decimal digit, with a value not above `max`.
pub open spec fn parse_unsigned(s: Seq<char>, max: nat) -> Option<nat> {
    let d = unsigned_digits(s);
    if d.len() > 0 && (forall|i: int| 0 <= i < d.len() ==> is_digit(#[trigger] d[i]))
        && digits_value(d) <= max {
        Some(digits_value(d))
    } else {
        None
    }
}

proof fn lemma_digits_value_monotone(s: Seq<char>, k: int)
    requires
        0 <= k <= s.len(),
        forall|i: int| 0 <= i < s.len() ==> is_digit(#[trigger] s[i]),
    ensures
        digits_value(s.take(k)) <= digits_value(s),
    decreases s.len() - k,
{
    if k < s.len() {
        lemma_digits_value_monotone(s, k + 1);
        assert(s.take(k + 1).drop_last() =~= s.take(k));
        assert(digits_value(s.take(k + 1)) == digits_value(s.take(k)) * 10 + ((s[k] as u32) - ('0' as u32)) as nat);
    } else {
        assert(s.take(k) =~= s);
    }
}

/// `s[lo..hi].parse()` for an unsigned integer type whose largest value is
/// `max`.
pub fn parse_unsigned_range(s: &[char], lo: usize, hi: usize, max: u64) -> (r: Option<u64>)
    requires
        lo <= hi <= s@.len(),
    ensures
        match r {
            Some(v) => parse_unsigned(s@.subrange(lo as int, hi as int), max as nat) == Some(v as nat),
            None => parse_unsigned(s@.subrange(lo as int, hi as int), max as nat) is None,
        },
{
    let ghost whole = s@.subrange(lo as int, hi as int);
    let mut i = lo;
    if i < hi && s[i] == '+' {
        i = i + 1;
    }
    let ghost d = unsigned_digits(whole);
    proof {
        assert(d =~= s@.subrange(i as int, hi as int));
    }
    if i >= hi {
        return None;
    }
    let mut value: u64 = 0;
    let start = i;
    while i < hi
        invariant
            start <= i <= hi <= s@.len(),
            d == s@.subrange(start as int, hi as int),
            d == unsigned_digits(whole),
            whole == s@.subrange(lo as int, hi as int),
            d.len() > 0,
            forall|j: int| start <= j < i ==> is_digit(#[trigger] s@[j]),
            value as nat == digits_value(s@.subrange(start as int, i as int)),
            value <= max,
        decreases hi - i,
    {
        let c = s[i];
        let v = c as u32;
        if v < 48 || v > 57 {
            proof {
                assert(d[i - start] == s@[i as int]);
                assert(!is_digit(d[i - start]));
            }
            return None;
        }
        proof {
            assert(s@.subrange(start as int, i + 1).drop_last() =~= s@.subrange(start as int, i as int));
            assert(is_digit(s@[i as int]));
        }
        let digit = (v - 48) as u64;
        let next = match value.checked_mul(10) {
            Some(m) => m.checked_add(digit),
            None => None,
        };
        let fits = match next {
            Some(n) => n <= max,
            None => false,
        };
        if !fits {
            proof {
                let k = i + 1 - start;
                assert(digits_value(s@.subrange(start as int, i + 1)) > max);
                if forall|j: int| 0 <= j < d.len() ==> is_digit(#[trigger] d[j]) {
                    lemma_digits_value_monotone(d, k);
                    assert(d.take(k) =~= s@.subrange(start as int, i + 1));
                }
            }
            return None;
        }
        value = match next {
            Some(n) => n,
            None => 0,
        };
        i = i + 1;
    }
    proof {
        assert(s@.subrange(start as int, i as int) =~= d);
    }
    Some(value)
}

/// `s[lo..hi].parse::<u64>()`.
pub fn parse_u64(s: &[char], lo: usize, hi: usize) -> (r: Option<u64>)
    requires
        lo <= hi <= s@.len(),
    ensures
        match r {
            Some(v) => parse_unsigned(s@.subrange(lo as int, hi as int), u64::MAX as nat) == Some(v as nat),
            None => parse_unsigned(s@.subrange(lo as int, hi as int), u64::MAX as nat) is None,
        },
{
    parse_unsigned_range(s, lo, hi, u64::MAX)
}

/// `s[lo..hi].parse::<usize>()`.
pub fn parse_usize(s: &[char], lo: usize, hi: usize) -> (r: Option<usize>)
    requires
        lo <= hi <= s@.len(),
    ensures
        match r {
            Some(v) => parse_unsigned(s@.subrange(lo as int, hi as int), usize::MAX as nat) == Some(v as nat),
            None => parse_unsigned(s@.subrange(lo as int, hi as int), usize::MAX as nat) is None,
        },
{
    match parse_unsigned_range(s, lo, hi, usize::MAX as u64) {
        Some(v) => Some(v as usize),
        None => None,
    }
}

} // verus!
