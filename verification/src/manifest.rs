//! Helpers of the multi-file build: the stable hash that fingerprints
//! generated summaries, and the splitting of `::` type paths.
use vstd::prelude::*;
use crate::strings::{chars_of, string_from_chars};
use crate::text::{copy_range, find_in, first_match, lemma_first_match, matches_at};

verus! {

/// The FNV-1a offset basis.
pub const FNV_OFFSET_BASIS: u64 = 0xcbf29ce484222325u64;

/// The FNV-1a prime.
pub const FNV_PRIME: u64 = 0x100000001b3u64;

/// The 64-bit FNV-1a hash of `bytes`.
pub open spec fn fnv1a(bytes: Seq<u8>) -> u64
    decreases bytes.len(),
{
    if bytes.len() == 0 {
        FNV_OFFSET_BASIS
    } else {
        (fnv1a(bytes.drop_last()) ^ (bytes.last() as u64)).wrapping_mul(FNV_PRIME)
    }
}

/// The lowercase hexadecimal digit for a value below sixteen.
pub open spec fn hex_digit(d: int) -> char {
    if d < 10 {
        (('0' as int) + d) as char
    } else {
        (('a' as int) + d - 10) as char
    }
}

/// The last `n` hexadecimal digits of `value`, most significant first.
pub open spec fn hex_digits(value: nat, n: nat) -> Seq<char>
    decreases n,
{
    if n == 0 {
        Seq::empty()
    } else {
        hex_digits(value / 16, (n - 1) as nat).push(hex_digit((value % 16) as int))
    }
}

fn hex_char(d: u64) -> (c: char)
    requires
        d < 16,
    ensures
        c == hex_digit(d as int),
{
    let c = if d < 10 {
        (48 + d as u32) as u8 as char
    } else {
        (87 + d as u32) as u8 as char
    };
    proof {
        if d < 10 {
            assert(c as int == ('0' as int) + d);
        } else {
            assert(c as int == ('a' as int) + d - 10);
        }
    }
    c
}

/// The FNV-1a hash of a string's UTF-8 bytes as sixteen lowercase hex digits.
pub fn stable_hash(source: &str) -> (hash: String)
    ensures
        hash@ == hex_digits(fnv1a(vstd::utf8::encode_utf8(source@)) as nat, 16),
{
    let bytes = source.as_bytes();
    let mut hash: u64 = FNV_OFFSET_BASIS;
    let mut i: usize = 0;
    proof {
        assert(bytes@.take(0) =~= Seq::<u8>::empty());
    }
    while i < bytes.len()
        invariant
            i <= bytes@.len(),
            hash == fnv1a(bytes@.take(i as int)),
        decreases bytes@.len() - i,
    {
        proof {
            assert(bytes@.take(i + 1).drop_last() =~= bytes@.take(i as int));
        }
        hash = (hash ^ (bytes[i] as u64)).wrapping_mul(FNV_PRIME);
        i = i + 1;
    }
    proof {
        assert(bytes@.take(i as int) =~= bytes@);
    }
    let mut digits: Vec<char> = Vec::new();
    let mut k: usize = 0;
    while k < 16
        invariant
            k <= 16,
            digits@.len() == k,
        decreases 16 - k,
    {
        digits.push('0');
        k = k + 1;
    }
    let mut rest: u64 = hash;
    let mut n: usize = 16;
    while n > 0
        invariant
            n <= 16,
            digits@.len() == 16,
            hex_digits(hash as nat, 16) == hex_digits(rest as nat, n as nat) + digits@.skip(n as int),
        decreases n,
    {
        let d = hex_char(rest % 16);
        proof {
            assert(hex_digits(rest as nat, n as nat) == hex_digits((rest / 16) as nat, (n - 1) as nat).push(d));
        }
        digits.set(n - 1, d);
        proof {
            assert(hex_digits((rest / 16) as nat, (n - 1) as nat).push(d) + digits@.skip(n as int)
                =~= hex_digits((rest / 16) as nat, (n - 1) as nat) + digits@.skip(n - 1));
        }
        rest = rest / 16;
        n = n - 1;
    }
    proof {
        assert(hex_digits(rest as nat, 0) + digits@.skip(0) =~= digits@);
    }
    string_from_chars(digits.as_slice())
}

/// The non-empty segments of `s[lo..]` between `::` separators, found left to
/// right as `str::split` finds them.
pub open spec fn path_segments_from(s: Seq<char>, lo: int) -> Seq<Seq<char>>
    decreases s.len() - lo,
{
    if lo < 0 || lo > s.len() {
        Seq::empty()
    } else {
        match first_match(s, "::"@, lo, s.len() as int) {
            Some(m) => {
                proof {
                    lemma_first_match(s, "::"@, lo, s.len() as int);
                }
                let rest = if m + "::"@.len() > lo { path_segments_from(s, m + "::"@.len()) } else { Seq::empty() };
                if m > lo { seq![s.subrange(lo, m)] + rest } else { rest }
            },
            None => if s.len() > lo { seq![s.subrange(lo, s.len() as int)] } else { Seq::empty() },
        }
    }
}

/// The segments of a `::` path, empty ones dropped.
pub fn split_path(path: &str) -> (segments: Vec<String>)
    ensures
        segments@.map_values(|s: String| s@) == path_segments_from(path@, 0),
{
    let s = chars_of(path);
    let sep = chars_of("::");
    let n = s.len();
    let mut segments: Vec<String> = Vec::new();
    let mut lo: usize = 0;
    proof {
        reveal_strlit("::");
        assert(segments@.map_values(|x: String| x@) =~= Seq::<Seq<char>>::empty());
    }
    loop
        invariant_except_break
            segments@.map_values(|x: String| x@) + path_segments_from(s@, lo as int) == path_segments_from(s@, 0),
        invariant
            lo <= n,
            n == s@.len(),
            s@ == path@,
            sep@ == "::"@,
            sep@.len() == 2,
        ensures
            segments@.map_values(|x: String| x@) == path_segments_from(s@, 0),
        decreases n - lo,
    {
        let ghost before = segments@;
        proof {
            lemma_first_match(s@, "::"@, lo as int, n as int);
        }
        match find_in(s.as_slice(), sep.as_slice(), lo, n) {
            Some(m) => {
                let ghost rest = path_segments_from(s@, m + 2);
                if m > lo {
                    let piece = copy_range(s.as_slice(), lo, m);
                    segments.push(string_from_chars(piece.as_slice()));
                    proof {
                        assert(segments@.map_values(|x: String| x@) =~= before.map_values(|x: String| x@).push(piece@));
                        assert(segments@.map_values(|x: String| x@) + rest =~= before.map_values(|x: String| x@) + (seq![piece@] + rest));
                    }
                }
                lo = m + 2;
            },
            None => {
                if n > lo {
                    let piece = copy_range(s.as_slice(), lo, n);
                    segments.push(string_from_chars(piece.as_slice()));
                    proof {
                        assert(segments@.map_values(|x: String| x@) =~= before.map_values(|x: String| x@).push(piece@));
                    }
                } else {
                    proof {
                        assert(before.map_values(|x: String| x@) + Seq::<Seq<char>>::empty() =~= before.map_values(|x: String| x@));
                    }
                }
                break;
            },
        }
    }
    segments
}

} // verus!
