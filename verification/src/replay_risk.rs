//! Sources whose scenario or replay code makes raw nondeterminism a risk, and
//! the operations that count as raw nondeterminism there.
use vstd::prelude::*;
use crate::config::owned;
use crate::text::{contains_seq, find_in, first_match, lemma_first_match, str_contains, utf8_len};
use crate::evidence::{find_offset, find_text};
use crate::strings::chars_of;

verus! {

/// An operation that is nondeterministic unless a modeled policy wraps it.
#[derive(Debug)]
pub struct NondeterminismPattern {
    pub class_name: String,
    pub operation: String,
}

/// Whether a source holds scenario or replay code: it names `kobo::scenario`,
/// `replay` or `ward` anywhere.
pub fn is_replay_risk_zone(source: &str) -> (r: bool)
    ensures
        r == (contains_seq(source@, "kobo::scenario"@) || contains_seq(source@, "replay"@)
            || contains_seq(source@, "ward"@)),
{
    str_contains(source, "kobo::scenario") || str_contains(source, "replay") || str_contains(source, "ward")
}

/// The nondeterministic operations, each with its class, in the order they are reported.
pub open spec fn pattern_table() -> Seq<(Seq<char>, Seq<char>)> {
    seq![
        ("time"@, "SystemTime::now"@),
        ("time"@, "Instant::now"@),
        ("random"@, "rand::random"@),
        ("random"@, "thread_rng"@),
        ("filesystem"@, "std::fs::"@),
        ("scheduler"@, "tokio::spawn"@),
        ("scheduler"@, "select!"@),
        ("process"@, "std::process::"@),
        ("environment"@, "std::env::"@),
        ("network"@, "TcpStream"@),
        ("network"@, "reqwest::"@),
    ]
}

fn pattern(class_name: &str, operation: &str) -> (p: NondeterminismPattern)
    ensures
        p.class_name@ == class_name@,
        p.operation@ == operation@,
{
    NondeterminismPattern { class_name: owned(class_name), operation: owned(operation) }
}

/// The nondeterministic operations, each with its class.
pub fn nondeterminism_patterns() -> (r: Vec<NondeterminismPattern>)
    ensures
        r@.len() == pattern_table().len(),
        forall|k: int| 0 <= k < r@.len() ==> (#[trigger] r@[k]).class_name@ == pattern_table()[k].0
            && r@[k].operation@ == pattern_table()[k].1,
{
    let mut r: Vec<NondeterminismPattern> = Vec::new();
    r.push(pattern("time", "SystemTime::now"));
    r.push(pattern("time", "Instant::now"));
    r.push(pattern("random", "rand::random"));
    r.push(pattern("random", "thread_rng"));
    r.push(pattern("filesystem", "std::fs::"));
    r.push(pattern("scheduler", "tokio::spawn"));
    r.push(pattern("scheduler", "select!"));
    r.push(pattern("process", "std::process::"));
    r.push(pattern("environment", "std::env::"));
    r.push(pattern("network", "TcpStream"));
    r.push(pattern("network", "reqwest::"));
    r
}

/// The number of non-overlapping occurrences of `needle` in `hay` from `from`
/// on, each search resuming after the previous occurrence (`str::matches`).
pub open spec fn match_count(hay: Seq<char>, needle: Seq<char>, from: int) -> nat
    decreases hay.len() - from via match_count_decreases
{
    if from < 0 || needle.len() == 0 {
        0
    } else {
        match first_match(hay, needle, from, hay.len() as int) {
            Some(i) => 1 + match_count(hay, needle, i + needle.len()),
            None => 0,
        }
    }
}

#[via_fn]
proof fn match_count_decreases(hay: Seq<char>, needle: Seq<char>, from: int) {
    if !(from < 0 || needle.len() == 0) {
        lemma_first_match(hay, needle, from, hay.len() as int);
    }
}

/// A nondeterministic operation found in a source: how often it occurs and
/// the byte offset of its first occurrence.
#[derive(Debug)]
pub struct NondeterminismFinding {
    pub class_name: String,
    pub operation: String,
    pub occurrences: usize,
    pub offset: u32,
}

/// The patterns of the table, among the first `n`, that occur in `source`.
pub open spec fn found_patterns(source: Seq<char>, n: int) -> Seq<int>
    decreases n,
{
    if n <= 0 {
        Seq::empty()
    } else if match_count(source, pattern_table()[n - 1].1, 0) > 0 {
        found_patterns(source, n - 1).push(n - 1)
    } else {
        found_patterns(source, n - 1)
    }
}

fn count_matches(hay: &[char], needle: &[char]) -> (r: usize)
    requires
        needle@.len() > 0,
    ensures
        r == match_count(hay@, needle@, 0),
{
    let mut count: usize = 0;
    let mut from: usize = 0;
    proof {
        lemma_first_match(hay@, needle@, 0, hay@.len() as int);
    }
    loop
        invariant
            needle@.len() > 0,
            from <= hay@.len(),
            count + match_count(hay@, needle@, from as int) == match_count(hay@, needle@, 0),
            count <= from,
        decreases hay@.len() - from,
    {
        proof {
            lemma_first_match(hay@, needle@, from as int, hay@.len() as int);
        }
        match find_in(hay, needle, from, hay.len()) {
            Some(i) => {
                count = count + 1;
                from = i + needle.len();
            },
            None => {
                return count;
            },
        }
    }
}

/// The nondeterministic operations that occur in a source in a replay-risk
/// zone, in table order; none outside such a zone.
pub fn nondeterminism_findings(source: &str) -> (r: Vec<NondeterminismFinding>)
    requires
        utf8_len(source@) <= usize::MAX,
    ensures
        !(contains_seq(source@, "kobo::scenario"@) || contains_seq(source@, "replay"@) || contains_seq(source@, "ward"@))
            ==> r@.len() == 0,
        (contains_seq(source@, "kobo::scenario"@) || contains_seq(source@, "replay"@) || contains_seq(source@, "ward"@))
            ==> r@.len() == found_patterns(source@, pattern_table().len() as int).len(),
        forall|k: int| 0 <= k < r@.len() ==> {
            let p = found_patterns(source@, pattern_table().len() as int)[k];
            &&& (#[trigger] r@[k]).class_name@ == pattern_table()[p].0
            &&& r@[k].operation@ == pattern_table()[p].1
            &&& r@[k].occurrences == match_count(source@, pattern_table()[p].1, 0)
            &&& r@[k].offset == (match find_offset(source@, pattern_table()[p].1) { Some(o) => o, None => 0 }) as u32
        },
{
    let mut findings: Vec<NondeterminismFinding> = Vec::new();
    if !is_replay_risk_zone(source) {
        return findings;
    }
    let s = chars_of(source);
    let patterns = nondeterminism_patterns();
    let mut k: usize = 0;
    while k < patterns.len()
        invariant
            k <= patterns@.len(),
            s@ == source@,
            utf8_len(source@) <= usize::MAX,
            patterns@.len() == pattern_table().len(),
            forall|j: int| 0 <= j < patterns@.len() ==> (#[trigger] patterns@[j]).class_name@ == pattern_table()[j].0
                && patterns@[j].operation@ == pattern_table()[j].1,
            findings@.len() == found_patterns(source@, k as int).len(),
            forall|j: int| 0 <= j < findings@.len() ==> {
                let p = found_patterns(source@, k as int)[j];
                &&& (#[trigger] findings@[j]).class_name@ == pattern_table()[p].0
                &&& findings@[j].operation@ == pattern_table()[p].1
                &&& findings@[j].occurrences == match_count(source@, pattern_table()[p].1, 0)
                &&& findings@[j].offset == (match find_offset(source@, pattern_table()[p].1) { Some(o) => o, None => 0 }) as u32
            },
        decreases patterns@.len() - k,
    {
        let pattern = &patterns[k];
        let op = chars_of(pattern.operation.as_str());
        proof {
            reveal_strlit("SystemTime::now");
            reveal_strlit("Instant::now");
            reveal_strlit("rand::random");
            reveal_strlit("thread_rng");
            reveal_strlit("std::fs::");
            reveal_strlit("tokio::spawn");
            reveal_strlit("select!");
            reveal_strlit("std::process::");
            reveal_strlit("std::env::");
            reveal_strlit("TcpStream");
            reveal_strlit("reqwest::");
            assert(op@.len() > 0);
        }
        let occurrences = count_matches(s.as_slice(), op.as_slice());
        if occurrences > 0 {
            let offset = match find_text(s.as_slice(), op.as_slice()) {
                Some(o) => o,
                None => 0,
            };
            findings.push(NondeterminismFinding {
                class_name: pattern.class_name.clone(),
                operation: pattern.operation.clone(),
                occurrences,
                offset: offset as u32,
            });
        }
        k = k + 1;
    }
    findings
}

} // verus!
