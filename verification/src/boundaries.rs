//! Evidence from ecosystem adapters for the external boundaries of a scenario,
//! and how that evidence limits the replay grade a certificate may claim.
use vstd::prelude::*;
use crate::config::{BoundaryPolicy, EcosystemAdapterPolicy, clone_opt_string, owned};
use crate::scenario::{ScenarioOpKind, ScenarioOperation, ScenarioProgram};
use crate::core_cfg::{CoreCfgEdge, clone_span, span_for};
use crate::source_spans::{SourceSpan, byte_boundary, clamp_offset, source_span_from_kobo, spans_equal};
use crate::strings::{decimal_text, push_decimal, string_from_chars};
use crate::templates::HashEvidence;
use crate::text::{push_str, utf8_len};
use crate::text::{contains_seq, seq_less, str_equals, str_contains, str_less,
    lemma_seq_less_irreflexive, lemma_seq_less_transitive, lemma_seq_less_total};

verus! {

/// How exactly a run can be replayed.
#[derive(Clone, Copy, Debug, PartialEq, Eq, Structural)]
pub enum ReplayGrade {
    Exact,
    Partial,
    Debt,
    NotReplayable,
}

/// How faithfully an adapter reproduces an external crate.
#[derive(Clone, Copy, Debug, PartialEq, Eq, Structural)]
pub enum AdapterConfidence {
    Exact,
    Modeled,
    Sampled,
    MetadataOnly,
}

/// What one adapter contributes to the evidence of a boundary.
#[derive(Debug)]
pub struct AdapterEvidence {
    pub boundary: String,
    pub adapter: String,
    pub version: Option<String>,
    pub confidence: AdapterConfidence,
    pub replay_grade: ReplayGrade,
    pub outcome: String,
    pub reason: String,
}

/// An adapter evidence record with its strings as character sequences.
pub struct AdapterEvidenceView {
    pub boundary: Seq<char>,
    pub adapter: Seq<char>,
    pub version: Option<Seq<char>>,
    pub confidence: AdapterConfidence,
    pub replay_grade: ReplayGrade,
    pub outcome: Seq<char>,
    pub reason: Seq<char>,
}

/// The optional string as characters.
pub open spec fn opt_view(value: Option<String>) -> Option<Seq<char>> {
    match value {
        Some(text) => Some(text@),
        None => None,
    }
}

impl View for AdapterEvidence {
    type V = AdapterEvidenceView;

    open spec fn view(&self) -> AdapterEvidenceView {
        AdapterEvidenceView {
            boundary: self.boundary@,
            adapter: self.adapter@,
            version: opt_view(self.version),
            confidence: self.confidence,
            replay_grade: self.replay_grade,
            outcome: self.outcome@,
            reason: self.reason@,
        }
    }
}

pub open spec fn evidence_views(items: Seq<AdapterEvidence>) -> Seq<AdapterEvidenceView> {
    items.map_values(|e: AdapterEvidence| e@)
}

/// Whether an adapter version counts as stale: missing, `0.0.0`, or naming
/// itself `stale`.
pub open spec fn version_is_stale(version: Option<Seq<char>>) -> bool {
    match version {
        None => true,
        Some(v) => v == "0.0.0"@ || contains_seq(v, "stale"@),
    }
}

/// The confidence that an adapter's configuration earns at a boundary with
/// the given policy.
pub open spec fn confidence_for(adapter: EcosystemAdapterPolicy, policy: BoundaryPolicy) -> AdapterConfidence {
    let configured = opt_view(adapter.confidence);
    if configured == Some("exact"@) {
        AdapterConfidence::Exact
    } else if configured == Some("modeled"@) {
        AdapterConfidence::Modeled
    } else if configured == Some("sampled"@) {
        AdapterConfidence::Sampled
    } else if configured == Some("metadata-only"@) || configured == Some("metadata_only"@) {
        AdapterConfidence::MetadataOnly
    } else if !adapter.validated {
        AdapterConfidence::MetadataOnly
    } else if opt_view(adapter.capture) == Some("boundary-io"@) && policy == BoundaryPolicy::Record {
        AdapterConfidence::Exact
    } else if adapter.adapter_runtime is Some {
        AdapterConfidence::Modeled
    } else {
        AdapterConfidence::MetadataOnly
    }
}

/// The outcome an adapter reports: `debt` for a stale version, otherwise by
/// its confidence.
pub open spec fn outcome_for(version: Option<Seq<char>>, confidence: AdapterConfidence) -> Seq<char> {
    if version_is_stale(version) {
        "debt"@
    } else {
        match confidence {
            AdapterConfidence::Exact | AdapterConfidence::Modeled => "proof"@,
            AdapterConfidence::Sampled => "probing_pass"@,
            AdapterConfidence::MetadataOnly => "metadata_only"@,
        }
    }
}

/// An adapter evidence record is stale when its version is, or when it
/// already reports debt.
pub open spec fn evidence_is_stale(e: AdapterEvidenceView) -> bool {
    version_is_stale(e.version) || e.outcome == "debt"@
}

/// The index of the first adapter configured for `name`, from `i` on.
pub open spec fn first_adapter_from(adapters: Seq<EcosystemAdapterPolicy>, name: Seq<char>, i: int) -> Option<int>
    decreases adapters.len() - i,
{
    if i < 0 || i >= adapters.len() {
        None
    } else if adapters[i].crate_name@ == name {
        Some(i)
    } else {
        first_adapter_from(adapters, name, i + 1)
    }
}

/// The evidence record that `adapter` gives for the boundary `boundary`.
pub open spec fn entry_for(adapter: EcosystemAdapterPolicy, boundary: Seq<char>, policy: BoundaryPolicy, grade: ReplayGrade) -> AdapterEvidenceView {
    let confidence = confidence_for(adapter, policy);
    AdapterEvidenceView {
        boundary: boundary,
        adapter: adapter.package@,
        version: opt_view(adapter.version),
        confidence: confidence,
        replay_grade: grade,
        outcome: outcome_for(opt_view(adapter.version), confidence),
        reason: match adapter.reason {
            Some(r) => r@,
            None => "configured ecosystem adapter"@,
        },
    }
}

/// One record per external-boundary operation that has a configured adapter,
/// in operation order, before sorting.
pub open spec fn boundary_entries(ops: Seq<crate::scenario::ScenarioOperation>, adapters: Seq<EcosystemAdapterPolicy>, grade: ReplayGrade) -> Seq<AdapterEvidenceView>
    decreases ops.len(),
{
    if ops.len() == 0 {
        Seq::empty()
    } else {
        let prev = boundary_entries(ops.drop_last(), adapters, grade);
        match ops.last().kind {
            ScenarioOpKind::ExternalBoundary { crate_name, policy, .. } => {
                match first_adapter_from(adapters, crate_name@, 0) {
                    Some(i) => prev.push(entry_for(adapters[i], crate_name@, policy, grade)),
                    None => prev,
                }
            },
            _ => prev,
        }
    }
}

/// The key evidence records are sorted and deduplicated by.
pub open spec fn evidence_key(e: AdapterEvidenceView) -> (Seq<char>, Seq<char>, Option<Seq<char>>) {
    (e.boundary, e.adapter, e.version)
}

/// `None` first, then versions in string order.
pub open spec fn opt_less(a: Option<Seq<char>>, b: Option<Seq<char>>) -> bool {
    match (a, b) {
        (None, Some(_)) => true,
        (Some(x), Some(y)) => seq_less(x, y),
        _ => false,
    }
}

/// Lexicographic order on evidence keys.
#[verifier::opaque]
pub open spec fn key_less(a: (Seq<char>, Seq<char>, Option<Seq<char>>), b: (Seq<char>, Seq<char>, Option<Seq<char>>)) -> bool {
    if a.0 != b.0 {
        seq_less(a.0, b.0)
    } else if a.1 != b.1 {
        seq_less(a.1, b.1)
    } else {
        opt_less(a.2, b.2)
    }
}

pub proof fn lemma_key_less_order(a: (Seq<char>, Seq<char>, Option<Seq<char>>), b: (Seq<char>, Seq<char>, Option<Seq<char>>), c: (Seq<char>, Seq<char>, Option<Seq<char>>))
    ensures
        !key_less(a, a),
        key_less(a, b) || a == b || key_less(b, a),
        !(key_less(a, b) && key_less(b, a)),
        key_less(a, b) && key_less(b, c) ==> key_less(a, c),
{
    reveal(key_less);
    lemma_seq_less_irreflexive(a.0);
    lemma_seq_less_irreflexive(a.1);
    lemma_seq_less_total(a.0, b.0);
    lemma_seq_less_total(a.1, b.1);
    match a.2 {
        Some(x) => {
            lemma_seq_less_irreflexive(x);
        },
        None => {},
    }
    match (a.2, b.2) {
        (Some(x), Some(y)) => {
            lemma_seq_less_total(x, y);
        },
        _ => {},
    }
    if key_less(a, b) && key_less(b, c) {
        if a.0 != b.0 && b.0 != c.0 {
            lemma_seq_less_transitive(a.0, b.0, c.0);
        } else if a.0 == b.0 && b.0 == c.0 && a.1 != b.1 && b.1 != c.1 {
            lemma_seq_less_transitive(a.1, b.1, c.1);
        } else if a.0 == b.0 && b.0 == c.0 && a.1 == b.1 && b.1 == c.1 {
            match (a.2, b.2, c.2) {
                (Some(x), Some(y), Some(z)) => {
                    lemma_seq_less_transitive(x, y, z);
                },
                _ => {},
            }
        }
    }
}

/// Keys strictly increase along `out`.
pub open spec fn keys_increasing(out: Seq<AdapterEvidenceView>) -> bool {
    forall|i: int, j: int| 0 <= i < j < out.len() ==> key_less(evidence_key(#[trigger] out[i]), evidence_key(#[trigger] out[j]))
}

/// No record before position `j` of `input` has the key of `input[j]`.
pub open spec fn first_of_key(input: Seq<AdapterEvidenceView>, j: int) -> bool {
    forall|k: int| 0 <= k < j ==> evidence_key(#[trigger] input[k]) != evidence_key(input[j])
}

/// Each record of `out` is a record of `input` that is the first of its key.
pub open spec fn from_first_records(out: Seq<AdapterEvidenceView>, input: Seq<AdapterEvidenceView>) -> bool {
    forall|i: int| 0 <= i < out.len() ==> exists|j: int| 0 <= j < input.len() && input[j] == #[trigger] out[i] && first_of_key(input, j)
}

/// Some record of `out` has the key `key`.
pub open spec fn has_key(out: Seq<AdapterEvidenceView>, key: (Seq<char>, Seq<char>, Option<Seq<char>>)) -> bool {
    exists|i: int| 0 <= i < out.len() && evidence_key(out[i]) == key
}

/// Every key of `input` has a record in `out`.
pub open spec fn covers_keys(out: Seq<AdapterEvidenceView>, input: Seq<AdapterEvidenceView>) -> bool {
    forall|j: int| 0 <= j < input.len() ==> has_key(out, evidence_key(#[trigger] input[j]))
}

/// `out` is `input` sorted by key with only the first record of each key
/// kept: strictly increasing keys, each record the first of its key in
/// `input`, and every key of `input` present.
pub open spec fn sorted_first_of_each_key(out: Seq<AdapterEvidenceView>, input: Seq<AdapterEvidenceView>) -> bool {
    &&& keys_increasing(out)
    &&& from_first_records(out, input)
    &&& covers_keys(out, input)
}

/// The replay grade that the requested grade keeps given the adapters' evidence.
pub open spec fn adjusted_grade(requested: ReplayGrade, adapters: Seq<AdapterEvidenceView>) -> ReplayGrade {
    if requested == ReplayGrade::Debt || requested == ReplayGrade::NotReplayable {
        requested
    } else if exists|i: int| 0 <= i < adapters.len() && evidence_is_stale(#[trigger] adapters[i]) {
        ReplayGrade::Debt
    } else if exists|i: int| 0 <= i < adapters.len()
        && ((#[trigger] adapters[i]).confidence == AdapterConfidence::Sampled
            || adapters[i].confidence == AdapterConfidence::MetadataOnly) {
        ReplayGrade::NotReplayable
    } else if requested == ReplayGrade::Exact && exists|i: int| 0 <= i < adapters.len()
        && (#[trigger] adapters[i]).confidence == AdapterConfidence::Modeled {
        ReplayGrade::Partial
    } else {
        requested
    }
}

/// Whether a version is stale.
pub fn adapter_version_is_stale(version: Option<&str>) -> (stale: bool)
    ensures
        stale == version_is_stale(match version { Some(v) => Some(v@), None => None }),
{
    match version {
        None => true,
        Some(v) => str_equals(v, "0.0.0") || str_contains(v, "stale"),
    }
}

fn opt_as_str(value: &Option<String>) -> (r: Option<&str>)
    ensures
        match r { Some(v) => Some(v@), None => None } == opt_view(*value),
{
    match value {
        Some(text) => Some(text.as_str()),
        None => None,
    }
}

fn opt_equals(value: &Option<String>, text: &str) -> (r: bool)
    ensures
        r == (opt_view(*value) == Some(text@)),
{
    match value {
        Some(v) => str_equals(v.as_str(), text),
        None => false,
    }
}

/// The confidence an adapter earns at a boundary with the given policy.
pub fn adapter_confidence(adapter: &EcosystemAdapterPolicy, policy: &BoundaryPolicy) -> (confidence: AdapterConfidence)
    ensures
        confidence == confidence_for(*adapter, *policy),
{
    if opt_equals(&adapter.confidence, "exact") {
        AdapterConfidence::Exact
    } else if opt_equals(&adapter.confidence, "modeled") {
        AdapterConfidence::Modeled
    } else if opt_equals(&adapter.confidence, "sampled") {
        AdapterConfidence::Sampled
    } else if opt_equals(&adapter.confidence, "metadata-only") || opt_equals(&adapter.confidence, "metadata_only") {
        AdapterConfidence::MetadataOnly
    } else if !adapter.validated {
        AdapterConfidence::MetadataOnly
    } else if opt_equals(&adapter.capture, "boundary-io") && *policy == BoundaryPolicy::Record {
        AdapterConfidence::Exact
    } else if adapter.adapter_runtime.is_some() {
        AdapterConfidence::Modeled
    } else {
        AdapterConfidence::MetadataOnly
    }
}

/// The outcome an adapter reports for the given confidence.
pub fn adapter_outcome(adapter: &EcosystemAdapterPolicy, confidence: &AdapterConfidence) -> (outcome: String)
    ensures
        outcome@ == outcome_for(opt_view(adapter.version), *confidence),
{
    if adapter_version_is_stale(opt_as_str(&adapter.version)) {
        return owned("debt");
    }
    match confidence {
        AdapterConfidence::Exact | AdapterConfidence::Modeled => owned("proof"),
        AdapterConfidence::Sampled => owned("probing_pass"),
        AdapterConfidence::MetadataOnly => owned("metadata_only"),
    }
}

/// Whether an evidence record is stale.
pub fn adapter_is_stale(adapter: &AdapterEvidence) -> (stale: bool)
    ensures
        stale == evidence_is_stale(adapter@),
{
    adapter_version_is_stale(opt_as_str(&adapter.version)) || str_equals(adapter.outcome.as_str(), "debt")
}

pub(crate) fn copy_evidence(e: &AdapterEvidence) -> (r: AdapterEvidence)
    ensures
        r@ == e@,
{
    AdapterEvidence {
        boundary: e.boundary.clone(),
        adapter: e.adapter.clone(),
        version: clone_opt_string(&e.version),
        confidence: e.confidence,
        replay_grade: e.replay_grade,
        outcome: e.outcome.clone(),
        reason: e.reason.clone(),
    }
}

fn opt_less_exec(a: &Option<String>, b: &Option<String>) -> (r: bool)
    ensures
        r == opt_less(opt_view(*a), opt_view(*b)),
{
    match (a, b) {
        (None, Some(_)) => true,
        (Some(x), Some(y)) => str_less(x.as_str(), y.as_str()),
        _ => false,
    }
}

fn opt_same(a: &Option<String>, b: &Option<String>) -> (r: bool)
    ensures
        r == (opt_view(*a) == opt_view(*b)),
{
    match (a, b) {
        (None, None) => true,
        (Some(x), Some(y)) => str_equals(x.as_str(), y.as_str()),
        _ => false,
    }
}

fn key_less_exec(a: &AdapterEvidence, b: &AdapterEvidence) -> (r: bool)
    ensures
        r == key_less(evidence_key(a@), evidence_key(b@)),
{
    reveal(key_less);
    if !str_equals(a.boundary.as_str(), b.boundary.as_str()) {
        str_less(a.boundary.as_str(), b.boundary.as_str())
    } else if !str_equals(a.adapter.as_str(), b.adapter.as_str()) {
        str_less(a.adapter.as_str(), b.adapter.as_str())
    } else {
        opt_less_exec(&a.version, &b.version)
    }
}

fn key_same(a: &AdapterEvidence, b: &AdapterEvidence) -> (r: bool)
    ensures
        r == (evidence_key(a@) == evidence_key(b@)),
{
    str_equals(a.boundary.as_str(), b.boundary.as_str())
        && str_equals(a.adapter.as_str(), b.adapter.as_str())
        && opt_same(&a.version, &b.version)
}

proof fn lemma_sorted_keys_found(out: Seq<AdapterEvidenceView>, prev: Seq<AdapterEvidenceView>, e: AdapterEvidenceView, p: int)
    requires
        sorted_first_of_each_key(out, prev),
        0 <= p < out.len(),
        evidence_key(out[p]) == evidence_key(e),
    ensures
        sorted_first_of_each_key(out, prev.push(e)),
{
    let next = prev.push(e);
    assert forall|j: int| 0 <= j < next.len() implies has_key(out, evidence_key(#[trigger] next[j])) by {
        if j < prev.len() {
            assert(next[j] == prev[j]);
        } else {
            assert(evidence_key(out[p]) == evidence_key(next[j]));
        }
    }
    assert forall|m: int| 0 <= m < out.len() implies exists|j: int| 0 <= j < next.len() && next[j] == #[trigger] out[m] && first_of_key(next, j) by {
        let j = choose|j: int| 0 <= j < prev.len() && prev[j] == out[m] && first_of_key(prev, j);
        assert(next[j] == out[m]);
        assert forall|k: int| 0 <= k < j implies evidence_key(#[trigger] next[k]) != evidence_key(next[j]) by {
            assert(next[k] == prev[k]);
        }
    }
}

proof fn lemma_key_absent(out: Seq<AdapterEvidenceView>, e: AdapterEvidenceView, p: int)
    requires
        keys_increasing(out),
        0 <= p <= out.len(),
        forall|k: int| 0 <= k < p ==> key_less(evidence_key(#[trigger] out[k]), evidence_key(e)),
        p < out.len() ==> key_less(evidence_key(e), evidence_key(out[p])),
    ensures
        !has_key(out, evidence_key(e)),
{
    let ek = evidence_key(e);
    assert forall|k: int| 0 <= k < out.len() implies evidence_key(#[trigger] out[k]) != ek by {
        if k < p {
            lemma_key_less_order(evidence_key(out[k]), ek, ek);
        } else {
            if k > p {
                lemma_key_less_order(ek, evidence_key(out[p]), evidence_key(out[k]));
            }
            lemma_key_less_order(ek, ek, ek);
        }
    }
}

proof fn lemma_increasing_insert(out: Seq<AdapterEvidenceView>, e: AdapterEvidenceView, p: int)
    requires
        keys_increasing(out),
        0 <= p <= out.len(),
        forall|k: int| 0 <= k < p ==> key_less(evidence_key(#[trigger] out[k]), evidence_key(e)),
        p < out.len() ==> key_less(evidence_key(e), evidence_key(out[p])),
    ensures
        keys_increasing(out.insert(p, e)),
{
    let ek = evidence_key(e);
    let now = out.insert(p, e);
    assert forall|a: int, b: int| 0 <= a < b < now.len() implies key_less(evidence_key(#[trigger] now[a]), evidence_key(#[trigger] now[b])) by {
        if a < p && b == p {
            assert(now[a] == out[a]);
        } else if a < p && b > p {
            assert(now[a] == out[a]);
            assert(now[b] == out[b - 1]);
            assert(key_less(evidence_key(out[a]), evidence_key(out[b - 1])));
        } else if a == p {
            assert(now[b] == out[b - 1]);
            if b - 1 > p {
                assert(key_less(evidence_key(out[p]), evidence_key(out[b - 1])));
                lemma_key_less_order(ek, evidence_key(out[p]), evidence_key(out[b - 1]));
            }
        } else if a > p {
            assert(now[a] == out[a - 1]);
            assert(now[b] == out[b - 1]);
            assert(key_less(evidence_key(out[a - 1]), evidence_key(out[b - 1])));
        } else {
            assert(now[a] == out[a]);
            assert(now[b] == out[b]);
        }
    }
}

proof fn lemma_sorted_keys_insert(out: Seq<AdapterEvidenceView>, prev: Seq<AdapterEvidenceView>, e: AdapterEvidenceView, p: int)
    requires
        sorted_first_of_each_key(out, prev),
        0 <= p <= out.len(),
        forall|k: int| 0 <= k < p ==> key_less(evidence_key(#[trigger] out[k]), evidence_key(e)),
        p < out.len() ==> key_less(evidence_key(e), evidence_key(out[p])),
    ensures
        sorted_first_of_each_key(out.insert(p, e), prev.push(e)),
{
    let ek = evidence_key(e);
    let next = prev.push(e);
    let now = out.insert(p, e);
    lemma_key_absent(out, e, p);
    lemma_increasing_insert(out, e, p);
    assert forall|j: int| 0 <= j < next.len() implies has_key(now, evidence_key(#[trigger] next[j])) by {
        if j < prev.len() {
            assert(next[j] == prev[j]);
            assert(has_key(out, evidence_key(prev[j])));
            let m = choose|m: int| 0 <= m < out.len() && evidence_key(out[m]) == evidence_key(prev[j]);
            if m < p {
                assert(now[m] == out[m]);
            } else {
                assert(now[m + 1] == out[m]);
            }
        } else {
            assert(now[p] == e);
        }
    }
    assert forall|m: int| 0 <= m < now.len() implies exists|j: int| 0 <= j < next.len() && next[j] == #[trigger] now[m] && first_of_key(next, j) by {
        if m == p {
            assert(next[prev.len() as int] == now[m]);
            assert forall|k: int| 0 <= k < prev.len() implies evidence_key(#[trigger] next[k]) != evidence_key(next[prev.len() as int]) by {
                assert(next[k] == prev[k]);
                assert(has_key(out, evidence_key(prev[k])));
            }
            assert(first_of_key(next, prev.len() as int));
        } else {
            let om = if m < p { m } else { m - 1 };
            assert(now[m] == out[om]);
            let j = choose|j: int| 0 <= j < prev.len() && prev[j] == out[om] && first_of_key(prev, j);
            assert(next[j] == now[m]);
            assert forall|k: int| 0 <= k < j implies evidence_key(#[trigger] next[k]) != evidence_key(next[j]) by {
                assert(next[k] == prev[k]);
            }
        }
    }
}

/// Sorts the records by boundary, adapter and version, keeping the first
/// record of each key.
pub fn sort_adapter_evidence(evidence: &mut Vec<AdapterEvidence>)
    ensures
        sorted_first_of_each_key(evidence_views(final(evidence)@), evidence_views(old(evidence)@)),
{
    let mut input: Vec<AdapterEvidence> = Vec::new();
    std::mem::swap(&mut input, evidence);
    let ghost inv = evidence_views(input@);
    let mut i: usize = 0;
    proof {
        assert(evidence_views(evidence@) =~= Seq::<AdapterEvidenceView>::empty());
    }
    while i < input.len()
        invariant
            i <= input@.len(),
            inv == evidence_views(input@),
            inv.len() == input@.len(),
            sorted_first_of_each_key(evidence_views(evidence@), inv.take(i as int)),
        decreases input@.len() - i,
    {
        let e = copy_evidence(&input[i]);
        let ghost out = evidence_views(evidence@);
        let ghost ek = evidence_key(e@);
        let mut p: usize = 0;
        while p < evidence.len() && key_less_exec(&evidence[p], &e)
            invariant
                p <= evidence@.len(),
                out == evidence_views(evidence@),
                ek == evidence_key(e@),
                forall|k: int| 0 <= k < p ==> key_less(evidence_key(#[trigger] out[k]), ek),
            decreases evidence@.len() - p,
        {
            proof {
                assert(out[p as int] == evidence@[p as int]@);
            }
            p = p + 1;
        }
        let found = p < evidence.len() && key_same(&evidence[p], &e);
        proof {
            assert(inv.take(i + 1) =~= inv.take(i as int).push(e@));
            if p < out.len() {
                assert(out[p as int] == evidence@[p as int]@);
                if !found {
                    lemma_key_less_order(evidence_key(out[p as int]), ek, ek);
                }
            }
        }
        if !found {
            evidence.insert(p, e);
            proof {
                lemma_sorted_keys_insert(out, inv.take(i as int), e@, p as int);
                assert(evidence_views(evidence@) =~= out.insert(p as int, e@));
            }
        } else {
            proof {
                lemma_sorted_keys_found(out, inv.take(i as int), e@, p as int);
            }
        }
        i = i + 1;
    }
    proof {
        assert(inv.take(i as int) =~= inv);
    }
}

proof fn lemma_first_adapter_from(adapters: Seq<EcosystemAdapterPolicy>, name: Seq<char>, i: int)
    ensures
        first_adapter_from(adapters, name, i) matches Some(k) ==> i <= k < adapters.len()
            && adapters[k].crate_name@ == name,
    decreases adapters.len() - i,
{
    if 0 <= i < adapters.len() && adapters[i].crate_name@ != name {
        lemma_first_adapter_from(adapters, name, i + 1);
    }
}

fn find_adapter(adapters: &[EcosystemAdapterPolicy], name: &str) -> (r: Option<usize>)
    ensures
        match r {
            Some(i) => first_adapter_from(adapters@, name@, 0) == Some(i as int) && i < adapters@.len(),
            None => first_adapter_from(adapters@, name@, 0) is None,
        },
{
    let mut i: usize = 0;
    while i < adapters.len()
        invariant
            i <= adapters@.len(),
            first_adapter_from(adapters@, name@, 0) == first_adapter_from(adapters@, name@, i as int),
        decreases adapters@.len() - i,
    {
        if str_equals(adapters[i].crate_name.as_str(), name) {
            return Some(i);
        }
        i = i + 1;
    }
    proof {
        lemma_first_adapter_from(adapters@, name@, 0);
    }
    None
}

fn evidence_entry(adapter: &EcosystemAdapterPolicy, boundary: &String, policy: &BoundaryPolicy, grade: ReplayGrade) -> (e: AdapterEvidence)
    ensures
        e@ == entry_for(*adapter, boundary@, *policy, grade),
{
    let confidence = adapter_confidence(adapter, policy);
    let outcome = adapter_outcome(adapter, &confidence);
    let reason = match &adapter.reason {
        Some(r) => r.clone(),
        None => owned("configured ecosystem adapter"),
    };
    AdapterEvidence {
        boundary: boundary.clone(),
        adapter: adapter.package.clone(),
        version: clone_opt_string(&adapter.version),
        confidence: confidence,
        replay_grade: grade,
        outcome: outcome,
        reason: reason,
    }
}

/// Evidence from the configured adapters for the external boundaries of a
/// program: one record per boundary operation whose crate has an adapter
/// (the first adapter configured for it), sorted by boundary, adapter and
/// version, with the first record of each such key kept.
pub fn adapter_evidence(program: &ScenarioProgram, adapter_policies: &[EcosystemAdapterPolicy], requested_replay_grade: ReplayGrade) -> (evidence: Vec<AdapterEvidence>)
    ensures
        sorted_first_of_each_key(evidence_views(evidence@),
            boundary_entries(program.operations@, adapter_policies@, requested_replay_grade)),
{
    let mut evidence: Vec<AdapterEvidence> = Vec::new();
    let ops = &program.operations;
    let mut i: usize = 0;
    proof {
        assert(ops@.take(0) =~= Seq::<crate::scenario::ScenarioOperation>::empty());
        assert(evidence_views(evidence@) =~= Seq::<AdapterEvidenceView>::empty());
    }
    while i < ops.len()
        invariant
            i <= ops@.len(),
            evidence_views(evidence@) == boundary_entries(ops@.take(i as int), adapter_policies@, requested_replay_grade),
        decreases ops@.len() - i,
    {
        proof {
            assert(ops@.take(i + 1).drop_last() =~= ops@.take(i as int));
            assert(ops@.take(i + 1).last() == ops@[i as int]);
        }
        match &ops[i].kind {
            ScenarioOpKind::ExternalBoundary { crate_name, policy, .. } => {
                match find_adapter(adapter_policies, crate_name.as_str()) {
                    Some(a) => {
                        let e = evidence_entry(&adapter_policies[a], crate_name, policy, requested_replay_grade);
                        evidence.push(e);
                        proof {
                            assert(evidence_views(evidence@) =~= boundary_entries(ops@.take(i as int), adapter_policies@, requested_replay_grade).push(e@));
                        }
                    },
                    None => {},
                }
            },
            _ => {},
        }
        i = i + 1;
    }
    proof {
        assert(ops@.take(i as int) =~= ops@);
    }
    sort_adapter_evidence(&mut evidence);
    evidence
}

/// The replay grade a certificate may claim, given the requested grade and
/// the adapters' evidence: debt and not-replayable requests stand; any stale
/// adapter makes it debt; any sampled or metadata-only adapter makes it not
/// replayable; an exact request with a modeled adapter becomes partial.
pub fn adapter_adjusted_replay_grade(requested_replay_grade: ReplayGrade, adapters: &[AdapterEvidence]) -> (grade: ReplayGrade)
    ensures
        grade == adjusted_grade(requested_replay_grade, evidence_views(adapters@)),
{
    let ghost views = evidence_views(adapters@);
    if requested_replay_grade == ReplayGrade::Debt || requested_replay_grade == ReplayGrade::NotReplayable {
        return requested_replay_grade;
    }
    let mut i: usize = 0;
    while i < adapters.len()
        invariant
            i <= adapters@.len(),
            views == evidence_views(adapters@),
            views.len() == adapters@.len(),
            requested_replay_grade != ReplayGrade::Debt,
            requested_replay_grade != ReplayGrade::NotReplayable,
            forall|k: int| 0 <= k < i ==> !evidence_is_stale(#[trigger] views[k]),
        decreases adapters@.len() - i,
    {
        if adapter_is_stale(&adapters[i]) {
            proof {
                assert(evidence_is_stale(views[i as int]));
            }
            return ReplayGrade::Debt;
        }
        i = i + 1;
    }
    let mut i: usize = 0;
    while i < adapters.len()
        invariant
            i <= adapters@.len(),
            views == evidence_views(adapters@),
            views.len() == adapters@.len(),
            requested_replay_grade != ReplayGrade::Debt,
            requested_replay_grade != ReplayGrade::NotReplayable,
            forall|k: int| 0 <= k < views.len() ==> !evidence_is_stale(#[trigger] views[k]),
            forall|k: int| 0 <= k < i ==> !((#[trigger] views[k]).confidence == AdapterConfidence::Sampled
                || views[k].confidence == AdapterConfidence::MetadataOnly),
        decreases adapters@.len() - i,
    {
        let c = adapters[i].confidence;
        if c == AdapterConfidence::Sampled || c == AdapterConfidence::MetadataOnly {
            proof {
                assert(views[i as int].confidence == c);
            }
            return ReplayGrade::NotReplayable;
        }
        i = i + 1;
    }
    if requested_replay_grade == ReplayGrade::Exact {
        let mut i: usize = 0;
        while i < adapters.len()
            invariant
                i <= adapters@.len(),
                views == evidence_views(adapters@),
                requested_replay_grade == ReplayGrade::Exact,
                forall|k: int| 0 <= k < views.len() ==> !evidence_is_stale(#[trigger] views[k]),
                forall|k: int| 0 <= k < views.len() ==> !((#[trigger] views[k]).confidence == AdapterConfidence::Sampled
                    || views[k].confidence == AdapterConfidence::MetadataOnly),
                forall|k: int| 0 <= k < i ==> (#[trigger] views[k]).confidence != AdapterConfidence::Modeled,
            decreases adapters@.len() - i,
        {
            if adapters[i].confidence == AdapterConfidence::Modeled {
                proof {
                    assert(views[i as int].confidence == AdapterConfidence::Modeled);
                }
                return ReplayGrade::Partial;
            }
            i = i + 1;
        }
    }
    requested_replay_grade
}

/// Adjusting a grade twice by the same evidence changes nothing more.
pub proof fn lemma_adjusted_grade_idempotent(requested: ReplayGrade, adapters: Seq<AdapterEvidenceView>)
    ensures
        adjusted_grade(adjusted_grade(requested, adapters), adapters) == adjusted_grade(requested, adapters),
{
}

/// Adapter evidence never improves the requested grade: an exact claim
/// survives only an exact request, a partial one only an exact or partial
/// request, debt and not-replayable requests stand, and without adapters the
/// request stands.
pub proof fn lemma_adjusted_grade_never_upgrades(requested: ReplayGrade, adapters: Seq<AdapterEvidenceView>)
    ensures
        adjusted_grade(requested, adapters) == ReplayGrade::Exact ==> requested == ReplayGrade::Exact,
        adjusted_grade(requested, adapters) == ReplayGrade::Partial ==> requested == ReplayGrade::Exact
            || requested == ReplayGrade::Partial,
        requested == ReplayGrade::Debt || requested == ReplayGrade::NotReplayable ==> adjusted_grade(requested, adapters) == requested,
        adapters.len() == 0 ==> adjusted_grade(requested, adapters) == requested,
{
}

/// A boundary seen at run time: its crate, its policy and whether its I/O was
/// recorded.
#[derive(Debug)]
pub struct RuntimeBoundaryEvidence {
    pub boundary: String,
    pub policy: BoundaryPolicy,
    pub has_recorded_io: bool,
}

/// The evidence record of a boundary whose I/O was recorded.
pub open spec fn recorded_entry(boundary: Seq<char>, version: Seq<char>, grade: ReplayGrade) -> AdapterEvidenceView {
    AdapterEvidenceView {
        boundary: boundary,
        adapter: "recorded-boundary-capture"@,
        version: Some(version),
        confidence: AdapterConfidence::Exact,
        replay_grade: grade,
        outcome: "proof"@,
        reason: "recorded boundary I/O capture"@,
    }
}

/// One record per recorded boundary with the record policy, before sorting.
pub open spec fn recorded_entries(boundaries: Seq<RuntimeBoundaryEvidence>, version: Seq<char>, grade: ReplayGrade) -> Seq<AdapterEvidenceView>
    decreases boundaries.len(),
{
    if boundaries.len() == 0 {
        Seq::empty()
    } else {
        let prev = recorded_entries(boundaries.drop_last(), version, grade);
        let b = boundaries.last();
        if b.has_recorded_io && b.policy == BoundaryPolicy::Record {
            prev.push(recorded_entry(b.boundary@, version, grade))
        } else {
            prev
        }
    }
}

/// Evidence for the boundaries whose I/O the runtime recorded under the record
/// policy, captured by the driver of version `version`; sorted and
/// deduplicated as adapter evidence is.
pub fn runtime_boundary_adapter_evidence(boundaries: &[RuntimeBoundaryEvidence], requested_replay_grade: ReplayGrade, version: &str) -> (evidence: Vec<AdapterEvidence>)
    ensures
        sorted_first_of_each_key(evidence_views(evidence@), recorded_entries(boundaries@, version@, requested_replay_grade)),
{
    let mut evidence: Vec<AdapterEvidence> = Vec::new();
    let mut i: usize = 0;
    proof {
        assert(evidence_views(evidence@) =~= recorded_entries(boundaries@.take(0), version@, requested_replay_grade));
    }
    while i < boundaries.len()
        invariant
            i <= boundaries@.len(),
            evidence_views(evidence@) == recorded_entries(boundaries@.take(i as int), version@, requested_replay_grade),
        decreases boundaries@.len() - i,
    {
        let b = &boundaries[i];
        proof {
            assert(boundaries@.take(i + 1).drop_last() =~= boundaries@.take(i as int));
            assert(boundaries@.take(i + 1).last() == *b);
        }
        if b.has_recorded_io && b.policy == BoundaryPolicy::Record {
            let e = AdapterEvidence {
                boundary: b.boundary.clone(),
                adapter: owned("recorded-boundary-capture"),
                version: Some(owned(version)),
                confidence: AdapterConfidence::Exact,
                replay_grade: requested_replay_grade,
                outcome: owned("proof"),
                reason: owned("recorded boundary I/O capture"),
            };
            let ghost before = evidence@;
            evidence.push(e);
            proof {
                assert(evidence_views(evidence@) =~= evidence_views(before).push(e@));
            }
        }
        i = i + 1;
    }
    proof {
        assert(boundaries@.take(i as int) =~= boundaries@);
    }
    sort_adapter_evidence(&mut evidence);
    evidence
}

/// What a certificate assumes of one external boundary.
#[derive(Debug)]
pub struct BoundaryAssumption {
    pub id: String,
    pub boundary: String,
    pub policy: BoundaryPolicy,
    pub reason: Option<String>,
    pub source_span: SourceSpan,
}

/// An opaque boundary's entry in the ledger: the CFG edge it stands on and
/// the hash of its assumption.
#[derive(Debug)]
pub struct OpaqueLedgerEntry {
    pub edge_id: String,
    pub boundary: String,
    pub evidence_hash: String,
}

/// The spans of two source spans agree field by field.
pub open spec fn same_span(a: SourceSpan, b: SourceSpan) -> bool {
    a.path@ == b.path@ && a.line == b.line && a.start == b.start && a.end == b.end && a.mapped == b.mapped
        && a.snippet@ == b.snippet@
}

/// An edge into the opaque-boundary node at exactly `span`.
pub open spec fn opaque_edge_at(edge: CoreCfgEdge, span: SourceSpan) -> bool {
    edge.kind@ == "opaque_boundary"@ && edge.to@ == "opaque_boundary"@ && same_span(edge.source_span, span)
}

/// The position of the first of `edges` into the opaque-boundary node at `span`.
pub open spec fn first_opaque_edge(edges: Seq<CoreCfgEdge>, span: SourceSpan) -> Option<int> {
    if exists|i: int| 0 <= i < edges.len() && opaque_edge_at(#[trigger] edges[i], span) {
        Some(choose|i: int| 0 <= i < edges.len() && opaque_edge_at(#[trigger] edges[i], span)
            && forall|j: int| 0 <= j < i ==> !opaque_edge_at(#[trigger] edges[j], span))
    } else {
        None
    }
}

/// The id of the first CFG edge into the opaque-boundary node at `source_span`.
pub fn opaque_cfg_edge_id_for_span(cfg_edges: &[CoreCfgEdge], source_span: &SourceSpan) -> (r: Option<String>)
    ensures
        match r {
            Some(id) => exists|i: int| 0 <= i < cfg_edges@.len() && opaque_edge_at(#[trigger] cfg_edges@[i], *source_span)
                && id == cfg_edges@[i].id
                && forall|j: int| 0 <= j < i ==> !opaque_edge_at(#[trigger] cfg_edges@[j], *source_span),
            None => forall|i: int| 0 <= i < cfg_edges@.len() ==> !opaque_edge_at(#[trigger] cfg_edges@[i], *source_span),
        },
{
    let mut i: usize = 0;
    while i < cfg_edges.len()
        invariant
            i <= cfg_edges@.len(),
            forall|j: int| 0 <= j < i ==> !opaque_edge_at(#[trigger] cfg_edges@[j], *source_span),
        decreases cfg_edges@.len() - i,
    {
        let edge = &cfg_edges[i];
        if str_equals(edge.kind.as_str(), "opaque_boundary") && str_equals(edge.to.as_str(), "opaque_boundary")
            && spans_equal(&edge.source_span, source_span) {
            return Some(edge.id.clone());
        }
        i = i + 1;
    }
    None
}

/// The external boundaries among `ops`, each with its operation's position.
pub open spec fn boundary_sites(ops: Seq<ScenarioOperation>, n: int) -> Seq<int>
    decreases n,
{
    if n <= 0 {
        Seq::empty()
    } else if ops[n - 1].kind is ExternalBoundary {
        boundary_sites(ops, n - 1).push(n - 1)
    } else {
        boundary_sites(ops, n - 1)
    }
}

/// Every external boundary's span starts on a character boundary of `source`.
pub open spec fn boundary_spans_in(ops: Seq<ScenarioOperation>, source: Seq<char>) -> bool {
    forall|i: int| 0 <= i < ops.len() && (#[trigger] ops[i]).kind is ExternalBoundary
        ==> byte_boundary(source, clamp_offset(source, ops[i].span.start as int))
}

/// `a` is the assumption of the external boundary at operation `i`: id
/// `boundary-<i>-<crate>`, the crate, its policy and reason, and its span.
pub open spec fn assumption_of(a: BoundaryAssumption, ops: Seq<ScenarioOperation>, i: int, path: Seq<char>, source: Seq<char>) -> bool {
    match ops[i].kind {
        ScenarioOpKind::ExternalBoundary { crate_name, policy, reason, .. } => {
            &&& a.id@ == "boundary-"@ + decimal_text(i as nat) + "-"@ + crate_name@
            &&& a.boundary == crate_name
            &&& a.policy == policy
            &&& a.reason == reason
            &&& span_for(a.source_span, path, source, ops[i].span)
        },
        _ => false,
    }
}

/// The assumptions of the program's external boundaries, in operation order.
pub fn boundary_assumptions(source_path: &str, source: &str, program: &ScenarioProgram) -> (r: Vec<BoundaryAssumption>)
    requires
        utf8_len(source@) < usize::MAX,
        boundary_spans_in(program.operations@, source@),
    ensures
        r@.len() == boundary_sites(program.operations@, program.operations@.len() as int).len(),
        forall|k: int| 0 <= k < r@.len() ==> assumption_of(#[trigger] r@[k], program.operations@,
            boundary_sites(program.operations@, program.operations@.len() as int)[k], source_path@, source@),
{
    let ghost ops = program.operations@;
    let mut r: Vec<BoundaryAssumption> = Vec::new();
    let mut i: usize = 0;
    while i < program.operations.len()
        invariant
            i <= ops.len(),
            ops == program.operations@,
            utf8_len(source@) < usize::MAX,
            boundary_spans_in(ops, source@),
            r@.len() == boundary_sites(ops, i as int).len(),
            forall|k: int| 0 <= k < r@.len() ==> assumption_of(#[trigger] r@[k], ops, boundary_sites(ops, i as int)[k], source_path@, source@),
        decreases ops.len() - i,
    {
        let operation = &program.operations[i];
        match &operation.kind {
            ScenarioOpKind::ExternalBoundary { crate_name, policy, reason, .. } => {
                let mut digits = String::new();
                push_decimal(&mut digits, i as u64);
                let mut id: Vec<char> = Vec::new();
                push_str(&mut id, "boundary-");
                push_str(&mut id, digits.as_str());
                push_str(&mut id, "-");
                push_str(&mut id, crate_name.as_str());
                let assumption = BoundaryAssumption {
                    id: string_from_chars(id.as_slice()),
                    boundary: crate_name.clone(),
                    policy: *policy,
                    reason: clone_opt_string(reason),
                    source_span: source_span_from_kobo(source_path, source, operation.span),
                };
                proof {
                    assert(assumption.id@ =~= "boundary-"@ + decimal_text(i as nat) + "-"@ + crate_name@);
                    assert(assumption_of(assumption, ops, i as int, source_path@, source@));
                }
                r.push(assumption);
            },
            _ => {},
        }
        i = i + 1;
    }
    r
}

/// The ledger entry of an opaque boundary: the first opaque CFG edge at its
/// span, else the assumption's own id.
pub open spec fn ledger_entry_of(entry: OpaqueLedgerEntry, a: BoundaryAssumption, hash: Seq<char>, edges: Seq<CoreCfgEdge>) -> bool {
    &&& entry.edge_id@ == match first_opaque_edge(edges, a.source_span) {
        Some(i) => edges[i].id@,
        None => a.id@,
    }
    &&& entry.boundary@ == a.boundary@
    &&& entry.evidence_hash@ == hash
}

/// The opaque assumptions among the first `n`, by position.
pub open spec fn opaque_positions(assumptions: Seq<BoundaryAssumption>, n: int) -> Seq<int>
    decreases n,
{
    if n <= 0 {
        Seq::empty()
    } else if assumptions[n - 1].policy == BoundaryPolicy::Opaque {
        opaque_positions(assumptions, n - 1).push(n - 1)
    } else {
        opaque_positions(assumptions, n - 1)
    }
}

/// The boundary evidence of a program's assumptions: each assumption's hash
/// under its id, the assumptions themselves, and a ledger entry for each
/// opaque one. `hashes` holds the hash of each assumption, in the same order.
pub fn boundary_evidence(assumptions: Vec<BoundaryAssumption>, hashes: &[String], cfg_edges: &[CoreCfgEdge]) -> (r: (Vec<HashEvidence>, Vec<BoundaryAssumption>, Vec<OpaqueLedgerEntry>))
    requires
        hashes@.len() == assumptions@.len(),
    ensures
        r.1@ == assumptions@,
        r.0@.len() == assumptions@.len(),
        forall|k: int| 0 <= k < r.0@.len() ==> (#[trigger] r.0@[k]).id == assumptions@[k].id && r.0@[k].hash == hashes@[k],
        r.2@.len() == opaque_positions(assumptions@, assumptions@.len() as int).len(),
        forall|k: int| 0 <= k < r.2@.len() ==> ledger_entry_of(#[trigger] r.2@[k],
            assumptions@[opaque_positions(assumptions@, assumptions@.len() as int)[k]],
            hashes@[opaque_positions(assumptions@, assumptions@.len() as int)[k]]@, cfg_edges@),
{
    let ghost all = assumptions@;
    let mut hash_evidence: Vec<HashEvidence> = Vec::new();
    let mut ledger: Vec<OpaqueLedgerEntry> = Vec::new();
    let mut i: usize = 0;
    while i < assumptions.len()
        invariant
            i <= all.len(),
            all == assumptions@,
            hashes@.len() == all.len(),
            hash_evidence@.len() == i,
            forall|k: int| 0 <= k < i ==> (#[trigger] hash_evidence@[k]).id == all[k].id && hash_evidence@[k].hash == hashes@[k],
            ledger@.len() == opaque_positions(all, i as int).len(),
            forall|k: int| 0 <= k < ledger@.len() ==> ledger_entry_of(#[trigger] ledger@[k],
                all[opaque_positions(all, i as int)[k]], hashes@[opaque_positions(all, i as int)[k]]@, cfg_edges@),
        decreases all.len() - i,
    {
        let a = &assumptions[i];
        hash_evidence.push(HashEvidence { id: a.id.clone(), hash: hashes[i].clone() });
        if a.policy == BoundaryPolicy::Opaque {
            let edge_id = match opaque_cfg_edge_id_for_span(cfg_edges, &a.source_span) {
                Some(id) => id,
                None => a.id.clone(),
            };
            proof {
                if exists|q: int| 0 <= q < cfg_edges@.len() && opaque_edge_at(#[trigger] cfg_edges@[q], a.source_span) {
                    let q = choose|q: int| 0 <= q < cfg_edges@.len() && opaque_edge_at(#[trigger] cfg_edges@[q], a.source_span);
                    assert(exists|i: int| 0 <= i < cfg_edges@.len() && opaque_edge_at(#[trigger] cfg_edges@[i], a.source_span)
                        && forall|j: int| 0 <= j < i ==> !opaque_edge_at(#[trigger] cfg_edges@[j], a.source_span));
                    let w = first_opaque_edge(cfg_edges@, a.source_span)->0;
                    assert(edge_id@ == cfg_edges@[w].id@) by {
                        let x = choose|x: int| 0 <= x < cfg_edges@.len() && opaque_edge_at(#[trigger] cfg_edges@[x], a.source_span)
                            && edge_id == cfg_edges@[x].id
                            && forall|j: int| 0 <= j < x ==> !opaque_edge_at(#[trigger] cfg_edges@[j], a.source_span);
                        if x < w {
                        } else if w < x {
                        }
                    }
                }
            }
            ledger.push(OpaqueLedgerEntry { edge_id, boundary: a.boundary.clone(), evidence_hash: hashes[i].clone() });
        }
        i = i + 1;
    }
    (hash_evidence, assumptions, ledger)
}

} // verus!
