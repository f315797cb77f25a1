//! Declared bounds of a bounded proof: the name-value fields of a
//! `#[kobo::bounded(...)]` attribute, the dimensions they declare, and how
//! duplicate histories are pruned before completeness is judged.
use vstd::prelude::*;
use crate::numbers::{parse_unsigned, parse_u64};
use crate::strings::{chars_of, decimal_text, push_decimal, string_from_chars};
use crate::text::{copy_range, str_equals, trim_range, trimmed, trim_bounds};
use crate::core_cfg::{CoreLoopBackEdgeFact, CoreLoopExitFact};
use crate::templates::{insert_sorted, sorted_strict, texts};

verus! {

/// Attribute fields by name; a later field of the same name wins.
#[derive(Debug)]
pub struct FieldMap {
    entries: Vec<(String, String)>,
}

/// The map that a list of fields describes, later fields winning.
pub open spec fn fields_map(entries: Seq<(String, String)>) -> Map<Seq<char>, Seq<char>>
    decreases entries.len(),
{
    if entries.len() == 0 {
        Map::empty()
    } else {
        fields_map(entries.drop_last()).insert(entries.last().0@, entries.last().1@)
    }
}

proof fn lemma_fields_map_last(entries: Seq<(String, String)>, k: Seq<char>, j: int)
    requires
        -1 <= j < entries.len(),
        forall|i: int| j < i < entries.len() ==> (#[trigger] entries[i]).0@ != k,
        0 <= j ==> entries[j].0@ == k,
    ensures
        j < 0 ==> !fields_map(entries).contains_key(k),
        0 <= j ==> fields_map(entries).contains_key(k) && fields_map(entries)[k] == entries[j].1@,
    decreases entries.len(),
{
    if entries.len() > 0 && j < entries.len() - 1 {
        let prev = entries.drop_last();
        assert forall|i: int| j < i < prev.len() implies (#[trigger] prev[i]).0@ != k by {
            assert(prev[i] == entries[i]);
        }
        if 0 <= j {
            assert(prev[j] == entries[j]);
        }
        lemma_fields_map_last(prev, k, j);
    }
}

impl View for FieldMap {
    type V = Map<Seq<char>, Seq<char>>;

    closed spec fn view(&self) -> Map<Seq<char>, Seq<char>> {
        fields_map(self.entries@)
    }
}

impl FieldMap {
    /// No fields.
    pub fn new() -> (fields: Self)
        ensures
            fields@ == Map::<Seq<char>, Seq<char>>::empty(),
    {
        FieldMap { entries: Vec::new() }
    }

    /// Sets field `key` to `value`.
    pub fn insert(&mut self, key: String, value: String)
        ensures
            final(self)@ == old(self)@.insert(key@, value@),
    {
        let ghost before = self.entries@;
        self.entries.push((key, value));
        proof {
            assert(self.entries@.drop_last() =~= before);
        }
    }

    /// The names of the fields, sorted, each once.
    pub fn keys(&self) -> (keys: Vec<String>)
        ensures
            sorted_strict(texts(keys@)),
            forall|k: Seq<char>| texts(keys@).contains(k) <==> self@.contains_key(k),
    {
        let mut keys: Vec<String> = Vec::new();
        let mut i: usize = 0;
        while i < self.entries.len()
            invariant
                i <= self.entries@.len(),
                sorted_strict(texts(keys@)),
                forall|k: Seq<char>| texts(keys@).contains(k) <==> fields_map(self.entries@.take(i as int)).contains_key(k),
            decreases self.entries@.len() - i,
        {
            proof {
                assert(self.entries@.take(i + 1).drop_last() =~= self.entries@.take(i as int));
            }
            insert_sorted(&mut keys, self.entries[i].0.clone());
            i = i + 1;
        }
        proof {
            assert(self.entries@.take(i as int) =~= self.entries@);
        }
        keys
    }

    /// The value of field `key`.
    pub fn get(&self, key: &str) -> (value: Option<String>)
        ensures
            match value {
                Some(v) => self@.contains_key(key@) && self@[key@] == v@,
                None => !self@.contains_key(key@),
            },
    {
        let mut j = self.entries.len();
        while j > 0
            invariant
                j <= self.entries@.len(),
                forall|i: int| j <= i < self.entries@.len() ==> (#[trigger] self.entries@[i]).0@ != key@,
            decreases j,
        {
            if str_equals(self.entries[j - 1].0.as_str(), key) {
                proof {
                    lemma_fields_map_last(self.entries@, key@, j - 1);
                }
                return Some(self.entries[j - 1].1.clone());
            }
            j = j - 1;
        }
        proof {
            lemma_fields_map_last(self.entries@, key@, -1);
        }
        None
    }
}

/// The non-empty value of field `key`.
pub fn string_field(fields: &FieldMap, key: &str) -> (value: Option<String>)
    ensures
        match value {
            Some(v) => fields@.contains_key(key@) && fields@[key@] == v@ && v@.len() > 0,
            None => !fields@.contains_key(key@) || fields@[key@].len() == 0,
        },
{
    match fields.get(key) {
        Some(v) => {
            let chars = chars_of(v.as_str());
            if chars.len() == 0 {
                None
            } else {
                Some(v)
            }
        },
        None => None,
    }
}

/// Field `key` read as `true` or `false`.
pub fn bool_field(fields: &FieldMap, key: &str) -> (value: Option<bool>)
    ensures
        value == if fields@.contains_key(key@) && fields@[key@] == "true"@ {
            Some(true)
        } else if fields@.contains_key(key@) && fields@[key@] == "false"@ {
            Some(false)
        } else {
            None::<bool>
        },
{
    match fields.get(key) {
        Some(v) => {
            if str_equals(v.as_str(), "true") {
                Some(true)
            } else if str_equals(v.as_str(), "false") {
                Some(false)
            } else {
                None
            }
        },
        None => None,
    }
}

/// Field `key` read as a `u64` (as `str::parse` reads it).
pub open spec fn numeric_value(fields: Map<Seq<char>, Seq<char>>, key: Seq<char>) -> Option<u64> {
    if fields.contains_key(key) {
        match parse_unsigned(fields[key], u64::MAX as nat) {
            Some(v) => Some(v as u64),
            None => None,
        }
    } else {
        None
    }
}

/// Field `key` read as a `u64`.
pub fn numeric_field(fields: &FieldMap, key: &str) -> (value: Option<u64>)
    ensures
        value == numeric_value(fields@, key@),
{
    match fields.get(key) {
        Some(v) => {
            let chars = chars_of(v.as_str());
            proof {
                assert(chars@.subrange(0, chars@.len() as int) =~= chars@);
            }
            parse_u64(chars.as_slice(), 0, chars.len())
        },
        None => None,
    }
}

/// The first of the keys whose field reads as a `u64`, read.
pub open spec fn first_numeric(fields: Map<Seq<char>, Seq<char>>, keys: Seq<Seq<char>>) -> Option<u64>
    decreases keys.len(),
{
    if keys.len() == 0 {
        None
    } else {
        match numeric_value(fields, keys[0]) {
            Some(v) => Some(v),
            None => first_numeric(fields, keys.drop_first()),
        }
    }
}

/// The first of the keys whose field reads as a `u64`, read.
pub fn first_numeric_field(fields: &FieldMap, keys: &[&str]) -> (value: Option<u64>)
    ensures
        value == first_numeric(fields@, keys@.map_values(|k: &str| k@)),
{
    let ghost ks = keys@.map_values(|k: &str| k@);
    let mut i: usize = 0;
    proof {
        assert(ks.skip(0) =~= ks);
    }
    while i < keys.len()
        invariant
            i <= keys@.len(),
            ks == keys@.map_values(|k: &str| k@),
            first_numeric(fields@, ks) == first_numeric(fields@, ks.skip(i as int)),
        decreases keys@.len() - i,
    {
        proof {
            assert(ks.skip(i as int)[0] == keys@[i as int]@);
            assert(ks.skip(i as int).drop_first() =~= ks.skip(i + 1));
        }
        match numeric_field(fields, keys[i]) {
            Some(v) => {
                return Some(v);
            },
            None => {},
        }
        i = i + 1;
    }
    proof {
        assert(ks.skip(i as int) =~= Seq::<Seq<char>>::empty());
    }
    None
}

/// A separator of dimension lists.
pub open spec fn is_list_separator(c: char) -> bool {
    c == '|' || c == ','
}

/// The index of the first separator in `s[lo..]`, or the length.
pub open spec fn next_separator(s: Seq<char>, lo: int) -> int
    decreases s.len() - lo,
{
    if lo >= s.len() {
        s.len() as int
    } else if is_list_separator(s[lo]) {
        lo
    } else {
        next_separator(s, lo + 1)
    }
}

pub proof fn lemma_next_separator(s: Seq<char>, lo: int)
    requires
        0 <= lo <= s.len(),
    ensures
        lo <= next_separator(s, lo) <= s.len(),
        next_separator(s, lo) < s.len() ==> is_list_separator(s[next_separator(s, lo)]),
    decreases s.len() - lo,
{
    if lo < s.len() && !is_list_separator(s[lo]) {
        lemma_next_separator(s, lo + 1);
    }
}

/// The trimmed, non-empty pieces of `s[lo..]` between separators.
pub open spec fn list_items_from(s: Seq<char>, lo: int) -> Seq<Seq<char>>
    decreases s.len() - lo,
{
    if lo < 0 || lo > s.len() {
        Seq::empty()
    } else {
        let e = next_separator(s, lo);
        let piece = trimmed(s.subrange(lo, e));
        let rest = if e >= s.len() {
            Seq::<Seq<char>>::empty()
        } else {
            proof {
                lemma_next_separator(s, lo);
            }
            list_items_from(s, e + 1)
        };
        if piece.len() > 0 {
            seq![piece] + rest
        } else {
            rest
        }
    }
}

/// The values of a list field split at `|` and `,`, trimmed, empty ones dropped.
pub open spec fn list_items(fields: Map<Seq<char>, Seq<char>>, key: Seq<char>) -> Seq<Seq<char>> {
    if fields.contains_key(key) {
        list_items_from(fields[key], 0)
    } else {
        Seq::empty()
    }
}

/// The values of a list field (`a|b,c`), trimmed, empty ones dropped.
pub fn dimension_values(fields: &FieldMap, key: &str) -> (values: Vec<String>)
    ensures
        values@.map_values(|v: String| v@) == list_items(fields@, key@),
{
    let mut values: Vec<String> = Vec::new();
    let text = match fields.get(key) {
        Some(v) => v,
        None => {
            proof {
                assert(values@.map_values(|v: String| v@) =~= Seq::<Seq<char>>::empty());
            }
            return values;
        },
    };
    let s = chars_of(text.as_str());
    let n = s.len();
    let mut lo: usize = 0;
    proof {
        assert(values@.map_values(|v: String| v@) =~= Seq::<Seq<char>>::empty());
    }
    loop
        invariant_except_break
            values@.map_values(|v: String| v@) + list_items_from(s@, lo as int) == list_items_from(s@, 0),
        invariant
            lo <= n,
            n == s@.len(),
        ensures
            values@.map_values(|v: String| v@) == list_items_from(s@, 0),
        decreases n - lo,
    {
        let mut e = lo;
        while e < n && s[e] != '|' && s[e] != ','
            invariant
                lo <= e <= n,
                n == s@.len(),
                next_separator(s@, e as int) == next_separator(s@, lo as int),
            decreases n - e,
        {
            e = e + 1;
        }
        proof {
            lemma_next_separator(s@, lo as int);
        }
        let piece = copy_range(s.as_slice(), lo, e);
        let (a, b) = trim_range(piece.as_slice(), 0, piece.len());
        proof {
            assert(piece@.subrange(0, piece@.len() as int) =~= piece@);
        }
        let ghost before = values@;
        let ghost rest = if e >= n { Seq::<Seq<char>>::empty() } else { list_items_from(s@, e + 1) };
        if a < b {
            let item = copy_range(piece.as_slice(), a, b);
            values.push(string_from_chars(item.as_slice()));
            proof {
                assert(values@.map_values(|v: String| v@) =~= before.map_values(|v: String| v@).push(item@));
                assert(seq![item@] + rest =~= list_items_from(s@, lo as int));
                assert(values@.map_values(|v: String| v@) + rest =~= before.map_values(|v: String| v@) + (seq![item@] + rest));
            }
        } else {
            proof {
                assert(rest =~= list_items_from(s@, lo as int));
            }
        }
        if e >= n {
            proof {
                assert(values@.map_values(|v: String| v@) + Seq::<Seq<char>>::empty() =~= values@.map_values(|v: String| v@));
            }
            break;
        }
        lo = e + 1;
    }
    values
}

/// How completely a bounded exploration covered its histories.
#[derive(Clone, Copy, Debug, PartialEq, Eq, Structural)]
pub enum BoundedCompleteness {
    Complete,
    Timeout,
    Incomplete,
    Sampled,
}

/// The completeness a `completeness` field declares: unset or `sampled` is
/// sampled, an unknown word is incomplete.
pub open spec fn declared_completeness(value: Option<Seq<char>>) -> BoundedCompleteness {
    match value {
        None => BoundedCompleteness::Sampled,
        Some(v) => if v == "complete"@ {
            BoundedCompleteness::Complete
        } else if v == "timeout"@ {
            BoundedCompleteness::Timeout
        } else if v == "incomplete"@ {
            BoundedCompleteness::Incomplete
        } else if v == "sampled"@ {
            BoundedCompleteness::Sampled
        } else {
            BoundedCompleteness::Incomplete
        },
    }
}

/// The completeness a `completeness` field declares.
pub fn bounded_completeness(value: Option<&str>) -> (completeness: BoundedCompleteness)
    ensures
        completeness == declared_completeness(match value { Some(v) => Some(v@), None => None }),
{
    match value {
        None => BoundedCompleteness::Sampled,
        Some(v) => {
            if str_equals(v, "complete") {
                BoundedCompleteness::Complete
            } else if str_equals(v, "timeout") {
                BoundedCompleteness::Timeout
            } else if str_equals(v, "incomplete") {
                BoundedCompleteness::Incomplete
            } else if str_equals(v, "sampled") {
                BoundedCompleteness::Sampled
            } else {
                BoundedCompleteness::Incomplete
            }
        },
    }
}

/// A dimension a bounded proof declares a bound for.
#[derive(Clone, Copy, Debug, PartialEq, Eq, Structural)]
pub enum BoundDimension {
    SchedulerHistories,
    LoopIterations,
    FaultInjectionChoices,
    CancellationPoints,
    QueueCapacity,
    MessageCount,
    RetryAttempts,
    TimeoutPaths,
    ExternalBoundaryRecordings,
}

/// Where a bound was declared.
#[derive(Clone, Copy, Debug, PartialEq, Eq, Structural)]
pub enum BoundSource {
    Ward,
}

/// One declared bound.
#[derive(Clone, Copy, Debug, PartialEq, Eq, Structural)]
pub struct BoundDeclaration {
    pub dimension: BoundDimension,
    pub value: u64,
    pub source: BoundSource,
    pub proof_relevant: bool,
}

/// A proof-relevant bound declared by a ward.
pub open spec fn ward_bound(dimension: BoundDimension, value: u64) -> BoundDeclaration {
    BoundDeclaration { dimension, value, source: BoundSource::Ward, proof_relevant: true }
}

/// The declaration of a bound that is set, none for one that is not.
pub open spec fn declared(dimension: BoundDimension, value: Option<u64>) -> Seq<BoundDeclaration> {
    match value {
        Some(v) => seq![ward_bound(dimension, v)],
        None => Seq::empty(),
    }
}

/// Appends the bound for `dimension` if it is set.
pub fn push_bound_if_declared(bounds: &mut Vec<BoundDeclaration>, dimension: BoundDimension, value: Option<u64>)
    ensures
        final(bounds)@ == old(bounds)@ + declared(dimension, value),
{
    let value = match value {
        Some(v) => v,
        None => {
            proof {
                assert(old(bounds)@ + declared(dimension, value) =~= old(bounds)@);
            }
            return;
        },
    };
    bounds.push(BoundDeclaration { dimension, value, source: BoundSource::Ward, proof_relevant: true });
    proof {
        assert(final(bounds)@ =~= old(bounds)@ + declared(dimension, Some(value)));
    }
}

/// The state-space dimensions every complete bounded proof must declare.
#[derive(Clone, Copy, Debug, PartialEq, Eq, Structural)]
pub struct RequiredBoundDimensions {
    pub queue_capacity: Option<u64>,
    pub message_count: Option<u64>,
    pub retry_attempts: Option<u64>,
    pub timeout_paths: Option<u64>,
    pub external_boundary_recordings: Option<u64>,
}

impl RequiredBoundDimensions {
    /// Reads the dimensions from the attribute's fields, each under its name
    /// or the older names listed after it.
    pub fn from_fields(fields: &FieldMap) -> (dimensions: Self)
        ensures
            dimensions.queue_capacity == first_numeric(fields@, seq!["queue_capacity"@]),
            dimensions.message_count == first_numeric(fields@, seq!["message_count"@, "messages"@]),
            dimensions.retry_attempts == first_numeric(fields@, seq!["retry_attempts"@, "retries"@]),
            dimensions.timeout_paths == first_numeric(fields@, seq!["timeout_paths"@]),
            dimensions.external_boundary_recordings == first_numeric(fields@,
                seq!["external_boundary_recordings"@, "external_boundary_models"@, "external_boundaries"@]),
    {
        let queue_keys = ["queue_capacity"];
        let message_keys = ["message_count", "messages"];
        let retry_keys = ["retry_attempts", "retries"];
        let timeout_keys = ["timeout_paths"];
        let boundary_keys = ["external_boundary_recordings", "external_boundary_models", "external_boundaries"];
        proof {
            assert(queue_keys@.map_values(|k: &str| k@) =~= seq!["queue_capacity"@]);
            assert(message_keys@.map_values(|k: &str| k@) =~= seq!["message_count"@, "messages"@]);
            assert(retry_keys@.map_values(|k: &str| k@) =~= seq!["retry_attempts"@, "retries"@]);
            assert(timeout_keys@.map_values(|k: &str| k@) =~= seq!["timeout_paths"@]);
            assert(boundary_keys@.map_values(|k: &str| k@)
                =~= seq!["external_boundary_recordings"@, "external_boundary_models"@, "external_boundaries"@]);
        }
        RequiredBoundDimensions {
            queue_capacity: first_numeric_field(fields, &queue_keys),
            message_count: first_numeric_field(fields, &message_keys),
            retry_attempts: first_numeric_field(fields, &retry_keys),
            timeout_paths: first_numeric_field(fields, &timeout_keys),
            external_boundary_recordings: first_numeric_field(fields, &boundary_keys),
        }
    }

    /// Whether all five dimensions are declared.
    pub fn has_all_required_dimensions(&self) -> (all: bool)
        ensures
            all == (self.queue_capacity is Some && self.message_count is Some && self.retry_attempts is Some
                && self.timeout_paths is Some && self.external_boundary_recordings is Some),
    {
        self.queue_capacity.is_some() && self.message_count.is_some() && self.retry_attempts.is_some()
            && self.timeout_paths.is_some() && self.external_boundary_recordings.is_some()
    }

    /// The declarations of the dimensions that are set, in a fixed order.
    pub open spec fn declarations(self) -> Seq<BoundDeclaration> {
        declared(BoundDimension::QueueCapacity, self.queue_capacity)
            + declared(BoundDimension::MessageCount, self.message_count)
            + declared(BoundDimension::RetryAttempts, self.retry_attempts)
            + declared(BoundDimension::TimeoutPaths, self.timeout_paths)
            + declared(BoundDimension::ExternalBoundaryRecordings, self.external_boundary_recordings)
    }

    /// Appends the declarations of the dimensions that are set.
    pub fn push_declarations(&self, bounds: &mut Vec<BoundDeclaration>)
        ensures
            final(bounds)@ == old(bounds)@ + self.declarations(),
    {
        push_bound_if_declared(bounds, BoundDimension::QueueCapacity, self.queue_capacity);
        push_bound_if_declared(bounds, BoundDimension::MessageCount, self.message_count);
        push_bound_if_declared(bounds, BoundDimension::RetryAttempts, self.retry_attempts);
        push_bound_if_declared(bounds, BoundDimension::TimeoutPaths, self.timeout_paths);
        push_bound_if_declared(bounds, BoundDimension::ExternalBoundaryRecordings, self.external_boundary_recordings);
        proof {
            assert(final(bounds)@ =~= old(bounds)@ + self.declarations());
        }
    }
}

/// The bounds a bounded proof declares: its scheduler histories and loop
/// iterations, the number of fault choices and of cancellation points where
/// there are any, then the required dimensions that are set.
pub open spec fn declared_bounds(history_bound: u64, loop_iteration_bound: u64, faults: nat, cancellations: nat, required: RequiredBoundDimensions) -> Seq<BoundDeclaration> {
    seq![ward_bound(BoundDimension::SchedulerHistories, history_bound), ward_bound(BoundDimension::LoopIterations, loop_iteration_bound)]
        + (if faults > 0 { seq![ward_bound(BoundDimension::FaultInjectionChoices, faults as u64)] } else { Seq::empty() })
        + (if cancellations > 0 { seq![ward_bound(BoundDimension::CancellationPoints, cancellations as u64)] } else { Seq::empty() })
        + required.declarations()
}

/// The bounds a bounded proof declares.
pub fn bound_declarations(history_bound: u64, loop_iteration_bound: u64, fault_dimensions: &[String], cancellation_points: &[String], required_dimensions: &RequiredBoundDimensions) -> (bounds: Vec<BoundDeclaration>)
    ensures
        bounds@ == declared_bounds(history_bound, loop_iteration_bound, fault_dimensions@.len(), cancellation_points@.len(), *required_dimensions),
{
    let mut bounds = vec![BoundDeclaration {
        dimension: BoundDimension::SchedulerHistories,
        value: history_bound,
        source: BoundSource::Ward,
        proof_relevant: true,
    }];
    bounds.push(BoundDeclaration {
        dimension: BoundDimension::LoopIterations,
        value: loop_iteration_bound,
        source: BoundSource::Ward,
        proof_relevant: true,
    });
    let ghost base = bounds@;
    if fault_dimensions.len() > 0 {
        bounds.push(BoundDeclaration {
            dimension: BoundDimension::FaultInjectionChoices,
            value: fault_dimensions.len() as u64,
            source: BoundSource::Ward,
            proof_relevant: true,
        });
    }
    let ghost with_faults = bounds@;
    if cancellation_points.len() > 0 {
        bounds.push(BoundDeclaration {
            dimension: BoundDimension::CancellationPoints,
            value: cancellation_points.len() as u64,
            source: BoundSource::Ward,
            proof_relevant: true,
        });
    }
    let ghost with_cancellations = bounds@;
    required_dimensions.push_declarations(&mut bounds);
    proof {
        let faults = fault_dimensions@.len();
        let cancellations = cancellation_points@.len();
        assert(base =~= seq![ward_bound(BoundDimension::SchedulerHistories, history_bound), ward_bound(BoundDimension::LoopIterations, loop_iteration_bound)]);
        assert(with_faults =~= base + (if faults > 0 { seq![ward_bound(BoundDimension::FaultInjectionChoices, faults as u64)] } else { Seq::empty() }));
        assert(with_cancellations =~= with_faults + (if cancellations > 0 { seq![ward_bound(BoundDimension::CancellationPoints, cancellations as u64)] } else { Seq::empty() }));
    }
    bounds
}

/// Evidence that histories were pruned before completeness was judged.
#[derive(Debug)]
pub struct PrunedHistoryEvidence {
    pub id: String,
    pub reason: String,
}

/// A bounded exploration after duplicate histories are pruned.
#[derive(Debug)]
pub struct BoundedHistoryExploration<H> {
    pub histories: Vec<H>,
    pub enumerated_history_count: u64,
    pub expected_complete_history_count: u64,
    pub pruned_histories: Vec<PrunedHistoryEvidence>,
    pub is_complete: bool,
}

/// Prunes an exploration's histories to the declared number of unique
/// histories. Where fewer are declared than were explored, the rest are
/// dropped as duplicates; where more are declared, that is recorded; either
/// way the exploration no longer counts as complete.
pub fn bounded_history_exploration<H>(function: &str, histories: Vec<H>, expected_history_count: u64, explored_completely: bool, unique_history_count: Option<u64>) -> (exploration: BoundedHistoryExploration<H>)
    ensures
        exploration.expected_complete_history_count == expected_history_count,
        exploration.histories@ == match unique_history_count {
            Some(u) => if u < histories@.len() { histories@.take(u as int) } else { histories@ },
            None => histories@,
        },
        exploration.enumerated_history_count == exploration.histories@.len(),
        exploration.pruned_histories@.len() == match unique_history_count {
            Some(u) => if u != histories@.len() { 1int } else { 0int },
            None => 0int,
        },
        forall|k: int| 0 <= k < exploration.pruned_histories@.len() ==> (#[trigger] exploration.pruned_histories@[k]).id@ == "pruned-"@ + function@
            && exploration.pruned_histories@[k].reason@ == match unique_history_count {
                Some(u) => if u < histories@.len() {
                    decimal_text((histories@.len() - u) as nat) + " duplicate histories collapsed before completeness evaluation"@
                } else {
                    "declared unique history count "@ + decimal_text(u as nat) + " exceeds "@ + decimal_text(histories@.len()) + " explored histories"@
                },
                None => Seq::empty(),
            },
        exploration.is_complete == (explored_completely && exploration.pruned_histories@.len() == 0),
{
    let mut histories = histories;
    let ghost original = histories@;
    let original_history_count = histories.len() as u64;
    let mut pruned_histories: Vec<PrunedHistoryEvidence> = Vec::new();
    match unique_history_count {
        Some(unique) => {
            if unique < original_history_count {
                histories.truncate(unique as usize);
                let mut id = crate::config::owned("pruned-");
                id.append(function);
                let mut reason = String::new();
                push_decimal(&mut reason, original_history_count - unique);
                reason.append(" duplicate histories collapsed before completeness evaluation");
                pruned_histories.push(PrunedHistoryEvidence { id, reason });
            } else if unique > original_history_count {
                let mut id = crate::config::owned("pruned-");
                id.append(function);
                let mut reason = crate::config::owned("declared unique history count ");
                push_decimal(&mut reason, unique);
                reason.append(" exceeds ");
                push_decimal(&mut reason, original_history_count);
                reason.append(" explored histories");
                pruned_histories.push(PrunedHistoryEvidence { id, reason });
            }
        },
        None => {},
    }
    let enumerated = histories.len() as u64;
    let is_complete = explored_completely && pruned_histories.len() == 0;
    BoundedHistoryExploration {
        histories,
        enumerated_history_count: enumerated,
        expected_complete_history_count: expected_history_count,
        pruned_histories,
        is_complete,
    }
}

/// The number of histories a complete exploration covers when every
/// scheduler, fault and cancellation dimension is declared: their product.
pub open spec fn derived_history_count(schedulers: nat, faults: nat, cancellations: nat) -> Option<nat> {
    if schedulers == 0 || faults == 0 || cancellations == 0 {
        None
    } else {
        Some(schedulers * faults * cancellations)
    }
}

/// The number of histories a complete exploration covers: the product of the
/// numbers of scheduler, fault and cancellation dimensions, where each is
/// declared at least once.
pub fn derived_complete_history_count(scheduler_dimensions: &[String], fault_dimensions: &[String], cancellation_points: &[String]) -> (r: Option<u64>)
    requires
        scheduler_dimensions@.len() * fault_dimensions@.len() * cancellation_points@.len() <= u64::MAX,
    ensures
        match r {
            Some(n) => derived_history_count(scheduler_dimensions@.len(), fault_dimensions@.len(), cancellation_points@.len()) == Some(n as nat),
            None => derived_history_count(scheduler_dimensions@.len(), fault_dimensions@.len(), cancellation_points@.len()) is None,
        },
{
    if scheduler_dimensions.len() == 0 || fault_dimensions.len() == 0 || cancellation_points.len() == 0 {
        return None;
    }
    let a = scheduler_dimensions.len() as u64;
    let b = fault_dimensions.len() as u64;
    let c = cancellation_points.len() as u64;
    proof {
        assert(a * b <= a * b * c) by (nonlinear_arith)
            requires
                c >= 1,
                a >= 0,
                b >= 0,
        ;
    }
    Some(a * b * c)
}

/// The completeness that evidence may claim: a declared `complete` stands
/// only where the exploration was complete (explored in full, with no
/// duplicate or missing histories), the enumerated count is the expected one
/// and every dimension is declared; it is incomplete otherwise. Other
/// declarations (sampled, timed out, incomplete) stand as they are.
pub open spec fn effective_completeness(declared: BoundedCompleteness, is_complete: bool, enumerated: u64, expected: Option<u64>, schedulers: nat, faults: nat, cancellations: nat) -> BoundedCompleteness {
    if declared != BoundedCompleteness::Complete {
        declared
    } else if !is_complete || expected != Some(enumerated) || schedulers == 0 || faults == 0 || cancellations == 0 {
        BoundedCompleteness::Incomplete
    } else {
        BoundedCompleteness::Complete
    }
}

/// The completeness that evidence may claim.
pub fn effective_bounded_completeness(declared: BoundedCompleteness, is_complete: bool, enumerated_history_count: u64, expected_complete_history_count: Option<u64>, scheduler_dimensions: &[String], fault_dimensions: &[String], cancellation_points: &[String]) -> (r: BoundedCompleteness)
    ensures
        r == effective_completeness(declared, is_complete, enumerated_history_count, expected_complete_history_count,
            scheduler_dimensions@.len(), fault_dimensions@.len(), cancellation_points@.len()),
{
    if declared != BoundedCompleteness::Complete {
        return declared;
    }
    let matches_expected = match expected_complete_history_count {
        Some(n) => n == enumerated_history_count,
        None => false,
    };
    if !is_complete || !matches_expected || scheduler_dimensions.len() == 0 || fault_dimensions.len() == 0 || cancellation_points.len() == 0 {
        return BoundedCompleteness::Incomplete;
    }
    BoundedCompleteness::Complete
}

/// How a bounded result is worded: a proof only when complete with the
/// expected number of histories, evidence otherwise.
pub open spec fn wording_of(completeness: BoundedCompleteness, enumerated: u64, expected: Option<u64>) -> Seq<char> {
    if completeness == BoundedCompleteness::Complete && expected == Some(enumerated) {
        "bounded proof: all "@ + decimal_text(enumerated as nat) + " histories explored under declared bounds"@
    } else {
        "evidence only: "@ + decimal_text(enumerated as nat) + " sampled histories, state space incomplete"@
    }
}

/// How a bounded result is worded.
pub fn bounded_wording(completeness: &BoundedCompleteness, enumerated_history_count: u64, expected_complete_history_count: Option<u64>) -> (r: String)
    ensures
        r@ == wording_of(*completeness, enumerated_history_count, expected_complete_history_count),
{
    let proved = *completeness == BoundedCompleteness::Complete && match expected_complete_history_count {
        Some(n) => n == enumerated_history_count,
        None => false,
    };
    let (head, tail) = if proved {
        ("bounded proof: all ", " histories explored under declared bounds")
    } else {
        ("evidence only: ", " sampled histories, state space incomplete")
    };
    let mut out = String::new();
    let mut chars: Vec<char> = Vec::new();
    crate::text::push_str(&mut chars, head);
    push_decimal(&mut out, enumerated_history_count);
    crate::text::push_str(&mut chars, out.as_str());
    crate::text::push_str(&mut chars, tail);
    string_from_chars(chars.as_slice())
}

/// How bounded evidence is worded: `bounded proof: all <N> histories
/// explored under declared bounds` only for an exploration declared complete,
/// explored in full without duplicate histories, with the expected number of
/// histories and every dimension declared; a sampled, timed-out,
/// duplicate-inflated or dimension-incomplete exploration says `evidence only`.
pub proof fn lemma_bounded_wording(declared: BoundedCompleteness, is_complete: bool, enumerated: u64, expected: u64, schedulers: nat, faults: nat, cancellations: nat)
    ensures
        ({
            let w = wording_of(effective_completeness(declared, is_complete, enumerated, Some(expected), schedulers, faults, cancellations),
                enumerated, Some(expected));
            if declared == BoundedCompleteness::Complete && is_complete && enumerated == expected
                && schedulers > 0 && faults > 0 && cancellations > 0 {
                w == "bounded proof: all "@ + decimal_text(enumerated as nat) + " histories explored under declared bounds"@
            } else {
                w == "evidence only: "@ + decimal_text(enumerated as nat) + " sampled histories, state space incomplete"@
            }
        }),
{
}

/// What the fields of a bounded attribute declare.
#[derive(Debug)]
pub struct BoundedInputs {
    pub history_bound: u64,
    pub loop_iteration_bound: u64,
    pub unique_history_count: Option<u64>,
    pub declared_expected: Option<u64>,
    pub declared_completeness: BoundedCompleteness,
    pub scheduler_dimensions: Vec<String>,
    pub fault_dimensions: Vec<String>,
    pub cancellation_points: Vec<String>,
    pub required_dimensions: RequiredBoundDimensions,
}

/// Reads what a bounded attribute declares: `histories` (default 0),
/// `loop_iterations` (default 1), `unique_histories`, `expected`,
/// `completeness`, the scheduler, fault and cancellation lists, and the
/// required dimensions.
pub fn bounded_inputs(fields: &FieldMap) -> (inputs: BoundedInputs)
    ensures
        inputs.history_bound == match numeric_value(fields@, "histories"@) { Some(v) => v, None => 0 },
        inputs.loop_iteration_bound == match numeric_value(fields@, "loop_iterations"@) { Some(v) => v, None => 1 },
        inputs.unique_history_count == numeric_value(fields@, "unique_histories"@),
        inputs.declared_expected == numeric_value(fields@, "expected"@),
        inputs.declared_completeness == declared_completeness(
            if fields@.contains_key("completeness"@) { Some(fields@["completeness"@]) } else { None }),
        texts(inputs.scheduler_dimensions@) == list_items(fields@, "scheduler"@),
        texts(inputs.fault_dimensions@) == list_items(fields@, "fault"@),
        texts(inputs.cancellation_points@) == list_items(fields@, "cancellation"@),
        inputs.required_dimensions.queue_capacity == first_numeric(fields@, seq!["queue_capacity"@]),
        inputs.required_dimensions.message_count == first_numeric(fields@, seq!["message_count"@, "messages"@]),
        inputs.required_dimensions.retry_attempts == first_numeric(fields@, seq!["retry_attempts"@, "retries"@]),
        inputs.required_dimensions.timeout_paths == first_numeric(fields@, seq!["timeout_paths"@]),
        inputs.required_dimensions.external_boundary_recordings == first_numeric(fields@,
            seq!["external_boundary_recordings"@, "external_boundary_models"@, "external_boundaries"@]),
{
    let history_bound = match numeric_field(fields, "histories") {
        Some(v) => v,
        None => 0,
    };
    let loop_iteration_bound = match numeric_field(fields, "loop_iterations") {
        Some(v) => v,
        None => 1,
    };
    let completeness_text = fields.get("completeness");
    let declared_completeness = match &completeness_text {
        Some(t) => bounded_completeness(Some(t.as_str())),
        None => bounded_completeness(None),
    };
    let scheduler_dimensions = dimension_values(fields, "scheduler");
    let fault_dimensions = dimension_values(fields, "fault");
    let cancellation_points = dimension_values(fields, "cancellation");
    proof {
        assert(texts(scheduler_dimensions@) =~= scheduler_dimensions@.map_values(|v: String| v@));
        assert(texts(fault_dimensions@) =~= fault_dimensions@.map_values(|v: String| v@));
        assert(texts(cancellation_points@) =~= cancellation_points@.map_values(|v: String| v@));
    }
    BoundedInputs {
        history_bound,
        loop_iteration_bound,
        unique_history_count: numeric_field(fields, "unique_histories"),
        declared_expected: numeric_field(fields, "expected"),
        declared_completeness,
        scheduler_dimensions,
        fault_dimensions,
        cancellation_points,
        required_dimensions: RequiredBoundDimensions::from_fields(fields),
    }
}

/// What the completeness of a bounded result is judged from.
#[derive(Debug)]
pub struct BoundedClassificationInput {
    pub declared: BoundedCompleteness,
    pub declared_expected: Option<u64>,
    pub is_complete: bool,
    pub expected_complete_history_count: u64,
    pub enumerated_history_count: u64,
    pub has_scheduler_dimensions: bool,
    pub has_fault_dimensions: bool,
    pub has_cancellation_points: bool,
    pub has_required_dimensions: bool,
}

/// What the completeness of a bounded result is judged from: the declaration
/// and the explored histories.
pub fn bounded_classification_input<H>(inputs: &BoundedInputs, exploration: &BoundedHistoryExploration<H>) -> (r: BoundedClassificationInput)
    ensures
        r.declared == inputs.declared_completeness,
        r.declared_expected == inputs.declared_expected,
        r.is_complete == exploration.is_complete,
        r.expected_complete_history_count == exploration.expected_complete_history_count,
        r.enumerated_history_count == exploration.enumerated_history_count,
        r.has_scheduler_dimensions == (inputs.scheduler_dimensions@.len() > 0),
        r.has_fault_dimensions == (inputs.fault_dimensions@.len() > 0),
        r.has_cancellation_points == (inputs.cancellation_points@.len() > 0),
        r.has_required_dimensions == (inputs.required_dimensions.queue_capacity is Some
            && inputs.required_dimensions.message_count is Some && inputs.required_dimensions.retry_attempts is Some
            && inputs.required_dimensions.timeout_paths is Some
            && inputs.required_dimensions.external_boundary_recordings is Some),
{
    BoundedClassificationInput {
        declared: inputs.declared_completeness,
        declared_expected: inputs.declared_expected,
        is_complete: exploration.is_complete,
        expected_complete_history_count: exploration.expected_complete_history_count,
        enumerated_history_count: exploration.enumerated_history_count,
        has_scheduler_dimensions: inputs.scheduler_dimensions.len() > 0,
        has_fault_dimensions: inputs.fault_dimensions.len() > 0,
        has_cancellation_points: inputs.cancellation_points.len() > 0,
        has_required_dimensions: inputs.required_dimensions.has_all_required_dimensions(),
    }
}

/// The evidence of a bounded proof.
#[derive(Debug)]
pub struct BoundedProofEvidence<H> {
    pub id: String,
    pub function: String,
    pub loop_ids: Vec<String>,
    pub normalized_bound_hash: String,
    pub bounds: Vec<BoundDeclaration>,
    pub enumerated_history_count: u64,
    pub expected_complete_history_count: Option<u64>,
    pub scheduler_dimensions: Vec<String>,
    pub fault_dimensions: Vec<String>,
    pub cancellation_points: Vec<String>,
    pub canonical_histories: Vec<H>,
    pub pruned_histories: Vec<PrunedHistoryEvidence>,
    pub completeness: BoundedCompleteness,
    pub wording: String,
}

/// The ids of the back-edge facts of `function`, then those of its exit facts.
pub open spec fn loop_ids_of(back: Seq<CoreLoopBackEdgeFact>, exits: Seq<CoreLoopExitFact>, function: Seq<char>) -> Seq<Seq<char>> {
    back.filter(|f: CoreLoopBackEdgeFact| f.function@ == function).map_values(|f: CoreLoopBackEdgeFact| f.id@)
        + exits.filter(|f: CoreLoopExitFact| f.function@ == function).map_values(|f: CoreLoopExitFact| f.id@)
}

/// The bounded evidence of `function`: id `bounded-<function>`, the ids of
/// its loop facts, the declared bounds, the explored histories and the
/// classified completeness and wording. The normalized hash is left empty for
/// the caller to fill in.
pub fn bounded_evidence_from_fields<H>(function: &str, loop_facts: &[CoreLoopBackEdgeFact], loop_exit_facts: &[CoreLoopExitFact], inputs: BoundedInputs, exploration: BoundedHistoryExploration<H>) -> (r: BoundedProofEvidence<H>)
    ensures
        r.id@ == "bounded-"@ + function@,
        r.function@ == function@,
        texts(r.loop_ids@) == loop_ids_of(loop_facts@, loop_exit_facts@, function@),
        r.normalized_bound_hash@ == Seq::<char>::empty(),
        r.bounds@ == declared_bounds(exploration.expected_complete_history_count, inputs.loop_iteration_bound,
            inputs.fault_dimensions@.len(), inputs.cancellation_points@.len(), inputs.required_dimensions),
        r.enumerated_history_count == exploration.enumerated_history_count,
        r.expected_complete_history_count == Some(exploration.expected_complete_history_count),
        r.scheduler_dimensions == inputs.scheduler_dimensions,
        r.fault_dimensions == inputs.fault_dimensions,
        r.cancellation_points == inputs.cancellation_points,
        r.canonical_histories == exploration.histories,
        r.pruned_histories == exploration.pruned_histories,
        r.completeness == effective_completeness(inputs.declared_completeness, exploration.is_complete,
            exploration.enumerated_history_count, Some(exploration.expected_complete_history_count),
            inputs.scheduler_dimensions@.len(), inputs.fault_dimensions@.len(), inputs.cancellation_points@.len()),
        r.wording@ == wording_of(r.completeness, r.enumerated_history_count, r.expected_complete_history_count),
{
    let completeness = effective_bounded_completeness(inputs.declared_completeness, exploration.is_complete,
        exploration.enumerated_history_count, Some(exploration.expected_complete_history_count),
        inputs.scheduler_dimensions.as_slice(), inputs.fault_dimensions.as_slice(), inputs.cancellation_points.as_slice());
    let wording = bounded_wording(&completeness, exploration.enumerated_history_count, Some(exploration.expected_complete_history_count));
    let bounds = bound_declarations(exploration.expected_complete_history_count, inputs.loop_iteration_bound,
        inputs.fault_dimensions.as_slice(), inputs.cancellation_points.as_slice(), &inputs.required_dimensions);
    let ghost back_keep = |f: CoreLoopBackEdgeFact| f.function@ == function@;
    let ghost exit_keep = |f: CoreLoopExitFact| f.function@ == function@;
    let mut loop_ids: Vec<String> = Vec::new();
    let mut i: usize = 0;
    proof {
        assert(loop_facts@.take(0).filter(back_keep) =~= Seq::<CoreLoopBackEdgeFact>::empty());
        assert(texts(loop_ids@) =~= loop_facts@.take(0).filter(back_keep).map_values(|f: CoreLoopBackEdgeFact| f.id@));
    }
    while i < loop_facts.len()
        invariant
            i <= loop_facts@.len(),
            forall|f: CoreLoopBackEdgeFact| #[trigger] back_keep(f) == (f.function@ == function@),
            texts(loop_ids@) == loop_facts@.take(i as int).filter(back_keep).map_values(|f: CoreLoopBackEdgeFact| f.id@),
        decreases loop_facts@.len() - i,
    {
        let fact = &loop_facts[i];
        proof {
            assert(loop_facts@.take(i + 1).drop_last() =~= loop_facts@.take(i as int));
            loop_facts@.take(i as int).lemma_filter_push(*fact, back_keep);
            assert(loop_facts@.take(i as int).push(*fact) =~= loop_facts@.take(i + 1));
        }
        if str_equals(fact.function.as_str(), function) {
            let ghost before = loop_ids@;
            loop_ids.push(fact.id.clone());
            proof {
                assert(texts(loop_ids@) =~= texts(before).push(fact.id@));
                assert(loop_facts@.take(i + 1).filter(back_keep) =~= loop_facts@.take(i as int).filter(back_keep).push(*fact));
            }
        }
        i = i + 1;
    }
    proof {
        assert(loop_facts@.take(i as int) =~= loop_facts@);
    }
    let ghost first = texts(loop_ids@);
    let mut j: usize = 0;
    proof {
        assert(loop_exit_facts@.take(0).filter(exit_keep) =~= Seq::<CoreLoopExitFact>::empty());
        assert(texts(loop_ids@) =~= first + loop_exit_facts@.take(0).filter(exit_keep).map_values(|f: CoreLoopExitFact| f.id@));
    }
    while j < loop_exit_facts.len()
        invariant
            j <= loop_exit_facts@.len(),
            forall|f: CoreLoopExitFact| #[trigger] exit_keep(f) == (f.function@ == function@),
            texts(loop_ids@) == first + loop_exit_facts@.take(j as int).filter(exit_keep).map_values(|f: CoreLoopExitFact| f.id@),
        decreases loop_exit_facts@.len() - j,
    {
        let fact = &loop_exit_facts[j];
        proof {
            assert(loop_exit_facts@.take(j + 1).drop_last() =~= loop_exit_facts@.take(j as int));
            loop_exit_facts@.take(j as int).lemma_filter_push(*fact, exit_keep);
            assert(loop_exit_facts@.take(j as int).push(*fact) =~= loop_exit_facts@.take(j + 1));
        }
        if str_equals(fact.function.as_str(), function) {
            let ghost before = loop_ids@;
            loop_ids.push(fact.id.clone());
            proof {
                assert(texts(loop_ids@) =~= texts(before).push(fact.id@));
                assert(loop_exit_facts@.take(j + 1).filter(exit_keep) =~= loop_exit_facts@.take(j as int).filter(exit_keep).push(*fact));
            }
        }
        j = j + 1;
    }
    proof {
        assert(loop_exit_facts@.take(j as int) =~= loop_exit_facts@);
        assert(back_keep =~= (|f: CoreLoopBackEdgeFact| f.function@ == function@));
        assert(exit_keep =~= (|f: CoreLoopExitFact| f.function@ == function@));
    }
    let mut id: Vec<char> = Vec::new();
    crate::text::push_str(&mut id, "bounded-");
    crate::text::push_str(&mut id, function);
    BoundedProofEvidence {
        id: string_from_chars(id.as_slice()),
        function: crate::config::owned(function),
        loop_ids,
        normalized_bound_hash: String::new(),
        bounds,
        enumerated_history_count: exploration.enumerated_history_count,
        expected_complete_history_count: Some(exploration.expected_complete_history_count),
        scheduler_dimensions: inputs.scheduler_dimensions,
        fault_dimensions: inputs.fault_dimensions,
        cancellation_points: inputs.cancellation_points,
        canonical_histories: exploration.histories,
        pruned_histories: exploration.pruned_histories,
        completeness,
        wording,
    }
}

} // verus!
