//! Candidate admission evidence: for each `kobo::candidate_track` attribute
//! of a source file, the candidate's declared fields and the facts derived
//! for it from what the file and the project configuration show.
use vstd::prelude::*;
use crate::boundaries::{AdapterEvidence, AdapterEvidenceView, ReplayGrade, RuntimeBoundaryEvidence,
    adapter_adjusted_replay_grade, adapter_evidence, adjusted_grade, boundary_entries, copy_evidence,
    evidence_views, opt_view, recorded_entries, runtime_boundary_adapter_evidence, sort_adapter_evidence,
    sorted_first_of_each_key};
use crate::config::EcosystemAdapterPolicy;
use crate::scenario::ScenarioProgram;
use crate::bounded::{FieldMap, bool_field, string_field};
use crate::config::owned;
use crate::strings::{decimal_text, push_decimal};
use crate::templates::{insert_sorted, sorted_strict, texts};
use crate::text::str_equals;

verus! {

/// One admission fact of a candidate.
#[derive(Debug)]
pub struct CandidateAdmissionFact {
    pub key: String,
    pub value: String,
}

/// The admission evidence of one candidate.
#[derive(Debug)]
pub struct CandidateAdmissionEvidence {
    pub id: String,
    pub track: String,
    pub status: String,
    pub evidence: Vec<CandidateAdmissionFact>,
    pub inspect_visibility: Option<String>,
    pub manual_rust_equivalent: Option<String>,
    pub strict_compatible: bool,
    pub whole_ecosystem_modeling_required: bool,
    pub diagnostic_snapshots: Vec<String>,
    pub replay_related: bool,
    pub replay_grade: Option<ReplayGrade>,
    pub adapter_confidence: Vec<AdapterEvidence>,
}

/// What a parse of a source file and its project's `Kobo.toml` show, as far
/// as candidate facts are derived from them.
#[derive(Debug)]
pub struct CandidateInspection {
    /// `output.target_rust` of the configuration, where it is a string.
    pub target_rust: Option<String>,
    /// The file has an inner `feature` attribute.
    pub uses_nightly_features: bool,
    /// `output.no_std` of the configuration, where it is a boolean.
    pub no_std: Option<bool>,
    /// Calls and macros of the file that allocate on the heap.
    pub hidden_heap_sites: u64,
    /// `output.memory_budget` of the configuration, where it is a string.
    pub memory_budget: Option<String>,
    /// `casts.policy` of the configuration, where it is a string.
    pub cast_policy: Option<String>,
    /// `as` casts of the file.
    pub cast_sites: u64,
    /// The path arguments of every `kobo::sugar` attribute, in order.
    pub sugar_arguments: Vec<String>,
    /// The file has a `kobo::newtype_scaffold` attribute.
    pub has_newtype_scaffold: bool,
    /// The file has an impl that the newtype scaffold hides.
    pub hidden_impls: bool,
    /// The file has a static or a global declared by macro.
    pub hidden_globals: bool,
    /// The file binds a context explicitly.
    pub context_binding: bool,
    /// The file has a `kobo::ward` attribute.
    pub has_ward: bool,
    /// The file has a `kobo::invariant` attribute.
    pub has_invariant: bool,
    /// The `query` field of every `kobo::temporal` attribute that has one.
    pub temporal_queries: Vec<String>,
    /// The path arguments of every `kobo::witness_minimization` attribute.
    pub witness_minimization_arguments: Vec<String>,
    /// For every `kobo::model_check` attribute, in order, its
    /// `backend_user_theory` and `backend_assumptions` fields.
    pub model_checks: Vec<(Option<String>, Option<String>)>,
    /// `adapters.scope` of the configuration, where it is a string.
    pub adapter_scope: Option<String>,
    /// `adapters.treadmill` of the configuration, where it is a string.
    pub adapter_treadmill: Option<String>,
}

/// Facts as (key, value) pairs.
pub open spec fn fact_pairs(facts: Seq<CandidateAdmissionFact>) -> Seq<(Seq<char>, Seq<char>)> {
    facts.map_values(|f: CandidateAdmissionFact| (f.key@, f.value@))
}

pub open spec fn bool_text(b: bool) -> Seq<char> {
    if b { "true"@ } else { "false"@ }
}

pub open spec fn opt_fact(key: Seq<char>, value: Option<String>) -> Seq<(Seq<char>, Seq<char>)> {
    match value {
        Some(v) => seq![(key, v@)],
        None => Seq::empty(),
    }
}

/// The sugar transforms among `args`, in their fixed order.
pub open spec fn present_tokens(args: Seq<Seq<char>>) -> Seq<Seq<char>> {
    (if args.contains("builder"@) { seq!["builder"@] } else { Seq::empty() })
        + (if args.contains("visitor"@) { seq!["visitor"@] } else { Seq::empty() })
        + (if args.contains("state_machine"@) { seq!["state_machine"@] } else { Seq::empty() })
        + (if args.contains("event_enum"@) { seq!["event_enum"@] } else { Seq::empty() })
}

/// `tokens` joined by `|`.
pub open spec fn joined(tokens: Seq<Seq<char>>) -> Seq<char>
    decreases tokens.len(),
{
    if tokens.len() == 0 {
        Seq::empty()
    } else if tokens.len() == 1 {
        tokens[0]
    } else {
        joined(tokens.drop_last()) + "|"@ + tokens.last()
    }
}

/// The backend facts of the first `n` model-check attributes.
pub open spec fn model_check_facts(checks: Seq<(Option<String>, Option<String>)>, n: int) -> Seq<(Seq<char>, Seq<char>)>
    decreases n,
{
    if n <= 0 {
        Seq::empty()
    } else {
        let (theory, assumptions) = checks[n - 1];
        model_check_facts(checks, n - 1)
            + (match theory {
                Some(t) => if t@ == "kobo_core_loop"@ || t@ == "z3_smt"@ { seq![("backend_user_theory"@, t@)] } else { Seq::empty() },
                None => Seq::empty(),
            })
            + (match assumptions {
                Some(a) => if a@ == "ledger"@ { seq![("backend_assumptions"@, "ledger"@)] } else { Seq::empty() },
                None => Seq::empty(),
            })
    }
}

pub open spec fn target_facts(ins: CandidateInspection) -> Seq<(Seq<char>, Seq<char>)> {
    match ins.target_rust {
        Some(t) => seq![("target_rust"@, t@), ("avoids_nightly"@, bool_text(!ins.uses_nightly_features))],
        None => Seq::empty(),
    }
}

pub open spec fn heap_facts(ins: CandidateInspection) -> Seq<(Seq<char>, Seq<char>)> {
    if ins.no_std == Some(true) {
        seq![
            ("no_hidden_heap"@, bool_text(ins.hidden_heap_sites == 0)),
            ("allocation_report"@, "structural"@),
            ("hidden_heap_sites"@, decimal_text(ins.hidden_heap_sites as nat)),
        ] + opt_fact("memory_budget"@, ins.memory_budget)
    } else {
        Seq::empty()
    }
}

pub open spec fn cast_facts(ins: CandidateInspection) -> Seq<(Seq<char>, Seq<char>)> {
    match ins.cast_policy {
        Some(p) => if ins.cast_sites > 0 {
            seq![("cast_policy"@, p@), ("debt_casts"@, "source_spans"@), ("strict_casts"@, "raw-casts-present"@)]
        } else {
            seq![("cast_policy"@, p@), ("debt_casts"@, "none"@), ("strict_casts"@, "explicit"@)]
        },
        None => Seq::empty(),
    }
}

pub open spec fn sugar_facts(ins: CandidateInspection) -> Seq<(Seq<char>, Seq<char>)> {
    let tokens = present_tokens(texts(ins.sugar_arguments@));
    if tokens.len() > 0 {
        seq![("transform_set"@, joined(tokens)), ("desugaring"@, "inspectable"@)]
    } else {
        Seq::empty()
    }
}

pub open spec fn coherence_facts(ins: CandidateInspection) -> Seq<(Seq<char>, Seq<char>)> {
    if ins.has_newtype_scaffold {
        seq![("coherence"@, "newtype_forwarding"@), ("hidden_impls"@, bool_text(ins.hidden_impls))]
    } else {
        Seq::empty()
    }
}

pub open spec fn context_facts(ins: CandidateInspection) -> Seq<(Seq<char>, Seq<char>)> {
    if ins.context_binding || ins.hidden_globals {
        seq![("context_threading"@, "explicit"@), ("hidden_globals"@, bool_text(ins.hidden_globals))]
    } else {
        Seq::empty()
    }
}

pub open spec fn temporal_facts(ins: CandidateInspection) -> Seq<(Seq<char>, Seq<char>)> {
    (if ins.has_ward && ins.has_invariant { seq![("stable_semantics"@, "ward|invariant"@)] } else { Seq::empty() })
        + (if texts(ins.temporal_queries@).contains("beyond_always_eventually_never"@) {
            seq![("temporal_extension"@, "beyond_always_eventually_never"@)]
        } else {
            Seq::empty()
        })
}

pub open spec fn adapter_facts(ins: CandidateInspection) -> Seq<(Seq<char>, Seq<char>)> {
    opt_fact("adapter_scope"@, ins.adapter_scope) + opt_fact("adapter_treadmill"@, ins.adapter_treadmill)
}

pub open spec fn model_checking_facts(ins: CandidateInspection) -> Seq<(Seq<char>, Seq<char>)> {
    (if texts(ins.witness_minimization_arguments@).contains("labeled_trace"@) {
        seq![("minimization_proof"@, "labeled_trace"@)]
    } else {
        Seq::empty()
    })
        + model_check_facts(ins.model_checks@, ins.model_checks@.len() as int)
}

/// The facts derived for the candidate `id` from what the file and the
/// configuration show.
pub open spec fn derived_facts(id: Seq<char>, ins: CandidateInspection) -> Seq<(Seq<char>, Seq<char>)> {
    if id == "S-32"@ {
        target_facts(ins)
    } else if id == "S-49"@ {
        heap_facts(ins)
    } else if id == "S-37+"@ {
        cast_facts(ins)
    } else if id == "S-46"@ {
        sugar_facts(ins)
    } else if id == "S-47"@ {
        coherence_facts(ins)
    } else if id == "S-48"@ {
        context_facts(ins)
    } else if id == "research-smt-temporal"@ {
        temporal_facts(ins)
    } else if id == "research-broad-adapters"@ {
        adapter_facts(ins)
    } else if id == "research-model-checking"@ {
        model_checking_facts(ins)
    } else {
        Seq::empty()
    }
}

fn push_fact(facts: &mut Vec<CandidateAdmissionFact>, key: &str, value: String)
    ensures
        fact_pairs(final(facts)@) == fact_pairs(old(facts)@).push((key@, value@)),
{
    facts.push(CandidateAdmissionFact { key: owned(key), value: value });
    proof {
        assert(fact_pairs(final(facts)@) =~= fact_pairs(old(facts)@).push((key@, value@)));
    }
}

fn bool_string(b: bool) -> (r: String)
    ensures
        r@ == bool_text(b),
{
    if b { owned("true") } else { owned("false") }
}

fn contains_text(v: &Vec<String>, s: &str) -> (r: bool)
    ensures
        r == texts(v@).contains(s@),
{
    let mut i: usize = 0;
    while i < v.len()
        invariant
            i <= v@.len(),
            forall|k: int| 0 <= k < i ==> texts(v@)[k] != s@,
        decreases v@.len() - i,
    {
        if str_equals(v[i].as_str(), s) {
            proof {
                assert(texts(v@)[i as int] == s@);
            }
            return true;
        }
        i = i + 1;
    }
    false
}

fn copy_string(s: &String) -> (r: String)
    ensures
        r@ == s@,
{
    s.clone()
}

fn append_token(out: &mut String, Ghost(acc): Ghost<Seq<Seq<char>>>, any: bool, token: &str)
    requires
        old(out)@ == joined(acc),
        any == (acc.len() > 0),
    ensures
        final(out)@ == joined(acc.push(token@)),
{
    proof {
        assert(acc.push(token@).drop_last() =~= acc);
    }
    if any {
        out.append("|");
    } else {
        proof {
            assert(old(out)@ =~= Seq::<char>::empty());
        }
    }
    out.append(token);
}

/// The sugar transforms among `args`, joined by `|`, where there are any.
fn transform_set(args: &Vec<String>) -> (r: Option<String>)
    ensures
        match r {
            Some(t) => present_tokens(texts(args@)).len() > 0 && t@ == joined(present_tokens(texts(args@))),
            None => present_tokens(texts(args@)).len() == 0,
        },
{
    let ghost a = texts(args@);
    let mut out = owned("");
    let mut any = false;
    let ghost mut acc: Seq<Seq<char>> = Seq::empty();
    proof {
        reveal_strlit("");
        assert(out@ =~= joined(acc));
    }
    if contains_text(args, "builder") {
        append_token(&mut out, Ghost(acc), any, "builder");
        any = true;
        proof { acc = acc.push("builder"@); }
    }
    if contains_text(args, "visitor") {
        append_token(&mut out, Ghost(acc), any, "visitor");
        any = true;
        proof { acc = acc.push("visitor"@); }
    }
    if contains_text(args, "state_machine") {
        append_token(&mut out, Ghost(acc), any, "state_machine");
        any = true;
        proof { acc = acc.push("state_machine"@); }
    }
    if contains_text(args, "event_enum") {
        append_token(&mut out, Ghost(acc), any, "event_enum");
        any = true;
        proof { acc = acc.push("event_enum"@); }
    }
    proof {
        assert(acc =~= present_tokens(a));
    }
    if any { Some(out) } else { None }
}

/// The facts of the model-check attributes, after `facts`.
fn push_model_check_facts(facts: &mut Vec<CandidateAdmissionFact>, checks: &Vec<(Option<String>, Option<String>)>)
    ensures
        fact_pairs(final(facts)@) == fact_pairs(old(facts)@) + model_check_facts(checks@, checks@.len() as int),
{
    let ghost start = fact_pairs(facts@);
    let mut i: usize = 0;
    while i < checks.len()
        invariant
            i <= checks@.len(),
            fact_pairs(facts@) == start + model_check_facts(checks@, i as int),
        decreases checks@.len() - i,
    {
        let ghost mid = fact_pairs(facts@);
        match &checks[i].0 {
            Some(theory) => {
                if str_equals(theory.as_str(), "kobo_core_loop") || str_equals(theory.as_str(), "z3_smt") {
                    push_fact(facts, "backend_user_theory", theory.clone());
                }
            },
            None => {},
        }
        let ghost after_theory = fact_pairs(facts@);
        match &checks[i].1 {
            Some(assumptions) => {
                if str_equals(assumptions.as_str(), "ledger") {
                    push_fact(facts, "backend_assumptions", owned("ledger"));
                }
            },
            None => {},
        }
        proof {
            let (theory, assumptions) = checks@[i as int];
            let t_part: Seq<(Seq<char>, Seq<char>)> = match theory {
                Some(t) => if t@ == "kobo_core_loop"@ || t@ == "z3_smt"@ { seq![("backend_user_theory"@, t@)] } else { Seq::empty() },
                None => Seq::empty(),
            };
            let a_part: Seq<(Seq<char>, Seq<char>)> = match assumptions {
                Some(a) => if a@ == "ledger"@ { seq![("backend_assumptions"@, "ledger"@)] } else { Seq::empty() },
                None => Seq::empty(),
            };
            assert(after_theory =~= mid + t_part);
            assert(fact_pairs(facts@) =~= after_theory + a_part);
            assert(model_check_facts(checks@, i + 1) == model_check_facts(checks@, i as int) + t_part + a_part);
            assert(fact_pairs(facts@) =~= start + model_check_facts(checks@, i + 1));
        }
        i = i + 1;
    }
}

fn push_opt_fact(facts: &mut Vec<CandidateAdmissionFact>, key: &str, value: &Option<String>)
    ensures
        fact_pairs(final(facts)@) == fact_pairs(old(facts)@) + opt_fact(key@, *value),
{
    match value {
        Some(v) => {
            push_fact(facts, key, v.clone());
        },
        None => {
            proof {
                assert(fact_pairs(old(facts)@) + opt_fact(key@, *value) =~= fact_pairs(old(facts)@));
            }
        },
    }
}

fn empty_facts() -> (facts: Vec<CandidateAdmissionFact>)
    ensures
        fact_pairs(facts@) == Seq::<(Seq<char>, Seq<char>)>::empty(),
{
    let facts: Vec<CandidateAdmissionFact> = Vec::new();
    proof {
        assert(fact_pairs(facts@) =~= Seq::<(Seq<char>, Seq<char>)>::empty());
    }
    facts
}

fn target_candidate_facts(ins: &CandidateInspection) -> (facts: Vec<CandidateAdmissionFact>)
    ensures
        fact_pairs(facts@) == target_facts(*ins),
{
    let mut facts = empty_facts();
    if let Some(target) = &ins.target_rust {
        push_fact(&mut facts, "target_rust", target.clone());
        push_fact(&mut facts, "avoids_nightly", bool_string(!ins.uses_nightly_features));
    }
    proof {
        assert(fact_pairs(facts@) =~= target_facts(*ins));
    }
    facts
}

fn heap_candidate_facts(ins: &CandidateInspection) -> (facts: Vec<CandidateAdmissionFact>)
    ensures
        fact_pairs(facts@) == heap_facts(*ins),
{
    let mut facts = empty_facts();
    if ins.no_std == Some(true) {
        push_fact(&mut facts, "no_hidden_heap", bool_string(ins.hidden_heap_sites == 0));
        push_fact(&mut facts, "allocation_report", owned("structural"));
        let mut count = owned("");
        proof {
            reveal_strlit("");
        }
        push_decimal(&mut count, ins.hidden_heap_sites);
        proof {
            assert(count@ =~= decimal_text(ins.hidden_heap_sites as nat));
        }
        push_fact(&mut facts, "hidden_heap_sites", count);
        push_opt_fact(&mut facts, "memory_budget", &ins.memory_budget);
    }
    proof {
        assert(fact_pairs(facts@) =~= heap_facts(*ins));
    }
    facts
}

fn cast_candidate_facts(ins: &CandidateInspection) -> (facts: Vec<CandidateAdmissionFact>)
    ensures
        fact_pairs(facts@) == cast_facts(*ins),
{
    let mut facts = empty_facts();
    if let Some(policy) = &ins.cast_policy {
        push_fact(&mut facts, "cast_policy", policy.clone());
        if ins.cast_sites > 0 {
            push_fact(&mut facts, "debt_casts", owned("source_spans"));
            push_fact(&mut facts, "strict_casts", owned("raw-casts-present"));
        } else {
            push_fact(&mut facts, "debt_casts", owned("none"));
            push_fact(&mut facts, "strict_casts", owned("explicit"));
        }
    }
    proof {
        assert(fact_pairs(facts@) =~= cast_facts(*ins));
    }
    facts
}

fn sugar_candidate_facts(ins: &CandidateInspection) -> (facts: Vec<CandidateAdmissionFact>)
    ensures
        fact_pairs(facts@) == sugar_facts(*ins),
{
    let mut facts = empty_facts();
    if let Some(set) = transform_set(&ins.sugar_arguments) {
        push_fact(&mut facts, "transform_set", set);
        push_fact(&mut facts, "desugaring", owned("inspectable"));
    }
    proof {
        assert(fact_pairs(facts@) =~= sugar_facts(*ins));
    }
    facts
}

fn coherence_candidate_facts(ins: &CandidateInspection) -> (facts: Vec<CandidateAdmissionFact>)
    ensures
        fact_pairs(facts@) == coherence_facts(*ins),
{
    let mut facts = empty_facts();
    if ins.has_newtype_scaffold {
        push_fact(&mut facts, "coherence", owned("newtype_forwarding"));
        push_fact(&mut facts, "hidden_impls", bool_string(ins.hidden_impls));
    }
    proof {
        assert(fact_pairs(facts@) =~= coherence_facts(*ins));
    }
    facts
}

fn context_candidate_facts(ins: &CandidateInspection) -> (facts: Vec<CandidateAdmissionFact>)
    ensures
        fact_pairs(facts@) == context_facts(*ins),
{
    let mut facts = empty_facts();
    if ins.context_binding || ins.hidden_globals {
        push_fact(&mut facts, "context_threading", owned("explicit"));
        push_fact(&mut facts, "hidden_globals", bool_string(ins.hidden_globals));
    }
    proof {
        assert(fact_pairs(facts@) =~= context_facts(*ins));
    }
    facts
}

fn temporal_candidate_facts(ins: &CandidateInspection) -> (facts: Vec<CandidateAdmissionFact>)
    ensures
        fact_pairs(facts@) == temporal_facts(*ins),
{
    let mut facts = empty_facts();
    if ins.has_ward && ins.has_invariant {
        push_fact(&mut facts, "stable_semantics", owned("ward|invariant"));
    }
    let ghost first = fact_pairs(facts@);
    if contains_text(&ins.temporal_queries, "beyond_always_eventually_never") {
        push_fact(&mut facts, "temporal_extension", owned("beyond_always_eventually_never"));
    }
    proof {
        assert(fact_pairs(facts@) =~= temporal_facts(*ins));
    }
    facts
}

fn adapter_candidate_facts(ins: &CandidateInspection) -> (facts: Vec<CandidateAdmissionFact>)
    ensures
        fact_pairs(facts@) == adapter_facts(*ins),
{
    let mut facts = empty_facts();
    push_opt_fact(&mut facts, "adapter_scope", &ins.adapter_scope);
    push_opt_fact(&mut facts, "adapter_treadmill", &ins.adapter_treadmill);
    proof {
        assert(fact_pairs(facts@) =~= adapter_facts(*ins));
    }
    facts
}

fn model_checking_candidate_facts(ins: &CandidateInspection) -> (facts: Vec<CandidateAdmissionFact>)
    ensures
        fact_pairs(facts@) == model_checking_facts(*ins),
{
    let mut facts = empty_facts();
    if contains_text(&ins.witness_minimization_arguments, "labeled_trace") {
        push_fact(&mut facts, "minimization_proof", owned("labeled_trace"));
    }
    push_model_check_facts(&mut facts, &ins.model_checks);
    proof {
        assert(fact_pairs(facts@) =~= model_checking_facts(*ins));
    }
    facts
}

/// The value of field `id`, or nothing.
pub open spec fn candidate_id(fields: Map<Seq<char>, Seq<char>>) -> Seq<char> {
    if fields.contains_key("id"@) { fields["id"@] } else { Seq::empty() }
}

/// The facts derived for a candidate from what its file and configuration show.
pub fn derived_candidate_facts(fields: &FieldMap, inspection: &CandidateInspection) -> (facts: Vec<CandidateAdmissionFact>)
    ensures
        fact_pairs(facts@) == derived_facts(candidate_id(fields@), *inspection),
{
    let id = match fields.get("id") {
        Some(v) => v,
        None => owned(""),
    };
    proof {
        reveal_strlit("");
        assert(id@ == candidate_id(fields@));
    }
    let id = id.as_str();
    if str_equals(id, "S-32") {
        target_candidate_facts(inspection)
    } else if str_equals(id, "S-49") {
        heap_candidate_facts(inspection)
    } else if str_equals(id, "S-37+") {
        cast_candidate_facts(inspection)
    } else if str_equals(id, "S-46") {
        sugar_candidate_facts(inspection)
    } else if str_equals(id, "S-47") {
        coherence_candidate_facts(inspection)
    } else if str_equals(id, "S-48") {
        context_candidate_facts(inspection)
    } else if str_equals(id, "research-smt-temporal") {
        temporal_candidate_facts(inspection)
    } else if str_equals(id, "research-broad-adapters") {
        adapter_candidate_facts(inspection)
    } else if str_equals(id, "research-model-checking") {
        model_checking_candidate_facts(inspection)
    } else {
        let facts: Vec<CandidateAdmissionFact> = Vec::new();
        proof {
            assert(fact_pairs(facts@) =~= Seq::<(Seq<char>, Seq<char>)>::empty());
        }
        facts
    }
}

/// A field name that is the candidate's own (`id`, `track`, ...) or one of
/// the derived facts; such fields are not listed as facts.
pub open spec fn excluded_key(k: Seq<char>) -> bool {
    ||| k == "id"@ ||| k == "track"@ ||| k == "status"@ ||| k == "inspect"@ ||| k == "manual_rust"@
    ||| k == "strict"@ ||| k == "whole_ecosystem"@ ||| k == "diagnostic_snapshot"@ ||| k == "replay_related"@
    ||| k == "target_rust"@ ||| k == "avoids_nightly"@ ||| k == "no_hidden_heap"@ ||| k == "allocation_report"@
    ||| k == "memory_budget"@ ||| k == "hidden_heap_sites"@ ||| k == "cast_policy"@ ||| k == "debt_casts"@
    ||| k == "strict_casts"@ ||| k == "transform_set"@ ||| k == "desugaring"@ ||| k == "coherence"@
    ||| k == "hidden_impls"@ ||| k == "context_threading"@ ||| k == "hidden_globals"@ ||| k == "stable_semantics"@
    ||| k == "temporal_extension"@ ||| k == "adapter_scope"@ ||| k == "adapter_treadmill"@
    ||| k == "minimization_proof"@ ||| k == "backend_user_theory"@ ||| k == "backend_assumptions"@
}

fn is_excluded_key(k: &str) -> (r: bool)
    ensures
        r == excluded_key(k@),
{
    str_equals(k, "id") || str_equals(k, "track") || str_equals(k, "status") || str_equals(k, "inspect")
        || str_equals(k, "manual_rust") || str_equals(k, "strict") || str_equals(k, "whole_ecosystem")
        || str_equals(k, "diagnostic_snapshot") || str_equals(k, "replay_related")
        || str_equals(k, "target_rust") || str_equals(k, "avoids_nightly") || str_equals(k, "no_hidden_heap")
        || str_equals(k, "allocation_report") || str_equals(k, "memory_budget") || str_equals(k, "hidden_heap_sites")
        || str_equals(k, "cast_policy") || str_equals(k, "debt_casts") || str_equals(k, "strict_casts")
        || str_equals(k, "transform_set") || str_equals(k, "desugaring") || str_equals(k, "coherence")
        || str_equals(k, "hidden_impls") || str_equals(k, "context_threading") || str_equals(k, "hidden_globals")
        || str_equals(k, "stable_semantics") || str_equals(k, "temporal_extension") || str_equals(k, "adapter_scope")
        || str_equals(k, "adapter_treadmill") || str_equals(k, "minimization_proof")
        || str_equals(k, "backend_user_theory") || str_equals(k, "backend_assumptions")
}

/// The value of the first of the first `n` pairs named `k`.
pub open spec fn first_value(pairs: Seq<(Seq<char>, Seq<char>)>, n: int, k: Seq<char>) -> Option<Seq<char>>
    decreases n,
{
    if n <= 0 {
        None
    } else {
        match first_value(pairs, n - 1, k) {
            Some(v) => Some(v),
            None => if pairs[n - 1].0 == k { Some(pairs[n - 1].1) } else { None },
        }
    }
}

proof fn lemma_first_value_stays(pairs: Seq<(Seq<char>, Seq<char>)>, m: int, n: int, k: Seq<char>)
    requires
        0 <= m <= n,
        first_value(pairs, m, k) is Some,
    ensures
        first_value(pairs, n, k) == first_value(pairs, m, k),
    decreases n - m,
{
    if n > m {
        lemma_first_value_stays(pairs, m, n - 1, k);
    }
}

/// What a candidate lists for fact `k`: its own field `k` where it has one
/// that is not excluded, else the first derived fact named `k`.
pub open spec fn admitted_value(fields: Map<Seq<char>, Seq<char>>, derived: Seq<(Seq<char>, Seq<char>)>, k: Seq<char>) -> Option<Seq<char>> {
    if fields.contains_key(k) && !excluded_key(k) {
        Some(fields[k])
    } else {
        first_value(derived, derived.len() as int, k)
    }
}

pub open spec fn fact_keys(facts: Seq<CandidateAdmissionFact>) -> Seq<Seq<char>> {
    facts.map_values(|f: CandidateAdmissionFact| f.key@)
}

/// `facts` lists, sorted by name and each name once, exactly the admitted facts.
pub open spec fn lists_admitted(facts: Seq<CandidateAdmissionFact>, fields: Map<Seq<char>, Seq<char>>, derived: Seq<(Seq<char>, Seq<char>)>) -> bool {
    &&& sorted_strict(fact_keys(facts))
    &&& forall|i: int| 0 <= i < facts.len() ==> admitted_value(fields, derived, (#[trigger] facts[i]).key@) == Some(facts[i].value@)
    &&& forall|k: Seq<char>| admitted_value(fields, derived, k) is Some ==> fact_keys(facts).contains(k)
}

fn first_derived_value(derived: &Vec<CandidateAdmissionFact>, key: &str) -> (r: Option<String>)
    ensures
        match r {
            Some(v) => first_value(fact_pairs(derived@), derived@.len() as int, key@) == Some(v@),
            None => first_value(fact_pairs(derived@), derived@.len() as int, key@) is None,
        },
{
    let ghost pairs = fact_pairs(derived@);
    let mut j: usize = 0;
    while j < derived.len()
        invariant
            j <= derived@.len(),
            pairs == fact_pairs(derived@),
            first_value(pairs, j as int, key@) is None,
        decreases derived@.len() - j,
    {
        if str_equals(derived[j].key.as_str(), key) {
            proof {
                assert(first_value(pairs, j + 1, key@) == Some(derived@[j as int].value@));
                lemma_first_value_stays(pairs, j + 1, pairs.len() as int, key@);
            }
            return Some(derived[j].value.clone());
        }
        j = j + 1;
    }
    None
}

proof fn lemma_push_contains(s: Seq<Seq<char>>, x: Seq<char>, k: Seq<char>)
    ensures
        s.push(x).contains(k) <==> (s.contains(k) || x == k),
{
    if s.push(x).contains(k) {
        let j = choose|j: int| 0 <= j < s.push(x).len() && s.push(x)[j] == k;
        if j < s.len() {
            assert(s[j] == k);
        }
    }
    if s.contains(k) {
        let j = choose|j: int| 0 <= j < s.len() && s[j] == k;
        assert(s.push(x)[j] == k);
    }
    if x == k {
        assert(s.push(x)[s.len() as int] == k);
    }
}

/// The admission facts of a candidate: its own fields that are not excluded
/// and the facts derived for it, sorted by name; where a name comes twice the
/// field comes before the derived fact, and the first of them is kept.
pub fn candidate_evidence_facts(fields: &FieldMap, inspection: &CandidateInspection) -> (facts: Vec<CandidateAdmissionFact>)
    ensures
        lists_admitted(facts@, fields@, derived_facts(candidate_id(fields@), *inspection)),
{
    let derived = derived_candidate_facts(fields, inspection);
    let ghost dpairs = fact_pairs(derived@);
    let ghost m = fields@;
    let field_keys = fields.keys();
    let mut names: Vec<String> = Vec::new();
    let mut i: usize = 0;
    while i < field_keys.len()
        invariant
            i <= field_keys@.len(),
            sorted_strict(texts(names@)),
            m == fields@,
            forall|k: Seq<char>| #[trigger] texts(field_keys@).contains(k) <==> m.contains_key(k),
            forall|k: Seq<char>| #[trigger] texts(names@).contains(k) <==> (texts(field_keys@).take(i as int).contains(k) && !excluded_key(k)),
        decreases field_keys@.len() - i,
    {
        let ghost x = field_keys@[i as int]@;
        let ghost prior = texts(names@);
        proof {
            assert(texts(field_keys@).take(i + 1) =~= texts(field_keys@).take(i as int).push(x));
        }
        let excluded = is_excluded_key(field_keys[i].as_str());
        if !excluded {
            insert_sorted(&mut names, field_keys[i].clone());
        }
        proof {
            assert forall|k: Seq<char>| texts(names@).contains(k) <==> (texts(field_keys@).take(i + 1).contains(k) && !excluded_key(k)) by {
                lemma_push_contains(texts(field_keys@).take(i as int), x, k);
                assert(texts(names@).contains(k) <==> (prior.contains(k) || (!excluded && k == x)));
                assert(prior.contains(k) <==> (texts(field_keys@).take(i as int).contains(k) && !excluded_key(k)));
            }
        }
        i = i + 1;
    }
    proof {
        assert(texts(field_keys@).take(i as int) =~= texts(field_keys@));
    }
    let mut d: usize = 0;
    while d < derived.len()
        invariant
            d <= derived@.len(),
            dpairs == fact_pairs(derived@),
            sorted_strict(texts(names@)),
            forall|k: Seq<char>| #[trigger] texts(names@).contains(k) <==> ((m.contains_key(k) && !excluded_key(k)) || first_value(dpairs, d as int, k) is Some),
        decreases derived@.len() - d,
    {
        let ghost prior = texts(names@);
        insert_sorted(&mut names, derived[d].key.clone());
        proof {
            assert(dpairs[d as int].0 == derived@[d as int].key@);
            assert forall|k: Seq<char>| texts(names@).contains(k) <==> ((m.contains_key(k) && !excluded_key(k)) || first_value(dpairs, d + 1, k) is Some) by {
                assert(texts(names@).contains(k) <==> (prior.contains(k) || k == derived@[d as int].key@));
                assert(first_value(dpairs, d + 1, k) is Some <==> (first_value(dpairs, d as int, k) is Some || dpairs[d as int].0 == k));
            }
        }
        d = d + 1;
    }
    let mut facts: Vec<CandidateAdmissionFact> = Vec::new();
    let mut n: usize = 0;
    while n < names.len()
        invariant
            n <= names@.len(),
            dpairs == fact_pairs(derived@),
            m == fields@,
            sorted_strict(texts(names@)),
            forall|k: Seq<char>| #[trigger] texts(names@).contains(k) <==> admitted_value(m, dpairs, k) is Some,
            fact_keys(facts@) == texts(names@).take(n as int),
            forall|j: int| 0 <= j < facts@.len() ==> admitted_value(m, dpairs, (#[trigger] facts@[j]).key@) == Some(facts@[j].value@),
        decreases names@.len() - n,
    {
        let key = names[n].as_str();
        proof {
            assert(texts(names@)[n as int] == names@[n as int]@);
            assert(texts(names@)[n as int] == key@);
            assert(texts(names@).contains(key@));
        }
        let own = if is_excluded_key(key) { None } else { fields.get(key) };
        let value = match own {
            Some(v) => v,
            None => match first_derived_value(&derived, key) {
                Some(v) => v,
                None => {
                    proof {
                        assert(false);
                    }
                    owned("")
                },
            },
        };
        let ghost before = facts@;
        facts.push(CandidateAdmissionFact { key: names[n].clone(), value: value });
        proof {
            assert(fact_keys(facts@) =~= fact_keys(before).push(names@[n as int]@));
            assert(texts(names@).take(n + 1) =~= texts(names@).take(n as int).push(names@[n as int]@));
            assert(fact_keys(facts@) =~= texts(names@).take(n + 1));
            assert forall|j: int| 0 <= j < facts@.len() implies admitted_value(m, dpairs, (#[trigger] facts@[j]).key@) == Some(facts@[j].value@) by {
                if j < before.len() {
                    assert(facts@[j] == before[j]);
                }
            }
        }
        n = n + 1;
    }
    proof {
        assert(texts(names@).take(n as int) =~= texts(names@));
    }
    facts
}

/// The value of field `k` where it is there and not empty.
pub open spec fn nonempty_field(m: Map<Seq<char>, Seq<char>>, k: Seq<char>) -> Option<Seq<char>> {
    if m.contains_key(k) && m[k].len() > 0 { Some(m[k]) } else { None }
}

/// Field `k` is there and reads `v`.
pub open spec fn field_is(m: Map<Seq<char>, Seq<char>>, k: Seq<char>, v: Seq<char>) -> bool {
    m.contains_key(k) && m[k] == v
}

pub open spec fn or_default(value: Option<Seq<char>>, default: Seq<char>) -> Seq<char> {
    match value {
        Some(v) => v,
        None => default,
    }
}

/// `e` is the admission evidence of the candidate with fields `m`: its id,
/// track and status (`unknown`, `unknown`, `research` where a field is
/// missing or empty), its admitted facts, the optional fields, `strict` only
/// where it reads `true`, whole-ecosystem modeling unless it reads `false`,
/// and, where the candidate is replay related, the replay grade and the
/// adapters' evidence.
pub open spec fn evidence_of(e: CandidateAdmissionEvidence, m: Map<Seq<char>, Seq<char>>, ins: CandidateInspection, grade: ReplayGrade, adapters: Seq<AdapterEvidenceView>) -> bool {
    let related = field_is(m, "replay_related"@, "true"@);
    &&& e.id@ == or_default(nonempty_field(m, "id"@), "unknown"@)
    &&& e.track@ == or_default(nonempty_field(m, "track"@), "unknown"@)
    &&& e.status@ == or_default(nonempty_field(m, "status"@), "research"@)
    &&& lists_admitted(e.evidence@, m, derived_facts(candidate_id(m), ins))
    &&& opt_view(e.inspect_visibility) == nonempty_field(m, "inspect"@)
    &&& opt_view(e.manual_rust_equivalent) == nonempty_field(m, "manual_rust"@)
    &&& e.strict_compatible == field_is(m, "strict"@, "true"@)
    &&& e.whole_ecosystem_modeling_required == !field_is(m, "whole_ecosystem"@, "false"@)
    &&& texts(e.diagnostic_snapshots@) == match nonempty_field(m, "diagnostic_snapshot"@) {
        Some(v) => seq![v],
        None => Seq::empty(),
    }
    &&& e.replay_related == related
    &&& e.replay_grade == if related { Some(grade) } else { None }
    &&& e.adapter_confidence@.len() == if related { adapters.len() } else { 0 }
    &&& forall|j: int| 0 <= j < e.adapter_confidence@.len() ==> (#[trigger] e.adapter_confidence@[j])@ == adapters[j]
}

fn field_or(fields: &FieldMap, key: &str, default: &str) -> (r: String)
    ensures
        r@ == or_default(nonempty_field(fields@, key@), default@),
{
    match string_field(fields, key) {
        Some(v) => v,
        None => owned(default),
    }
}

fn copy_adapters(adapters: &[AdapterEvidence]) -> (r: Vec<AdapterEvidence>)
    ensures
        r@.len() == adapters@.len(),
        forall|j: int| 0 <= j < adapters@.len() ==> (#[trigger] r@[j])@ == adapters@[j]@,
{
    let mut r: Vec<AdapterEvidence> = Vec::new();
    let mut i: usize = 0;
    while i < adapters.len()
        invariant
            i <= adapters@.len(),
            r@.len() == i,
            forall|j: int| 0 <= j < i ==> (#[trigger] r@[j])@ == adapters@[j]@,
        decreases adapters@.len() - i,
    {
        let ghost before = r@;
        r.push(copy_evidence(&adapters[i]));
        proof {
            assert forall|j: int| 0 <= j < i + 1 implies (#[trigger] r@[j])@ == adapters@[j]@ by {
                if j < i {
                    assert(r@[j] == before[j]);
                }
            }
        }
        i = i + 1;
    }
    r
}

/// The admission evidence of one candidate.
pub fn candidate_evidence(fields: &FieldMap, inspection: &CandidateInspection, replay_grade: ReplayGrade, adapter_confidence: &[AdapterEvidence]) -> (e: CandidateAdmissionEvidence)
    ensures
        evidence_of(e, fields@, *inspection, replay_grade, adapter_confidence@.map_values(|a: AdapterEvidence| a@)),
{
    let replay_related = match bool_field(fields, "replay_related") {
        Some(b) => b,
        None => false,
    };
    let snapshots: Vec<String> = match string_field(fields, "diagnostic_snapshot") {
        Some(v) => vec![v],
        None => Vec::new(),
    };
    let adapters = if replay_related {
        copy_adapters(adapter_confidence)
    } else {
        Vec::new()
    };
    proof {
        reveal_strlit("true");
        reveal_strlit("false");
        assert("true"@[0] != "false"@[0]);
        assert(texts(snapshots@) =~= match nonempty_field(fields@, "diagnostic_snapshot"@) {
            Some(v) => seq![v],
            None => Seq::<Seq<char>>::empty(),
        });
    }
    CandidateAdmissionEvidence {
        id: field_or(fields, "id", "unknown"),
        track: field_or(fields, "track", "unknown"),
        status: field_or(fields, "status", "research"),
        evidence: candidate_evidence_facts(fields, inspection),
        inspect_visibility: string_field(fields, "inspect"),
        manual_rust_equivalent: string_field(fields, "manual_rust"),
        strict_compatible: match bool_field(fields, "strict") {
            Some(b) => b,
            None => false,
        },
        whole_ecosystem_modeling_required: match bool_field(fields, "whole_ecosystem") {
            Some(b) => b,
            None => true,
        },
        diagnostic_snapshots: snapshots,
        replay_related: replay_related,
        replay_grade: if replay_related { Some(replay_grade) } else { None },
        adapter_confidence: adapters,
    }
}

/// The admission evidence of the candidates of a file, one per
/// `kobo::candidate_track` attribute, in order. `candidates` holds the
/// string fields of each such attribute, as a parse of the file finds them;
/// `inspection` what the file and its project configuration show.
pub fn candidate_admission_evidence(candidates: &[FieldMap], inspection: &CandidateInspection, replay_grade: ReplayGrade, adapter_confidence: &[AdapterEvidence]) -> (r: Vec<CandidateAdmissionEvidence>)
    ensures
        r@.len() == candidates@.len(),
        forall|i: int| 0 <= i < candidates@.len() ==> evidence_of(#[trigger] r@[i], candidates@[i]@, *inspection, replay_grade, adapter_confidence@.map_values(|a: AdapterEvidence| a@)),
{
    let mut r: Vec<CandidateAdmissionEvidence> = Vec::new();
    let mut i: usize = 0;
    while i < candidates.len()
        invariant
            i <= candidates@.len(),
            r@.len() == i,
            forall|j: int| 0 <= j < i ==> evidence_of(#[trigger] r@[j], candidates@[j]@, *inspection, replay_grade, adapter_confidence@.map_values(|a: AdapterEvidence| a@)),
        decreases candidates@.len() - i,
    {
        let ghost before = r@;
        r.push(candidate_evidence(&candidates[i], inspection, replay_grade, adapter_confidence));
        proof {
            assert forall|j: int| 0 <= j < i + 1 implies evidence_of(#[trigger] r@[j], candidates@[j]@, *inspection, replay_grade, adapter_confidence@.map_values(|a: AdapterEvidence| a@)) by {
                if j < i {
                    assert(r@[j] == before[j]);
                }
            }
        }
        i = i + 1;
    }
    r
}

/// The adapter parts of a proof's evidence: the replay grade that the
/// adapters leave, their evidence, and the admission evidence of the
/// candidates.
#[derive(Debug)]
pub struct AdapterEvidenceParts {
    pub replay_grade: ReplayGrade,
    pub confidence: Vec<AdapterEvidence>,
    pub candidate_admission: Vec<CandidateAdmissionEvidence>,
}

/// A record with its replay grade set to `grade`.
pub open spec fn regrade_one(a: AdapterEvidenceView, grade: ReplayGrade) -> AdapterEvidenceView {
    AdapterEvidenceView {
        boundary: a.boundary,
        adapter: a.adapter,
        version: a.version,
        confidence: a.confidence,
        replay_grade: grade,
        outcome: a.outcome,
        reason: a.reason,
    }
}

/// The records with their replay grade set to `grade`.
pub open spec fn regraded(records: Seq<AdapterEvidenceView>, grade: ReplayGrade) -> Seq<AdapterEvidenceView> {
    records.map_values(|a: AdapterEvidenceView| regrade_one(a, grade))
}

fn regrade_all(records: &Vec<AdapterEvidence>, grade: ReplayGrade) -> (r: Vec<AdapterEvidence>)
    ensures
        evidence_views(r@) == regraded(evidence_views(records@), grade),
{
    let mut r: Vec<AdapterEvidence> = Vec::new();
    let mut i: usize = 0;
    while i < records.len()
        invariant
            i <= records@.len(),
            r@.len() == i,
            forall|j: int| 0 <= j < i ==> (#[trigger] r@[j])@ == regrade_one(records@[j]@, grade),
        decreases records@.len() - i,
    {
        let mut record = copy_evidence(&records[i]);
        record.replay_grade = grade;
        let ghost before = r@;
        r.push(record);
        proof {
            assert forall|j: int| 0 <= j < i + 1 implies (#[trigger] r@[j])@ == regrade_one(records@[j]@, grade) by {
                if j < i {
                    assert(r@[j] == before[j]);
                }
            }
        }
        i = i + 1;
    }
    proof {
        assert(evidence_views(r@) =~= regraded(evidence_views(records@), grade));
    }
    r
}

/// The adapter parts of a proof's evidence: the evidence of the program's
/// external boundaries and of its recorded runtime boundaries, together
/// sorted with the first record of each key kept; the replay grade that the
/// requested one keeps given them, set on every record; and the admission
/// evidence of the candidates under that grade and those records.
pub fn build_adapter_evidence(program: &ScenarioProgram, adapter_policies: &[EcosystemAdapterPolicy], runtime_boundaries: &[RuntimeBoundaryEvidence], runtime_version: &str, replay_grade: ReplayGrade, candidates: &[FieldMap], inspection: &CandidateInspection) -> (parts: AdapterEvidenceParts)
    ensures
        exists|a: Seq<AdapterEvidenceView>, r: Seq<AdapterEvidenceView>, merged: Seq<AdapterEvidenceView>|
            sorted_first_of_each_key(a, boundary_entries(program.operations@, adapter_policies@, replay_grade))
            && sorted_first_of_each_key(r, recorded_entries(runtime_boundaries@, runtime_version@, replay_grade))
            && sorted_first_of_each_key(merged, a + r)
            && parts.replay_grade == adjusted_grade(replay_grade, merged)
            && evidence_views(parts.confidence@) == regraded(merged, parts.replay_grade),
        forall|i: int| 0 <= i < parts.confidence@.len() ==> (#[trigger] parts.confidence@[i])@.replay_grade == parts.replay_grade,
        parts.candidate_admission@.len() == candidates@.len(),
        forall|i: int| 0 <= i < candidates@.len() ==> evidence_of(#[trigger] parts.candidate_admission@[i], candidates@[i]@,
            *inspection, parts.replay_grade, evidence_views(parts.confidence@)),
{
    let mut confidence = adapter_evidence(program, adapter_policies, replay_grade);
    let ghost a = evidence_views(confidence@);
    let mut runtime = runtime_boundary_adapter_evidence(runtime_boundaries, replay_grade, runtime_version);
    let ghost r = evidence_views(runtime@);
    let ghost before = confidence@;
    let ghost added = runtime@;
    confidence.append(&mut runtime);
    proof {
        assert(evidence_views(confidence@) =~= a + r);
    }
    sort_adapter_evidence(&mut confidence);
    let ghost merged = evidence_views(confidence@);
    let grade = adapter_adjusted_replay_grade(replay_grade, confidence.as_slice());
    let regraded_confidence = regrade_all(&confidence, grade);
    let candidate_admission = candidate_admission_evidence(candidates, inspection, grade, regraded_confidence.as_slice());
    proof {
        assert forall|i: int| 0 <= i < regraded_confidence@.len() implies (#[trigger] regraded_confidence@[i])@.replay_grade == grade by {
            assert(evidence_views(regraded_confidence@).len() == regraded_confidence@.len());
            assert(evidence_views(regraded_confidence@)[i] == regraded_confidence@[i]@);
            assert(regraded(evidence_views(confidence@), grade)[i] == regrade_one(evidence_views(confidence@)[i], grade));
        }
    }
    AdapterEvidenceParts {
        replay_grade: grade,
        confidence: regraded_confidence,
        candidate_admission: candidate_admission,
    }
}

} // verus!
