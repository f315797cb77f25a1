use kobo_driver::boundaries::{AdapterConfidence, AdapterEvidence, ReplayGrade, RuntimeBoundaryEvidence};
use kobo_driver::candidates::build_adapter_evidence;
use kobo_driver::config::BoundaryPolicy;
use kobo_driver::scenario::{KoboSpan, ScenarioCoverage, ScenarioOpKind, ScenarioOperation, ScenarioProgram};
use kobo_driver::bounded::FieldMap;
use kobo_driver::candidates::{
    candidate_admission_evidence, candidate_evidence_facts, derived_candidate_facts, CandidateAdmissionFact,
    CandidateInspection,
};

fn fields(entries: &[(&str, &str)]) -> FieldMap {
    let mut map = FieldMap::new();
    for (key, value) in entries {
        map.insert(key.to_string(), value.to_string());
    }
    map
}

fn inspection() -> CandidateInspection {
    CandidateInspection {
        target_rust: None,
        uses_nightly_features: false,
        no_std: None,
        hidden_heap_sites: 0,
        memory_budget: None,
        cast_policy: None,
        cast_sites: 0,
        sugar_arguments: vec![],
        has_newtype_scaffold: false,
        hidden_impls: false,
        hidden_globals: false,
        context_binding: false,
        has_ward: false,
        has_invariant: false,
        temporal_queries: vec![],
        witness_minimization_arguments: vec![],
        model_checks: vec![],
        adapter_scope: None,
        adapter_treadmill: None,
    }
}

fn pairs(facts: &[CandidateAdmissionFact]) -> Vec<(String, String)> {
    facts.iter().map(|f| (f.key.clone(), f.value.clone())).collect()
}

fn pair(key: &str, value: &str) -> (String, String) {
    (key.to_string(), value.to_string())
}

fn adapter() -> AdapterEvidence {
    AdapterEvidence {
        boundary: "boundary-0-reqwest".to_string(),
        adapter: "reqwest".to_string(),
        version: Some("0.12".to_string()),
        confidence: AdapterConfidence::Modeled,
        replay_grade: ReplayGrade::Partial,
        outcome: "recorded".to_string(),
        reason: "network".to_string(),
    }
}

#[test]
fn target_rust_candidate_reports_nightly_use() {
    let mut ins = inspection();
    ins.target_rust = Some("1.80".to_string());
    ins.uses_nightly_features = true;
    let facts = derived_candidate_facts(&fields(&[("id", "S-32")]), &ins);
    assert_eq!(pairs(&facts), vec![pair("target_rust", "1.80"), pair("avoids_nightly", "false")]);
    ins.target_rust = None;
    assert!(derived_candidate_facts(&fields(&[("id", "S-32")]), &ins).is_empty());
}

#[test]
fn no_std_candidate_counts_hidden_heap_sites() {
    let mut ins = inspection();
    ins.no_std = Some(true);
    ins.hidden_heap_sites = 3;
    ins.memory_budget = Some("64k".to_string());
    let facts = derived_candidate_facts(&fields(&[("id", "S-49")]), &ins);
    assert_eq!(
        pairs(&facts),
        vec![
            pair("no_hidden_heap", "false"),
            pair("allocation_report", "structural"),
            pair("hidden_heap_sites", "3"),
            pair("memory_budget", "64k"),
        ]
    );
    ins.no_std = Some(false);
    assert!(derived_candidate_facts(&fields(&[("id", "S-49")]), &ins).is_empty());
}

#[test]
fn cast_candidate_depends_on_raw_casts() {
    let mut ins = inspection();
    ins.cast_policy = Some("explicit".to_string());
    ins.cast_sites = 2;
    let with_casts = derived_candidate_facts(&fields(&[("id", "S-37+")]), &ins);
    assert_eq!(
        pairs(&with_casts),
        vec![pair("cast_policy", "explicit"), pair("debt_casts", "source_spans"), pair("strict_casts", "raw-casts-present")]
    );
    ins.cast_sites = 0;
    let without = derived_candidate_facts(&fields(&[("id", "S-37+")]), &ins);
    assert_eq!(
        pairs(&without),
        vec![pair("cast_policy", "explicit"), pair("debt_casts", "none"), pair("strict_casts", "explicit")]
    );
}

#[test]
fn sugar_transforms_are_listed_in_their_fixed_order() {
    let mut ins = inspection();
    ins.sugar_arguments = vec!["event_enum".to_string(), "other".to_string(), "builder".to_string()];
    let facts = derived_candidate_facts(&fields(&[("id", "S-46")]), &ins);
    assert_eq!(pairs(&facts), vec![pair("transform_set", "builder|event_enum"), pair("desugaring", "inspectable")]);
    ins.sugar_arguments = vec!["other".to_string()];
    assert!(derived_candidate_facts(&fields(&[("id", "S-46")]), &ins).is_empty());
}

#[test]
fn context_and_temporal_candidates() {
    let mut ins = inspection();
    ins.hidden_globals = true;
    let facts = derived_candidate_facts(&fields(&[("id", "S-48")]), &ins);
    assert_eq!(pairs(&facts), vec![pair("context_threading", "explicit"), pair("hidden_globals", "true")]);
    ins.has_ward = true;
    ins.has_invariant = true;
    ins.temporal_queries = vec!["always".to_string(), "beyond_always_eventually_never".to_string()];
    let facts = derived_candidate_facts(&fields(&[("id", "research-smt-temporal")]), &ins);
    assert_eq!(
        pairs(&facts),
        vec![
            pair("stable_semantics", "ward|invariant"),
            pair("temporal_extension", "beyond_always_eventually_never"),
        ]
    );
}

#[test]
fn model_checking_candidate_keeps_known_backends() {
    let mut ins = inspection();
    ins.witness_minimization_arguments = vec!["labeled_trace".to_string()];
    ins.model_checks = vec![
        (Some("z3_smt".to_string()), None),
        (Some("other".to_string()), Some("ledger".to_string())),
        (Some("kobo_core_loop".to_string()), Some("none".to_string())),
    ];
    let facts = derived_candidate_facts(&fields(&[("id", "research-model-checking")]), &ins);
    assert_eq!(
        pairs(&facts),
        vec![
            pair("minimization_proof", "labeled_trace"),
            pair("backend_user_theory", "z3_smt"),
            pair("backend_assumptions", "ledger"),
            pair("backend_user_theory", "kobo_core_loop"),
        ]
    );
    let sorted = candidate_evidence_facts(&fields(&[("id", "research-model-checking")]), &ins);
    assert_eq!(
        pairs(&sorted),
        vec![
            pair("backend_assumptions", "ledger"),
            pair("backend_user_theory", "z3_smt"),
            pair("minimization_proof", "labeled_trace"),
        ]
    );
}

#[test]
fn unknown_candidates_derive_nothing() {
    let ins = inspection();
    assert!(derived_candidate_facts(&fields(&[("id", "S-99")]), &ins).is_empty());
    assert!(derived_candidate_facts(&fields(&[]), &ins).is_empty());
}

#[test]
fn evidence_facts_skip_reserved_and_derived_fields_and_sort() {
    let mut ins = inspection();
    ins.has_newtype_scaffold = true;
    let facts = candidate_evidence_facts(
        &fields(&[
            ("id", "S-47"),
            ("zeta", "1"),
            ("alpha", "2"),
            ("coherence", "from-field"),
            ("strict", "true"),
            ("alpha", "3"),
        ]),
        &ins,
    );
    assert_eq!(
        pairs(&facts),
        vec![
            pair("alpha", "3"),
            pair("coherence", "newtype_forwarding"),
            pair("hidden_impls", "false"),
            pair("zeta", "1"),
        ]
    );
}

#[test]
fn admission_evidence_fills_defaults_and_replay_fields() {
    let mut ins = inspection();
    ins.adapter_scope = Some("http".to_string());
    let candidates = vec![
        fields(&[
            ("id", "research-broad-adapters"),
            ("track", "adapters"),
            ("status", ""),
            ("inspect", "public"),
            ("strict", "true"),
            ("whole_ecosystem", "false"),
            ("diagnostic_snapshot", "snap.txt"),
            ("replay_related", "true"),
            ("owner", "team-a"),
        ]),
        fields(&[("strict", "yes"), ("replay_related", "false")]),
    ];
    let evidence = candidate_admission_evidence(&candidates, &ins, ReplayGrade::Partial, &[adapter()]);
    assert_eq!(evidence.len(), 2);

    let first = &evidence[0];
    assert_eq!(first.id, "research-broad-adapters");
    assert_eq!(first.track, "adapters");
    assert_eq!(first.status, "research");
    assert_eq!(pairs(&first.evidence), vec![pair("adapter_scope", "http"), pair("owner", "team-a")]);
    assert_eq!(first.inspect_visibility.as_deref(), Some("public"));
    assert_eq!(first.manual_rust_equivalent, None);
    assert!(first.strict_compatible);
    assert!(!first.whole_ecosystem_modeling_required);
    assert_eq!(first.diagnostic_snapshots, vec!["snap.txt".to_string()]);
    assert!(first.replay_related);
    assert_eq!(first.replay_grade, Some(ReplayGrade::Partial));
    assert_eq!(first.adapter_confidence.len(), 1);
    assert_eq!(first.adapter_confidence[0].adapter, "reqwest");

    let second = &evidence[1];
    assert_eq!(second.id, "unknown");
    assert_eq!(second.track, "unknown");
    assert_eq!(second.status, "research");
    assert!(second.evidence.is_empty());
    assert!(!second.strict_compatible);
    assert!(second.whole_ecosystem_modeling_required);
    assert!(second.diagnostic_snapshots.is_empty());
    assert!(!second.replay_related);
    assert_eq!(second.replay_grade, None);
    assert!(second.adapter_confidence.is_empty());
}

fn policy(crate_name: &str, package: &str) -> kobo_driver::config::EcosystemAdapterPolicy {
    kobo_driver::config::EcosystemAdapterPolicy {
        crate_name: crate_name.to_string(),
        package: package.to_string(),
        version: Some("1.0.0".to_string()),
        source: None,
        registry: None,
        checksum: None,
        compatible_crate: None,
        metadata_path: None,
        trust_policy: None,
        signed_by: None,
        validated: true,
        confidence: None,
        adapter_runtime: Some("replay-runtime".to_string()),
        capture: None,
        reason: None,
    }
}

#[test]
fn adapter_parts_merge_sort_and_regrade_the_records() {
    let boundary = |name: &str, policy: BoundaryPolicy| ScenarioOperation {
        kind: ScenarioOpKind::ExternalBoundary { crate_name: name.to_string(), call_path: None, policy, reason: None },
        span: KoboSpan { file_id: 0, start: 0, end: 0 },
    };
    let program = ScenarioProgram {
        target: "main".to_string(),
        operations: vec![boundary("tokio", BoundaryPolicy::Record), boundary("reqwest", BoundaryPolicy::Model)],
        coverage: ScenarioCoverage { unsupported_constructs: vec![], opaque_boundaries: vec![] },
    };
    let runtime = vec![
        RuntimeBoundaryEvidence { boundary: "tokio".to_string(), policy: BoundaryPolicy::Record, has_recorded_io: true },
        RuntimeBoundaryEvidence { boundary: "serde".to_string(), policy: BoundaryPolicy::Model, has_recorded_io: true },
    ];
    let candidates = vec![fields(&[("id", "c1"), ("replay_related", "true")])];
    let parts = build_adapter_evidence(
        &program,
        &[policy("reqwest", "http-replay")],
        &runtime,
        "0.3.1",
        ReplayGrade::Exact,
        &candidates,
        &inspection(),
    );
    assert_eq!(parts.replay_grade, ReplayGrade::Partial);
    let records: Vec<(&str, &str, ReplayGrade)> =
        parts.confidence.iter().map(|a| (a.boundary.as_str(), a.adapter.as_str(), a.replay_grade)).collect();
    assert_eq!(
        records,
        vec![
            ("reqwest", "http-replay", ReplayGrade::Partial),
            ("tokio", "recorded-boundary-capture", ReplayGrade::Partial),
        ]
    );
    assert_eq!(parts.confidence[1].version.as_deref(), Some("0.3.1"));
    assert_eq!(parts.candidate_admission.len(), 1);
    assert_eq!(parts.candidate_admission[0].replay_grade, Some(ReplayGrade::Partial));
    assert_eq!(parts.candidate_admission[0].adapter_confidence.len(), 2);
}
