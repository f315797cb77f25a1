use kobo_driver::boundaries::{boundary_assumptions, boundary_evidence, opaque_cfg_edge_id_for_span};
use kobo_driver::bounded::{bounded_wording, derived_complete_history_count, effective_bounded_completeness, BoundedCompleteness};
use kobo_driver::config::{BoundaryPolicy, EcosystemCratePolicy, EcosystemPolicyConfig};
use kobo_driver::core_cfg::CoreCfgEdge;
use kobo_driver::evidence::{ObligationEvent, TraceEventKind};
use kobo_driver::obligations::ObligationEventKind;
use kobo_driver::replay_risk::{is_replay_risk_zone, nondeterminism_findings, nondeterminism_patterns};
use kobo_driver::scenario::{
    apply_ecosystem_policy, scenario_programs_with_ecosystem_policy, KoboSpan, LifecycleTemplateSource,
    ScenarioCoreTerminatorKind, ScenarioCoverage, ScenarioLifecycleTemplate, ScenarioOpKind, ScenarioOperation,
    ScenarioProgram,
};
use kobo_driver::source_spans::SourceSpan;
use kobo_driver::traces::{
    core_trace_evidence, source_map_anchor_span_from_kobo_span, trace_event_kind_from_operation, trace_hashes,
};

fn span(start: u32, end: u32) -> KoboSpan {
    KoboSpan { file_id: 0, start, end }
}

fn program(operations: Vec<ScenarioOperation>) -> ScenarioProgram {
    ScenarioProgram {
        target: "f".to_string(),
        operations,
        coverage: ScenarioCoverage { unsupported_constructs: vec![], opaque_boundaries: vec!["x".to_string()] },
    }
}

fn boundary(crate_name: &str, policy: BoundaryPolicy, reason: Option<&str>, start: u32) -> ScenarioOperation {
    ScenarioOperation {
        kind: ScenarioOpKind::ExternalBoundary {
            crate_name: crate_name.to_string(),
            call_path: None,
            policy,
            reason: reason.map(str::to_string),
        },
        span: span(start, start + 2),
    }
}

fn boundary_of(op: &ScenarioOperation) -> (String, BoundaryPolicy, Option<String>) {
    match &op.kind {
        ScenarioOpKind::ExternalBoundary { crate_name, policy, reason, .. } => (crate_name.clone(), *policy, reason.clone()),
        _ => panic!("not a boundary"),
    }
}

fn config(default_is_configured: bool) -> EcosystemPolicyConfig {
    let mut config = EcosystemPolicyConfig::default();
    config.default_is_configured = default_is_configured;
    config.crates.push(EcosystemCratePolicy {
        name: "reqwest".to_string(),
        policy: BoundaryPolicy::Record,
        reason: Some("network".to_string()),
        retry: None,
    });
    config.crates.push(EcosystemCratePolicy {
        name: "reqwest".to_string(),
        policy: BoundaryPolicy::Stub,
        reason: None,
        retry: None,
    });
    config
}

#[test]
fn ecosystem_policy_fills_unselected_boundaries() {
    let mut p = program(vec![
        boundary("reqwest", BoundaryPolicy::Unselected, None, 0),
        boundary("reqwest", BoundaryPolicy::Unselected, Some("own"), 2),
        boundary("serde", BoundaryPolicy::Unselected, Some("r"), 4),
        boundary("tokio", BoundaryPolicy::Model, None, 6),
        ScenarioOperation { kind: ScenarioOpKind::Return, span: span(8, 9) },
    ]);
    apply_ecosystem_policy(&mut p, &config(true));
    assert_eq!(p.operations.len(), 5);
    assert_eq!(boundary_of(&p.operations[0]), ("reqwest".to_string(), BoundaryPolicy::Record, Some("network".to_string())));
    assert_eq!(boundary_of(&p.operations[1]), ("reqwest".to_string(), BoundaryPolicy::Record, Some("own".to_string())));
    assert_eq!(boundary_of(&p.operations[2]), ("serde".to_string(), BoundaryPolicy::Opaque, Some("r".to_string())));
    assert_eq!(boundary_of(&p.operations[3]), ("tokio".to_string(), BoundaryPolicy::Model, None));
    assert_eq!(p.operations[2].span, span(4, 6));
    assert!(matches!(p.operations[4].kind, ScenarioOpKind::Return));
    assert_eq!(p.coverage.opaque_boundaries, vec!["x".to_string()]);
}

#[test]
fn without_a_configured_default_unknown_crates_stay_unselected() {
    let programs = vec![program(vec![boundary("serde", BoundaryPolicy::Unselected, None, 0)])];
    let out = scenario_programs_with_ecosystem_policy(programs, &config(false));
    assert_eq!(out.len(), 1);
    assert_eq!(boundary_of(&out[0].operations[0]), ("serde".to_string(), BoundaryPolicy::Unselected, None));
}

#[test]
fn boundary_assumptions_and_opaque_ledger() {
    let source = "use a;\nuse b;";
    let p = program(vec![
        boundary("alpha", BoundaryPolicy::Opaque, Some("why"), 0),
        ScenarioOperation { kind: ScenarioOpKind::Return, span: span(0, 1) },
        boundary("beta", BoundaryPolicy::Record, None, 7),
        boundary("gamma", BoundaryPolicy::Opaque, None, 7),
    ]);
    let assumptions = boundary_assumptions("a.kobo", source, &p);
    assert_eq!(assumptions.len(), 3);
    assert_eq!(assumptions[0].id, "boundary-0-alpha");
    assert_eq!(assumptions[0].reason.as_deref(), Some("why"));
    assert_eq!(assumptions[1].id, "boundary-2-beta");
    assert_eq!(assumptions[2].id, "boundary-3-gamma");
    assert_eq!(assumptions[2].source_span.line, 2);
    assert_eq!((assumptions[2].source_span.start, assumptions[2].source_span.end), (7, 9));
    let edge_span = SourceSpan {
        path: assumptions[0].source_span.path.clone(),
        line: assumptions[0].source_span.line,
        start: assumptions[0].source_span.start,
        end: assumptions[0].source_span.end,
        mapped: assumptions[0].source_span.mapped,
        snippet: assumptions[0].source_span.snippet.clone(),
    };
    let edges = vec![
        CoreCfgEdge {
            id: "f:bb0:t0:0".to_string(),
            function: "f".to_string(),
            from: "bb0".to_string(),
            to: "bb1".to_string(),
            kind: "opaque_boundary".to_string(),
            loop_id: None,
            loop_label: None,
            loop_edge_kind: None,
            loop_entry_block: None,
            source_span: SourceSpan { path: edge_span.path.clone(), line: 1, start: 0, end: 2, mapped: true, snippet: edge_span.snippet.clone() },
        },
        CoreCfgEdge {
            id: "f:bb0:t0:1".to_string(),
            function: "f".to_string(),
            from: "bb0".to_string(),
            to: "opaque_boundary".to_string(),
            kind: "opaque_boundary".to_string(),
            loop_id: None,
            loop_label: None,
            loop_edge_kind: None,
            loop_entry_block: None,
            source_span: edge_span,
        },
    ];
    assert_eq!(opaque_cfg_edge_id_for_span(&edges, &assumptions[0].source_span).as_deref(), Some("f:bb0:t0:1"));
    assert_eq!(opaque_cfg_edge_id_for_span(&edges, &assumptions[2].source_span), None);
    let hashes = vec!["h0".to_string(), "h1".to_string(), "h2".to_string()];
    let (hash_evidence, kept, ledger) = boundary_evidence(assumptions, &hashes, &edges);
    assert_eq!(kept.len(), 3);
    assert_eq!(hash_evidence.len(), 3);
    assert_eq!((hash_evidence[1].id.as_str(), hash_evidence[1].hash.as_str()), ("boundary-2-beta", "h1"));
    assert_eq!(ledger.len(), 2);
    assert_eq!((ledger[0].edge_id.as_str(), ledger[0].boundary.as_str(), ledger[0].evidence_hash.as_str()), ("f:bb0:t0:1", "alpha", "h0"));
    assert_eq!((ledger[1].edge_id.as_str(), ledger[1].boundary.as_str(), ledger[1].evidence_hash.as_str()), ("boundary-3-gamma", "gamma", "h2"));
}

fn event(id: &str, kind: ObligationEventKind, binding: Option<&str>) -> ObligationEvent {
    ObligationEvent {
        id: id.to_string(),
        kind,
        binding: binding.map(str::to_string),
        action: None,
        loop_regions: vec![],
        source_span: SourceSpan { path: "a.kobo".to_string(), line: 9, start: 40, end: 41, mapped: true, snippet: "s".to_string() },
        state_before: vec![],
        state_after: vec![],
    }
}

fn traced_program() -> ScenarioProgram {
    let template = ScenarioLifecycleTemplate {
        id: "file_socket".to_string(),
        kind: "resource".to_string(),
        template_schema: "schema".to_string(),
        schema_version: 2,
        confidence: "exact".to_string(),
        source: LifecycleTemplateSource::Declaration,
        lifecycle_owner: "io_resource".to_string(),
        cancel_policy: None,
        registry_source: None,
    };
    program(vec![
        ScenarioOperation {
            kind: ScenarioOpKind::CreateObligation { binding: "a".to_string(), obligation_type: "Conn".to_string(), actions: vec!["close".to_string()], template: Some(template) },
            span: span(0, 1),
        },
        ScenarioOperation { kind: ScenarioOpKind::Return, span: span(2, 3) },
        ScenarioOperation { kind: ScenarioOpKind::CoreTerminator { kind: ScenarioCoreTerminatorKind::Await, boundary: None }, span: span(4, 5) },
    ])
}

#[test]
fn core_trace_follows_events_and_terminators() {
    let p = traced_program();
    let events = vec![event("stmt-0", ObligationEventKind::Create, Some("a")), event("stmt-9", ObligationEventKind::Call, None)];
    let trace = core_trace_evidence(&p, &events, "a.kobo", "ab\ncd\nef");
    assert_eq!(trace.len(), 3);
    assert_eq!(trace[0].id, "core-f-stmt-0");
    assert_eq!(trace[0].kind, TraceEventKind::Create);
    assert_eq!(trace[0].binding.as_deref(), Some("a"));
    assert_eq!(trace[0].order, 0);
    assert_eq!(trace[0].source_span.start, 40);
    assert_eq!(trace[0].template_id.as_deref(), Some("file_socket"));
    assert_eq!(trace[0].template_version.as_deref(), Some("2"));
    assert_eq!(trace[1].id, "core-f-term-1");
    assert_eq!(trace[1].kind, TraceEventKind::Return);
    assert_eq!(trace[1].source_span.start, 2);
    assert_eq!(trace[1].source_span.line, 1);
    assert!(trace[1].template_id.is_none());
    assert_eq!(trace[2].id, "core-f-term-2");
    assert_eq!(trace[2].kind, TraceEventKind::Cancel);
    assert_eq!(trace[2].order, 2);
    assert_eq!(trace[2].source_span.line, 2);
}

#[test]
fn core_trace_skips_returns_without_traceable_events() {
    let p = traced_program();
    let events = vec![event("stmt-0", ObligationEventKind::Call, Some("a"))];
    let trace = core_trace_evidence(&p, &events, "a.kobo", "ab\ncd\nef");
    assert_eq!(trace.len(), 1);
    assert_eq!(trace[0].id, "core-f-term-2");
    assert_eq!(trace[0].kind, TraceEventKind::Cancel);
}

#[test]
fn trace_kinds_of_operations() {
    assert_eq!(trace_event_kind_from_operation(&ScenarioOpKind::Return), Some(TraceEventKind::Return));
    assert_eq!(
        trace_event_kind_from_operation(&ScenarioOpKind::CoreTerminator { kind: ScenarioCoreTerminatorKind::Panic, boundary: None }),
        Some(TraceEventKind::Panic)
    );
    assert_eq!(
        trace_event_kind_from_operation(&ScenarioOpKind::CoreTerminator { kind: ScenarioCoreTerminatorKind::OpaqueBoundary, boundary: None }),
        Some(TraceEventKind::OpaqueBoundary)
    );
    assert_eq!(trace_event_kind_from_operation(&ScenarioOpKind::Other), None);
}

#[test]
fn anchor_spans_are_at_least_one_byte() {
    let s = source_map_anchor_span_from_kobo_span("a.kobo", "ab\ncd", &span(3, 3));
    assert_eq!((s.start, s.end, s.mapped, s.line), (3, 4, true, 2));
    assert_eq!(s.snippet, "cd");
    let s = source_map_anchor_span_from_kobo_span("a.kobo", "ab\ncd", &span(1, 9));
    assert_eq!((s.start, s.end, s.line), (1, 9, 1));
    let hashes = trace_hashes("x".to_string(), "y".to_string());
    assert_eq!((hashes[0].id.as_str(), hashes[0].hash.as_str()), ("core_obligation_trace", "x"));
    assert_eq!((hashes[1].id.as_str(), hashes[1].hash.as_str()), ("generated_rust_trace", "y"));
}

#[test]
fn complete_history_counts_and_wording() {
    let s = vec!["a".to_string(), "b".to_string()];
    let f = vec!["x".to_string()];
    let c = vec!["p".to_string(), "q".to_string(), "r".to_string()];
    assert_eq!(derived_complete_history_count(&s, &f, &c), Some(6));
    assert_eq!(derived_complete_history_count(&s, &[], &c), None);
    assert_eq!(effective_bounded_completeness(BoundedCompleteness::Complete, true, 6, Some(6), &s, &f, &c), BoundedCompleteness::Complete);
    assert_eq!(effective_bounded_completeness(BoundedCompleteness::Complete, true, 5, Some(6), &s, &f, &c), BoundedCompleteness::Incomplete);
    assert_eq!(effective_bounded_completeness(BoundedCompleteness::Complete, true, 6, Some(6), &s, &f, &[]), BoundedCompleteness::Incomplete);
    assert_eq!(effective_bounded_completeness(BoundedCompleteness::Sampled, true, 6, Some(6), &s, &f, &c), BoundedCompleteness::Sampled);
    assert_eq!(effective_bounded_completeness(BoundedCompleteness::Complete, false, 6, Some(6), &s, &f, &c), BoundedCompleteness::Incomplete);
    assert_eq!(
        bounded_wording(&BoundedCompleteness::Complete, 6, Some(6)),
        "bounded proof: all 6 histories explored under declared bounds"
    );
    assert_eq!(
        bounded_wording(&BoundedCompleteness::Complete, 6, None),
        "evidence only: 6 sampled histories, state space incomplete"
    );
    assert_eq!(
        bounded_wording(&BoundedCompleteness::Sampled, 12, Some(12)),
        "evidence only: 12 sampled histories, state space incomplete"
    );
}

#[test]
fn replay_risk_zones_and_nondeterminism() {
    assert!(is_replay_risk_zone("use kobo::scenario;"));
    assert!(is_replay_risk_zone("fn replay_all() {}"));
    assert!(is_replay_risk_zone("ward w {}"));
    assert!(!is_replay_risk_zone("fn main() {}"));
    let patterns = nondeterminism_patterns();
    assert_eq!(patterns.len(), 11);
    assert_eq!((patterns[0].class_name.as_str(), patterns[0].operation.as_str()), ("time", "SystemTime::now"));
    assert_eq!((patterns[10].class_name.as_str(), patterns[10].operation.as_str()), ("network", "reqwest::"));
    let source = "ward é Instant::now(); Instant::now(); std::fs::read(p);";
    let findings = nondeterminism_findings(source);
    assert_eq!(findings.len(), 2);
    assert_eq!(findings[0].operation, "Instant::now");
    assert_eq!(findings[0].class_name, "time");
    assert_eq!(findings[0].occurrences, 2);
    assert_eq!(findings[0].offset, 8);
    assert_eq!(findings[1].operation, "std::fs::");
    assert_eq!(findings[1].occurrences, 1);
    assert!(nondeterminism_findings("Instant::now()").is_empty());
    assert_eq!(nondeterminism_findings("replay: aaaa").len(), 0);
}
