use std::collections::BTreeSet;

use kobo_driver::config::BoundaryPolicy;
use kobo_driver::evidence::TraceEventKind;
use kobo_driver::proof_events::{
    add_proof_event_source_entries, build_lowering_trace, core_event_id_for_operation, GeneratedProofEventAnchor,
    GeneratedProofEventRole,
};
use kobo_driver::scenario::{
    KoboSpan, LifecycleTemplateSource, ScenarioCoreTerminatorKind, ScenarioCoverage, ScenarioLifecycleTemplate,
    ScenarioOpKind, ScenarioOperation, ScenarioProgram,
};
use kobo_driver::sourcemap::{wrap_source_map, RsSpan, SourceMapEntry};

fn kspan(start: u32, end: u32) -> KoboSpan {
    KoboSpan { file_id: 1, start, end }
}

fn program(target: &str, operations: Vec<ScenarioOperation>) -> ScenarioProgram {
    ScenarioProgram {
        target: target.to_string(),
        operations,
        coverage: ScenarioCoverage { unsupported_constructs: vec![], opaque_boundaries: vec![] },
    }
}

fn inferred(id: &str) -> ScenarioLifecycleTemplate {
    ScenarioLifecycleTemplate {
        id: id.to_string(),
        kind: id.to_string(),
        template_schema: "schema".to_string(),
        schema_version: 1,
        confidence: "inferred".to_string(),
        source: LifecycleTemplateSource::Inference,
        lifecycle_owner: "queue_delivery".to_string(),
        cancel_policy: None,
        registry_source: None,
    }
}

fn terminator(span: KoboSpan, kind: ScenarioCoreTerminatorKind) -> ScenarioOperation {
    ScenarioOperation { span, kind: ScenarioOpKind::CoreTerminator { kind, boundary: None } }
}

fn discharge(span: KoboSpan, binding: &str, action: &str) -> ScenarioOperation {
    ScenarioOperation {
        span,
        kind: ScenarioOpKind::Discharge { binding: binding.to_string(), action: action.to_string() },
    }
}

fn map_entry(id: &str, core: Option<&str>, tier: &str, kobo: KoboSpan, line: usize) -> SourceMapEntry {
    SourceMapEntry {
        id: id.to_string(),
        core_event_id: core.map(|c| c.to_string()),
        binding_name: "delivery".to_string(),
        rs_span: RsSpan { line, column_start: 1, column_end: 8 },
        kobo_span: kobo,
        ownership_tier: tier.to_string(),
        solver_outcome: None,
        decision_source: None,
        solver_node_id: None,
    }
}

fn proof_entries(target: &str, operations: &[ScenarioOperation], span: KoboSpan, binding: &str) -> Vec<SourceMapEntry> {
    operations
        .iter()
        .enumerate()
        .map(|(order, operation)| {
            let mut e = map_entry(
                &format!("proof-map-{target}-{order}"),
                Some(core_event_id_for_operation(target, order, &operation.kind).as_str()),
                "proof-event",
                span,
                order + 1,
            );
            e.binding_name = binding.to_string();
            e
        })
        .collect()
}

fn trace_kind_operations(span: KoboSpan) -> Vec<ScenarioOperation> {
    vec![
        ScenarioOperation {
            span,
            kind: ScenarioOpKind::CreateObligation {
                binding: "delivery".to_string(),
                obligation_type: "Delivery".to_string(),
                actions: vec!["ack".to_string()],
                template: Some(inferred("queue_delivery")),
            },
        },
        ScenarioOperation { span, kind: ScenarioOpKind::MoveBinding { binding: "delivery".to_string() } },
        ScenarioOperation {
            span,
            kind: ScenarioOpKind::Transfer { binding: "delivery".to_string(), callee: "handoff".to_string() },
        },
        discharge(span, "delivery", "ack"),
        ScenarioOperation {
            span,
            kind: ScenarioOpKind::ExternalBoundary {
                crate_name: "boundary".to_string(),
                call_path: Some("boundary::call".to_string()),
                policy: BoundaryPolicy::Opaque,
                reason: None,
            },
        },
        terminator(span, ScenarioCoreTerminatorKind::Return),
        terminator(span, ScenarioCoreTerminatorKind::ErrorExit),
        terminator(span, ScenarioCoreTerminatorKind::Panic),
        terminator(span, ScenarioCoreTerminatorKind::Await),
        terminator(span, ScenarioCoreTerminatorKind::OpaqueBoundary),
    ]
}

fn check_lowering_trace_schema_covers_translation_event_kinds() {
    let span = kspan(10, 20);
    let operations = trace_kind_operations(span);
    let entries = proof_entries("trace_case", &operations, span, "delivery");
    let source_map = wrap_source_map("src/main.kobo", "src/main.rs", entries);
    let p = program("trace_case", operations);
    let kinds = build_lowering_trace(&[p], &source_map)
        .into_iter()
        .map(|event| event.kind)
        .collect::<BTreeSet<_>>();
    for kind in [
        "create",
        "move",
        "transfer",
        "discharge",
        "return",
        "escape",
        "panic",
        "error_exit",
        "cancel",
        "opaque_boundary",
    ] {
        assert!(kinds.contains(kind), "missing lowering trace kind {kind}: {kinds:?}");
    }
}

fn check_lowering_trace_does_not_invent_anchor_from_same_binding() {
    let mapped_span = kspan(10, 20);
    let unmapped_span = kspan(40, 50);
    let source_map = wrap_source_map(
        "src/main.kobo",
        "src/main.rs",
        vec![map_entry("map-0", None, "plain", mapped_span, 1)],
    );
    let p = program("trace_case", vec![discharge(unmapped_span, "delivery", "ack")]);
    let trace = build_lowering_trace(&[p], &source_map);
    assert!(trace.is_empty(), "unmapped proof events must not reuse a same-binding anchor: {trace:?}");
}

fn check_map_entry_without_core_event_id_does_not_anchor_generated_trace() {
    let span = kspan(10, 20);
    let source_map = wrap_source_map("src/main.kobo", "src/main.rs", vec![map_entry("map-0", None, "plain", span, 1)]);
    let p = program("trace_case", vec![discharge(span, "delivery", "ack")]);
    let trace = build_lowering_trace(&[p], &source_map);
    assert!(
        trace.is_empty(),
        "generated proof trace must require an anchor with matching core_event_id: {trace:?}"
    );
}

fn check_lowering_trace_core_event_ids_are_function_scoped() {
    let first_span = kspan(10, 20);
    let second_span = kspan(40, 50);
    let source_map = wrap_source_map(
        "src/main.kobo",
        "src/main.rs",
        vec![
            map_entry("proof-map-first-0", Some("core-first-stmt-0"), "proof-event", first_span, 1),
            map_entry("proof-map-second-0", Some("core-second-stmt-0"), "proof-event", second_span, 2),
        ],
    );
    let first = program("first", vec![discharge(first_span, "delivery", "ack")]);
    let second = program("second", vec![discharge(second_span, "delivery", "ack")]);
    let trace = build_lowering_trace(&[first, second], &source_map);
    let core_event_ids = trace.iter().map(|event| event.core_event_id.as_str()).collect::<BTreeSet<_>>();
    assert_eq!(trace.len(), 2, "both functions need distinct anchors: {trace:?}");
    assert!(core_event_ids.contains("core-first-stmt-0"), "first function event id must be function-scoped: {trace:?}");
    assert!(core_event_ids.contains("core-second-stmt-0"), "second function event id must be function-scoped: {trace:?}");
}

fn check_source_map_without_event_site_anchor_omits_generated_trace_event() {
    let mapped_span = kspan(10, 20);
    let event_span = kspan(40, 50);
    let entries = vec![map_entry("map-0", None, "plain", mapped_span, 1)];
    let p = program("trace_case", vec![discharge(event_span, "delivery", "ack")]);
    assert!(
        entries.iter().all(|entry| !entry.id.starts_with("trace-map-")),
        "unmapped proof events must not synthesize copied trace-map anchors: {entries:?}"
    );
    let source_map = wrap_source_map("src/main.kobo", "src/main.rs", entries);
    let trace = build_lowering_trace(&[p], &source_map);
    assert!(trace.is_empty(), "unmapped proof events must not produce generated trace events: {trace:?}");
}

#[test]
fn synthetic_return_is_omitted_when_no_obligation_trace_exists() {
    let span = kspan(10, 20);
    let operations = vec![
        terminator(span, ScenarioCoreTerminatorKind::ErrorExit),
        ScenarioOperation { span, kind: ScenarioOpKind::Return },
    ];
    let entries = proof_entries("trace_case", &operations, span, "proof");
    let source_map = wrap_source_map("src/main.kobo", "src/main.rs", entries);
    let p = program("trace_case", operations);
    let trace = build_lowering_trace(&[p], &source_map);
    assert_eq!(
        trace.iter().map(|event| event.kind.as_str()).collect::<Vec<_>>(),
        vec!["error_exit"],
        "synthetic function-end return should not create an unmatched lowering trace event: {trace:?}"
    );
}

#[test]
fn lowering_trace_event_records_its_anchor_and_template() {
    let span = kspan(10, 20);
    let operations = trace_kind_operations(span);
    let entries = proof_entries("trace_case", &operations, span, "delivery");
    let source_map = wrap_source_map("src/main.kobo", "src/main.rs", entries);
    let p = program("trace_case", operations);
    let trace = build_lowering_trace(&[p], &source_map);
    assert_eq!(trace.len(), 10);
    let create = &trace[0];
    assert_eq!(create.id, "lowering-trace_case-0");
    assert_eq!(create.core_event_id, "core-trace_case-stmt-0");
    assert_eq!(create.function, "trace_case");
    assert_eq!(create.kind, "create");
    assert_eq!(create.binding.as_deref(), Some("delivery"));
    assert_eq!(create.order, 0);
    assert_eq!(create.source_map_entry_id, "proof-map-trace_case-0");
    assert_eq!(create.rs_span, RsSpan { line: 1, column_start: 1, column_end: 8 });
    assert_eq!(create.kobo_span, span);
    assert_eq!(create.lowering_phase, "kobo-codegen");
    assert_eq!(create.template_id.as_deref(), Some("queue_delivery"));
    assert_eq!(create.template_version.as_deref(), Some("0.1"));
    let discharge_event = &trace[3];
    assert_eq!(discharge_event.template_id.as_deref(), Some("queue_delivery"));
    let escape = &trace[4];
    assert_eq!(escape.kind, "escape");
    assert_eq!(escape.binding, None);
    assert_eq!(escape.template_id, None);
    let last = &trace[9];
    assert_eq!(last.core_event_id, "core-trace_case-term-9");
    assert_eq!(last.rs_span.line, 10);
}

#[test]
fn wrapped_map_starts_without_a_lowering_trace() {
    let map = wrap_source_map("src/main.kobo", "src/main.rs", vec![]);
    assert!(map.lowering_trace.is_empty());
    assert!(map.solver_evidence.is_none());
}

fn anchor(function: &str, kind: TraceEventKind, binding: Option<&str>, detail: Option<&str>, role: GeneratedProofEventRole, line: usize) -> GeneratedProofEventAnchor {
    GeneratedProofEventAnchor {
        function: function.to_string(),
        kind,
        binding: binding.map(|b| b.to_string()),
        detail: detail.map(|d| d.to_string()),
        role,
        rs_span: RsSpan { line, column_start: 4, column_end: 9 },
    }
}

#[test]
fn proof_entries_are_appended_at_the_first_fitting_anchor() {
    let mut entries = vec![map_entry("map-0", None, "plain", kspan(1, 2), 1)];
    let anchors = vec![
        anchor("case", TraceEventKind::Discharge, Some("delivery"), Some("inspect"), GeneratedProofEventRole::Discharge, 2),
        anchor("case", TraceEventKind::Discharge, Some("delivery"), Some("ack"), GeneratedProofEventRole::Discharge, 3),
        anchor("case", TraceEventKind::Discharge, Some("delivery"), Some("ack"), GeneratedProofEventRole::Discharge, 4),
    ];
    let p = program("case", vec![discharge(kspan(20, 34), "delivery", "ack"), discharge(kspan(40, 54), "delivery", "ack")]);
    add_proof_event_source_entries(&mut entries, &anchors, &[p]);
    assert_eq!(entries.len(), 3);
    assert_eq!(entries[0].id, "map-0");
    assert_eq!(entries[1].id, "proof-map-case-0");
    assert_eq!(entries[1].core_event_id.as_deref(), Some("core-case-stmt-0"));
    assert_eq!(entries[1].ownership_tier, "proof-event");
    assert_eq!(entries[1].rs_span.line, 3);
    assert_eq!(entries[1].kobo_span, kspan(20, 34));
    assert_eq!(entries[2].id, "proof-map-case-1");
    assert_eq!(entries[2].rs_span.line, 4);
}

#[test]
fn existing_proof_entries_are_not_duplicated() {
    let p = program("case", vec![discharge(kspan(20, 34), "delivery", "ack")]);
    let mut entries = vec![map_entry("proof-map-case-0", Some("core-case-stmt-0"), "proof-event", kspan(20, 34), 7)];
    let anchors = vec![anchor("case", TraceEventKind::Discharge, Some("delivery"), Some("ack"), GeneratedProofEventRole::Discharge, 3)];
    add_proof_event_source_entries(&mut entries, &anchors, &[p]);
    assert_eq!(entries.len(), 1);
    assert_eq!(entries[0].rs_span.line, 7);
}

#[test]
fn lowering_trace_tests_lowering_trace_schema_covers_translation_event_kinds() {
    check_lowering_trace_schema_covers_translation_event_kinds();
}

#[test]
fn sourcemap_lowering_trace_schema_covers_translation_event_kinds() {
    check_lowering_trace_schema_covers_translation_event_kinds();
}

#[test]
fn lowering_trace_tests_lowering_trace_does_not_invent_anchor_from_same_binding() {
    check_lowering_trace_does_not_invent_anchor_from_same_binding();
}

#[test]
fn sourcemap_lowering_trace_does_not_invent_anchor_from_same_binding() {
    check_lowering_trace_does_not_invent_anchor_from_same_binding();
}

#[test]
fn lowering_trace_tests_map_entry_without_core_event_id_does_not_anchor_generated_trace() {
    check_map_entry_without_core_event_id_does_not_anchor_generated_trace();
}

#[test]
fn sourcemap_map_entry_without_core_event_id_does_not_anchor_generated_trace() {
    check_map_entry_without_core_event_id_does_not_anchor_generated_trace();
}

#[test]
fn lowering_trace_tests_lowering_trace_core_event_ids_are_function_scoped() {
    check_lowering_trace_core_event_ids_are_function_scoped();
}

#[test]
fn sourcemap_lowering_trace_core_event_ids_are_function_scoped() {
    check_lowering_trace_core_event_ids_are_function_scoped();
}

#[test]
fn lowering_trace_tests_source_map_without_event_site_anchor_omits_generated_trace_event() {
    check_source_map_without_event_site_anchor_omits_generated_trace_event();
}

#[test]
fn sourcemap_source_map_without_event_site_anchor_omits_generated_trace_event() {
    check_source_map_without_event_site_anchor_omits_generated_trace_event();
}
