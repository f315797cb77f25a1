use kobo_driver::evidence::TraceEventKind;
use kobo_driver::generated_trace::{
    generated_trace_evidence, translation_validation_status, SourceMapAnchorStatus, TranslationValidationStatus,
};
use kobo_driver::scenario::{KoboSpan, ScenarioCoverage, ScenarioProgram};
use kobo_driver::source_spans::SourceSpan;
use kobo_driver::sourcemap::{wrap_source_map, LoweringTraceEvent, RsSpan};
use kobo_driver::traces::CoreTraceEvent;

fn program(target: &str) -> ScenarioProgram {
    ScenarioProgram {
        target: target.to_string(),
        operations: vec![],
        coverage: ScenarioCoverage { unsupported_constructs: vec![], opaque_boundaries: vec![] },
    }
}

fn core_event(id: &str, kind: TraceEventKind, binding: Option<&str>, order: u64, start: usize) -> CoreTraceEvent {
    CoreTraceEvent {
        id: id.to_string(),
        kind,
        binding: binding.map(|b| b.to_string()),
        order,
        source_span: SourceSpan {
            path: "a.kobo".to_string(),
            line: 1,
            start,
            end: start + 1,
            mapped: true,
            snippet: String::new(),
        },
        template_id: Some("core_template".to_string()),
        template_version: Some("2".to_string()),
    }
}

fn lowering(core: &str, function: &str, kind: &str, binding: Option<&str>, order: u64, start: u32, line: usize) -> LoweringTraceEvent {
    LoweringTraceEvent {
        id: format!("lowering-{function}-{order}"),
        core_event_id: core.to_string(),
        function: function.to_string(),
        kind: kind.to_string(),
        binding: binding.map(|b| b.to_string()),
        order,
        source_map_entry_id: format!("proof-map-{function}-{order}-{line}"),
        rs_span: RsSpan { line, column_start: 4, column_end: 9 },
        kobo_span: KoboSpan { file_id: 0, start, end: start + 3 },
        lowering_phase: "kobo-codegen".to_string(),
        template_id: None,
        template_version: Some("0.1".to_string()),
    }
}

const SOURCE: &str = "fn f() {\n    let d = open();\n    d.ack();\n}\n";

#[test]
fn no_source_map_gives_no_generated_trace() {
    let core = vec![core_event("core-f-stmt-0", TraceEventKind::Create, Some("d"), 0, 13)];
    assert!(generated_trace_evidence("a.kobo", SOURCE, &program("f"), &core, None).is_empty());
}

#[test]
fn each_core_event_takes_the_nearest_unused_lowering_event() {
    let mut map = wrap_source_map("a.kobo", "a.rs", vec![]);
    map.lowering_trace = vec![
        lowering("core-f-stmt-0", "f", "create", Some("d"), 0, 30, 7),
        lowering("core-f-stmt-0", "f", "create", Some("d"), 0, 14, 3),
        lowering("core-f-stmt-0", "g", "create", Some("d"), 0, 13, 9),
        lowering("core-f-stmt-0", "f", "discharge", Some("d"), 0, 13, 8),
    ];
    let core = vec![
        core_event("core-f-stmt-0", TraceEventKind::Create, Some("d"), 0, 13),
        core_event("core-f-stmt-0", TraceEventKind::Create, Some("d"), 0, 13),
        core_event("core-f-stmt-0", TraceEventKind::Create, Some("d"), 0, 13),
    ];
    let trace = generated_trace_evidence("a.kobo", SOURCE, &program("f"), &core, Some(&map));
    assert_eq!(trace.len(), 2);
    assert_eq!(trace[0].source_map_anchor.generated_span.line, 3);
    assert_eq!(trace[1].source_map_anchor.generated_span.line, 7);
    let first = &trace[0];
    assert_eq!(first.id, "generated-core-f-stmt-0");
    assert_eq!(first.core_event_id, "core-f-stmt-0");
    assert_eq!(first.kind, TraceEventKind::Create);
    assert_eq!(first.binding.as_deref(), Some("d"));
    assert_eq!(first.order, 0);
    assert_eq!(first.lowering_phase, "kobo-codegen");
    assert_eq!(first.template_id.as_deref(), Some("core_template"));
    assert_eq!(first.template_version.as_deref(), Some("0.1"));
    let anchor = &first.source_map_anchor;
    assert_eq!(anchor.id, "proof-map-f-0-3");
    assert_eq!(anchor.status, SourceMapAnchorStatus::Mapped);
    assert_eq!(anchor.generated_span.path, "a.rs");
    assert_eq!(anchor.generated_span.start, 4);
    assert_eq!(anchor.generated_span.end, 9);
    assert!(anchor.generated_span.mapped);
    assert_eq!(anchor.generated_span.snippet, "");
    assert_eq!(anchor.kobo_span.path, "a.kobo");
    assert_eq!(anchor.kobo_span.start, 14);
    assert_eq!(anchor.kobo_span.end, 17);
    assert_eq!(anchor.kobo_span.line, 2);
    assert_eq!(anchor.kobo_span.snippet, "let d = open();");
    assert!(anchor.kobo_span.mapped);
}

#[test]
fn equally_near_lowering_events_go_to_the_first() {
    let mut map = wrap_source_map("a.kobo", "a.rs", vec![]);
    map.lowering_trace = vec![
        lowering("core-f-term-1", "f", "return", None, 1, 10, 5),
        lowering("core-f-term-1", "f", "return", None, 1, 16, 6),
    ];
    let core = vec![core_event("core-f-term-1", TraceEventKind::Return, None, 1, 13)];
    let trace = generated_trace_evidence("a.kobo", SOURCE, &program("f"), &core, Some(&map));
    assert_eq!(trace.len(), 1);
    assert_eq!(trace[0].source_map_anchor.generated_span.line, 5);
}

#[test]
fn translation_validation_needs_every_core_event_preserved() {
    let mut map = wrap_source_map("a.kobo", "a.rs", vec![]);
    map.lowering_trace = vec![lowering("core-f-stmt-0", "f", "create", Some("d"), 0, 14, 3)];
    let core = vec![core_event("core-f-stmt-0", TraceEventKind::Create, Some("d"), 0, 13)];
    let generated = generated_trace_evidence("a.kobo", SOURCE, &program("f"), &core, Some(&map));
    assert_eq!(translation_validation_status(&core, &generated, true), TranslationValidationStatus::Validated);
    assert_eq!(translation_validation_status(&core, &generated, false), TranslationValidationStatus::CoreOnly);
    assert_eq!(translation_validation_status(&[], &generated, true), TranslationValidationStatus::CoreOnly);

    let two = vec![
        core_event("core-f-stmt-0", TraceEventKind::Create, Some("d"), 0, 13),
        core_event("core-f-stmt-1", TraceEventKind::Discharge, Some("d"), 1, 30),
    ];
    let partial = generated_trace_evidence("a.kobo", SOURCE, &program("f"), &two, Some(&map));
    assert_eq!(partial.len(), 1);
    assert_eq!(translation_validation_status(&two, &partial, true), TranslationValidationStatus::Failed);

    let other_binding = vec![core_event("core-f-stmt-0", TraceEventKind::Create, Some("e"), 0, 13)];
    assert_eq!(translation_validation_status(&other_binding, &generated, true), TranslationValidationStatus::Failed);
}
