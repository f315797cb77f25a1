use kobo_driver::manifest::stable_hash;
use kobo_driver::bounded::FieldMap;
use kobo_driver::core_cfg::{CoreBlock, CoreFunction, CoreLoopBackEdgeFact, CoreStatement, CoreStatementKind, CoreTerminator, LoopRegionIndex};
use kobo_driver::evidence::{InvariantConfidence, ObligationEvent};
use kobo_driver::events::obligation_evidence;
use kobo_driver::invariants::{
    loop_invariant_evidence, user_invariant_downgrade_reason, user_invariant_for_fact,
    user_loop_invariant_directive, InvariantPreservation, InvariantTier, UserLoopInvariantDirective,
};
use kobo_driver::obligations::{ObligationEventKind, ObligationState, ObligationStatus};
use kobo_driver::scenario::{
    KoboSpan, LifecycleTemplateSource, ScenarioCoverage, ScenarioLifecycleTemplate, ScenarioOpKind,
    ScenarioOperation, ScenarioProgram,
};
use kobo_driver::source_spans::SourceSpan;
use kobo_driver::templates::{
    bindings_of_type, invariant_template_source, lifecycle_owner, lifecycle_template_version,
    template_evidence, template_for_binding, template_hash, template_schemas, type_for_binding,
    HashEvidence, InvariantTemplateSource,
};

fn span(start: u32, end: u32) -> KoboSpan {
    KoboSpan { file_id: 0, start, end }
}

fn source_span(start: usize) -> SourceSpan {
    SourceSpan { path: "a.kobo".to_string(), line: 1, start, end: start + 1, mapped: true, snippet: String::new() }
}

fn template(id: &str, source: LifecycleTemplateSource, version: u32) -> ScenarioLifecycleTemplate {
    ScenarioLifecycleTemplate {
        id: id.to_string(),
        kind: "resource".to_string(),
        template_schema: "schema".to_string(),
        schema_version: version,
        confidence: "exact".to_string(),
        source,
        lifecycle_owner: "io_resource".to_string(),
        cancel_policy: None,
        registry_source: Some("registry".to_string()),
    }
}

fn create(binding: &str, ty: &str, t: Option<ScenarioLifecycleTemplate>, start: u32) -> ScenarioOperation {
    ScenarioOperation {
        kind: ScenarioOpKind::CreateObligation { binding: binding.to_string(), obligation_type: ty.to_string(), actions: vec![], template: t },
        span: span(start, start + 1),
    }
}

fn program(operations: Vec<ScenarioOperation>) -> ScenarioProgram {
    ScenarioProgram {
        target: "f".to_string(),
        operations,
        coverage: ScenarioCoverage { unsupported_constructs: vec![], opaque_boundaries: vec![] },
    }
}

fn statement(id: &str, kind: CoreStatementKind, binding: &str) -> CoreStatement {
    CoreStatement { id: id.to_string(), kind, binding: Some(binding.to_string()), action: None, source_span: span(0, 1) }
}

fn block(id: &str, statements: Vec<CoreStatement>, edges: &[&str]) -> CoreBlock {
    CoreBlock {
        id: id.to_string(),
        statements,
        terminators: vec![CoreTerminator {
            id: format!("t-{id}"),
            kind: "goto".to_string(),
            edges: edges.iter().map(|e| e.to_string()).collect(),
            boundary: None,
            source_span: span(0, 1),
        }],
    }
}

fn loop_function() -> CoreFunction {
    CoreFunction {
        name: "f".to_string(),
        blocks: vec![
            block("bb0", vec![], &["goto:bb1"]),
            block("bb1", vec![], &["goto:bb2", "break_exit"]),
            block(
                "bb2",
                vec![
                    statement("stmt-0", CoreStatementKind::ObligationCreate, "a"),
                    statement("stmt-1", CoreStatementKind::ObligationDischarge, "a"),
                ],
                &["loop_back:L1:bb1"],
            ),
        ],
    }
}

fn loop_fact(function: &str) -> CoreLoopBackEdgeFact {
    CoreLoopBackEdgeFact {
        id: "loop-f-L1".to_string(),
        function: function.to_string(),
        loop_id: "L1".to_string(),
        loop_label: None,
        entry_block: "bb1".to_string(),
        back_edge_source: "bb2".to_string(),
        back_edge_target: "bb1".to_string(),
        source_span: source_span(0),
    }
}

fn create_event(binding: &str, regions: &[&str]) -> ObligationEvent {
    ObligationEvent {
        id: "stmt-0".to_string(),
        kind: ObligationEventKind::Create,
        binding: Some(binding.to_string()),
        action: None,
        loop_regions: regions.iter().map(|r| r.to_string()).collect(),
        source_span: source_span(0),
        state_before: vec![],
        state_after: vec![],
    }
}

fn pairs(states: &[ObligationState]) -> Vec<(String, ObligationStatus)> {
    states.iter().map(|s| (s.binding.clone(), s.state)).collect()
}

#[test]
fn bindings_keep_their_last_type_and_template() {
    let p = program(vec![
        create("a", "Queue", Some(template("queue_delivery", LifecycleTemplateSource::Declaration, 3)), 0),
        create("b", "Lock", None, 1),
        create("a", "Queue2", None, 2),
        ScenarioOperation { kind: ScenarioOpKind::Return, span: span(3, 4) },
    ]);
    assert_eq!(type_for_binding(&p, "a").map(String::as_str), Some("Queue2"));
    assert_eq!(type_for_binding(&p, "zz"), None);
    assert_eq!(template_for_binding(&p, "a").map(|t| t.id.as_str()), Some("queue_delivery"));
    assert!(template_for_binding(&p, "b").is_none());
}

#[test]
fn bindings_of_a_type_come_sorted_once_each() {
    let p = program(vec![
        create("c", "Lock", None, 0),
        create("b", "Lock", None, 1),
        create("aa", "Lock", None, 2),
        create("b", "Lock", None, 3),
        create("d", "Queue", None, 4),
        create("d", "Lock", None, 5),
        create("c", "Queue", None, 6),
    ]);
    assert_eq!(bindings_of_type(&p, "Lock"), vec!["aa".to_string(), "b".to_string(), "d".to_string()]);
    assert_eq!(bindings_of_type(&p, "Queue"), vec!["c".to_string()]);
    assert!(bindings_of_type(&p, "None").is_empty());
}

#[test]
fn template_versions_owners_sources_and_hashes() {
    assert_eq!(lifecycle_template_version(&template("x", LifecycleTemplateSource::Declaration, 3)), "3");
    assert_eq!(lifecycle_template_version(&template("x", LifecycleTemplateSource::Declaration, 120)), "120");
    assert_eq!(lifecycle_template_version(&template("x", LifecycleTemplateSource::Inference, 3)), "0.1");
    assert_eq!(lifecycle_owner("queue_delivery"), "queue");
    assert_eq!(lifecycle_owner("handler_reply"), "service_request");
    assert_eq!(lifecycle_owner("file_socket"), "io_resource");
    assert_eq!(lifecycle_owner("custom"), "custom");
    assert_eq!(invariant_template_source(&LifecycleTemplateSource::Declaration), InvariantTemplateSource::Declaration);
    assert_eq!(invariant_template_source(&LifecycleTemplateSource::Inference), InvariantTemplateSource::BuiltIn);
    let hashes = vec![
        HashEvidence { id: "other".to_string(), hash: "h0".to_string() },
        HashEvidence { id: "queue_delivery".to_string(), hash: "h1".to_string() },
        HashEvidence { id: "queue_delivery".to_string(), hash: "h2".to_string() },
    ];
    let t = template("queue_delivery", LifecycleTemplateSource::Declaration, 1);
    assert_eq!(template_hash(&t, &hashes), "h1");
    assert_eq!(template_hash(&t, &hashes[..1]), stable_hash("queue_delivery"));
}

#[test]
fn template_schemas_record_each_templated_creation() {
    let source = "let a = open();\nlet b = 2;";
    let p = program(vec![
        create("a", "Conn", Some(template("file_socket", LifecycleTemplateSource::Declaration, 2)), 0),
        create("b", "Plain", None, 16),
        create("c", "Conn", Some(template("stream_item", LifecycleTemplateSource::Inference, 1)), 16),
    ]);
    let schemas = template_schemas("a.kobo", source, &p);
    assert_eq!(schemas.len(), 2);
    assert_eq!(schemas[0].id, "file_socket");
    assert_eq!(schemas[0].source, "declaration");
    assert_eq!(schemas[0].schema_version, 2);
    assert_eq!(schemas[0].registry_source.as_deref(), Some("registry"));
    assert_eq!(schemas[0].source_span.line, 1);
    assert_eq!(schemas[0].source_span.snippet, "let a = open();");
    assert_eq!(schemas[1].source, "built_in");
    assert_eq!(schemas[1].source_span.line, 2);
    assert_eq!(schemas[1].source_span.start, 16);
    assert_eq!(schemas[1].source_span.end, 17);
    let (hashes, schemas) = template_evidence("a.kobo", source, &p, &["s0".to_string(), "s1".to_string()]);
    assert_eq!(schemas.len(), 2);
    assert_eq!((hashes[0].id.as_str(), hashes[0].hash.as_str()), ("file_socket", "s0"));
    assert_eq!((hashes[1].id.as_str(), hashes[1].hash.as_str()), ("stream_item", "s1"));
}

#[test]
fn inferred_invariant_is_preserved_when_the_loop_discharges() {
    let p = program(vec![create("a", "Conn", Some(template("file_socket", LifecycleTemplateSource::Declaration, 2)), 0)]);
    let functions = vec![loop_function()];
    let facts = vec![loop_fact("f")];
    let events = vec![create_event("a", &["L1"])];
    let hashes = vec![HashEvidence { id: "file_socket".to_string(), hash: "hh".to_string() }];
    let evidence = loop_invariant_evidence(&p, &functions, &facts, &events, &hashes, &None);
    assert_eq!(evidence.len(), 1);
    let e = &evidence[0];
    assert_eq!(e.id, "loop-f-L1");
    assert_eq!(e.tier, InvariantTier::Inferred);
    assert_eq!(e.expression, "no_pending(Conn)");
    assert_eq!(e.obligations_created, vec!["a".to_string()]);
    assert!(e.entry_states.is_empty());
    assert_eq!(pairs(&e.back_edge_states), vec![("a".to_string(), ObligationStatus::Resolved)]);
    assert_eq!(e.preservation, InvariantPreservation::Preserved);
    assert!(e.downgrade_reason.is_none());
    assert!(e.user_fact.is_none());
    let t = e.template.as_ref().expect("template");
    assert_eq!(t.id, "file_socket");
    assert_eq!(t.version, "2");
    assert_eq!(t.schema_hash, "hh");
    assert_eq!(t.source, InvariantTemplateSource::Declaration);
    assert_eq!(t.confidence, InvariantConfidence::Exact);
    assert_eq!(t.obligation_kind, "Conn");
    assert_eq!(t.lifecycle_owner, "io_resource");
    assert_eq!(e.binding_templates.len(), 1);
    assert_eq!(e.binding_templates[0].binding, "a");
    assert_eq!(e.binding_templates[0].schema_hash, "hh");
}

#[test]
fn obligation_live_at_loop_entry_fails_the_invariant() {
    let p = program(vec![create("a", "Conn", Some(template("file_socket", LifecycleTemplateSource::Declaration, 2)), 0)]);
    let function = CoreFunction {
        name: "f".to_string(),
        blocks: vec![
            block("bb0", vec![statement("stmt-0", CoreStatementKind::ObligationCreate, "a")], &["goto:bb1"]),
            block("bb1", vec![], &["goto:bb2", "break_exit"]),
            block("bb2", vec![], &["loop_back:L1:bb1"]),
        ],
    };
    let hashes = vec![HashEvidence { id: "file_socket".to_string(), hash: "hh".to_string() }];
    let evidence = loop_invariant_evidence(&p, &[function], &[loop_fact("f")], &[create_event("a", &["L1"])], &hashes, &None);
    assert_eq!(evidence.len(), 1);
    assert_eq!(pairs(&evidence[0].entry_states), vec![("a".to_string(), ObligationStatus::Owned)]);
    assert_eq!(evidence[0].preservation, InvariantPreservation::Failed);
    assert_eq!(evidence[0].downgrade_reason.as_deref(), Some("user invariant is not true at loop entry"));
}

#[test]
fn user_directive_states_a_fact_over_its_domain() {
    let p = program(vec![create("a", "Conn", Some(template("file_socket", LifecycleTemplateSource::Declaration, 2)), 0)]);
    let hashes = vec![HashEvidence { id: "file_socket".to_string(), hash: "hh".to_string() }];
    let directive = Some(UserLoopInvariantDirective {
        expression: "no_pending(Conn)".to_string(),
        obligation_kind: Some("Conn".to_string()),
        loop_label: None,
        source_span: source_span(7),
    });
    let evidence = loop_invariant_evidence(&p, &[loop_function()], &[loop_fact("f")], &[create_event("a", &["L1"])], &hashes, &directive);
    assert_eq!(evidence.len(), 1);
    let e = &evidence[0];
    assert_eq!(e.tier, InvariantTier::User);
    assert_eq!(e.expression, "no_pending(Conn)");
    assert_eq!(e.source_span.start, 7);
    assert_eq!(e.preservation, InvariantPreservation::Preserved);
    let fact = e.user_fact.as_ref().expect("fact");
    assert_eq!(fact.loop_id, "L1");
    assert_eq!(fact.obligation_kind, "Conn");
    assert_eq!(fact.template_id.as_deref(), Some("file_socket"));
    assert_eq!(fact.template_version.as_deref(), Some("2"));
    assert_eq!(fact.lifecycle_owner.as_deref(), Some("io_resource"));
    assert_eq!(fact.domain_bindings, vec!["a".to_string()]);
}

#[test]
fn user_directive_of_an_unknown_kind_is_downgraded() {
    let p = program(vec![create("a", "Conn", None, 0)]);
    let directive = Some(UserLoopInvariantDirective {
        expression: "no_pending(Missing)".to_string(),
        obligation_kind: Some("Missing".to_string()),
        loop_label: None,
        source_span: source_span(0),
    });
    let evidence = loop_invariant_evidence(&p, &[loop_function()], &[loop_fact("f")], &[create_event("a", &["L1"])], &[], &directive);
    assert_eq!(evidence.len(), 1);
    let e = &evidence[0];
    assert!(e.obligations_created.is_empty());
    assert!(e.template.is_none());
    assert_eq!(e.preservation, InvariantPreservation::Failed);
    assert_eq!(e.downgrade_reason.as_deref(), Some("unknown obligation kind in user invariant"));
    let fact = e.user_fact.as_ref().expect("fact");
    assert_eq!(fact.obligation_kind, "Missing");
    assert!(fact.domain_bindings.is_empty());
    assert!(fact.template_id.is_none());
}

#[test]
fn loops_without_evidence_are_left_out() {
    let p = program(vec![create("a", "Conn", None, 0)]);
    // no directive and no templated binding: nothing to say about the loop
    assert!(loop_invariant_evidence(&p, &[loop_function()], &[loop_fact("f")], &[create_event("a", &["L1"])], &[], &None).is_empty());
    let templated = program(vec![create("a", "Conn", Some(template("t", LifecycleTemplateSource::Inference, 1)), 0)]);
    let hashes = vec![HashEvidence { id: "t".to_string(), hash: "h".to_string() }];
    // the loop's function is not among the replayed functions
    assert!(loop_invariant_evidence(&templated, &[loop_function()], &[loop_fact("g")], &[create_event("a", &["L1"])], &hashes, &None).is_empty());
    // the binding was created outside the loop
    assert!(loop_invariant_evidence(&templated, &[loop_function()], &[loop_fact("f")], &[create_event("a", &["L2"])], &hashes, &None).is_empty());
    assert!(loop_invariant_evidence(&templated, &[loop_function()], &[], &[], &hashes, &None).is_empty());
}

#[test]
fn directives_apply_by_label_or_to_a_single_loop() {
    let unlabeled = Some(UserLoopInvariantDirective {
        expression: "e".to_string(),
        obligation_kind: None,
        loop_label: None,
        source_span: source_span(0),
    });
    let one = vec![loop_fact("f")];
    assert!(user_invariant_for_fact(&unlabeled, &one[0], &one).is_some());
    let two = vec![loop_fact("f"), loop_fact("f")];
    assert!(user_invariant_for_fact(&unlabeled, &two[0], &two).is_none());
    let labeled = Some(UserLoopInvariantDirective {
        expression: "e".to_string(),
        obligation_kind: None,
        loop_label: Some("outer".to_string()),
        source_span: source_span(0),
    });
    let mut fact = loop_fact("f");
    assert!(user_invariant_for_fact(&labeled, &fact, &two).is_none());
    fact.loop_label = Some("outer".to_string());
    assert!(user_invariant_for_fact(&labeled, &fact, &two).is_some());
    assert!(user_invariant_for_fact(&None, &fact, &two).is_none());
}

#[test]
fn downgrade_reasons_in_priority_order() {
    let d = UserLoopInvariantDirective { expression: "e".to_string(), obligation_kind: None, loop_label: None, source_span: source_span(0) };
    assert_eq!(user_invariant_downgrade_reason(Some(&d), true, true, true, true).as_deref(), Some("malformed user invariant expression"));
    assert_eq!(user_invariant_downgrade_reason(Some(&d), false, true, true, true).as_deref(), Some("unknown obligation kind in user invariant"));
    assert_eq!(user_invariant_downgrade_reason(None, true, true, false, true).as_deref(), Some("unresolved obligation reaches loop back-edge"));
    assert_eq!(user_invariant_downgrade_reason(None, false, false, false, false), None);
}

#[test]
fn directive_fields_give_expression_kind_label_and_span() {
    let source = "fn f() {\n  // no_pending(Conn)\n}";
    let mut fields = FieldMap::new();
    fields.insert("expression".to_string(), "no_pending(Conn)".to_string());
    fields.insert("loop".to_string(), "outer".to_string());
    let d = user_loop_invariant_directive("a.kobo", source, &fields).expect("directive");
    assert_eq!(d.expression, "no_pending(Conn)");
    assert_eq!(d.obligation_kind.as_deref(), Some("Conn"));
    assert_eq!(d.loop_label.as_deref(), Some("outer"));
    assert_eq!(d.source_span.start, 14);
    assert_eq!(d.source_span.line, 2);
    fields.insert("loop_label".to_string(), "inner".to_string());
    let d = user_loop_invariant_directive("a.kobo", source, &fields).unwrap();
    assert_eq!(d.loop_label.as_deref(), Some("inner"));
    assert!(user_loop_invariant_directive("a.kobo", source, &FieldMap::new()).is_none());
}

#[test]
fn obligation_events_replay_each_statement() {
    let functions = vec![loop_function()];
    let index = LoopRegionIndex::from_core(&functions, &[], &[]);
    let (entry, exit, events) = obligation_evidence("a.kobo", "let a = 1;", &functions, &index);
    assert!(entry.is_empty());
    assert!(exit.is_empty());
    assert_eq!(events.len(), 2);
    assert_eq!(events[0].id, "stmt-0");
    assert_eq!(events[0].kind, ObligationEventKind::Create);
    assert!(pairs(&events[0].state_before).is_empty());
    assert_eq!(pairs(&events[0].state_after), vec![("a".to_string(), ObligationStatus::Owned)]);
    assert_eq!(events[1].kind, ObligationEventKind::Discharge);
    assert_eq!(pairs(&events[1].state_before), vec![("a".to_string(), ObligationStatus::Owned)]);
    assert_eq!(pairs(&events[1].state_after), vec![("a".to_string(), ObligationStatus::Resolved)]);
    assert!(events[1].loop_regions.is_empty());
    assert_eq!(events[1].source_span.line, 1);
}

#[test]
fn obligation_events_merge_terminal_exits() {
    let function = CoreFunction {
        name: "g".to_string(),
        blocks: vec![
            block("bb0", vec![statement("s0", CoreStatementKind::ObligationCreate, "t")], &["goto:bb1", "goto:bb2"]),
            block("bb1", vec![statement("s1", CoreStatementKind::ObligationDischarge, "t")], &["return"]),
            block("bb2", vec![], &["return"]),
        ],
    };
    let functions = vec![function];
    let index = LoopRegionIndex::from_core(&functions, &[], &[]);
    let (_, exit, events) = obligation_evidence("a.kobo", "x", &functions, &index);
    assert_eq!(events.len(), 2);
    assert_eq!(pairs(&exit), vec![("t".to_string(), ObligationStatus::BranchUnresolved)]);
}
