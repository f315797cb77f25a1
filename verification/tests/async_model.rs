use kobo_driver::async_model::{async_model_evidence, async_model_evidence_for_body, AsyncModelEvidence};
use kobo_driver::await_liveness::{AsyncExpr, AsyncStmt};
use kobo_driver::core_cfg::{CoreBlock, CoreFunction, CoreStatement, CoreStatementKind, CoreTerminator};
use kobo_driver::obligations::ObligationStatus;
use kobo_driver::scenario::{
    KoboSpan, LifecycleTemplateSource, ScenarioCoverage, ScenarioLifecycleTemplate, ScenarioOpKind,
    ScenarioOperation, ScenarioProgram,
};

const SOURCE: &str = "fn handler() {\n    let conn = open();\n    let tmp = make();\n    timeout(read(conn)).await;\n    select! { a => {}, b => {} }\n}\n";

fn span(start: u32, end: u32) -> KoboSpan {
    KoboSpan { file_id: 0, start, end }
}

fn statement(id: &str, kind: CoreStatementKind, binding: &str) -> CoreStatement {
    CoreStatement {
        id: id.to_string(),
        kind,
        binding: Some(binding.to_string()),
        action: None,
        source_span: span(0, 1),
    }
}

fn terminator(id: &str, kind: &str, edges: &[&str], boundary: Option<&str>, start: u32) -> CoreTerminator {
    CoreTerminator {
        id: id.to_string(),
        kind: kind.to_string(),
        edges: edges.iter().map(|e| e.to_string()).collect(),
        boundary: boundary.map(str::to_string),
        source_span: span(start, start + 5),
    }
}

fn block(id: &str, statements: Vec<CoreStatement>, terminators: Vec<CoreTerminator>) -> CoreBlock {
    CoreBlock { id: id.to_string(), statements, terminators }
}

fn handler() -> CoreFunction {
    CoreFunction {
        name: "handler".to_string(),
        blocks: vec![
            block(
                "bb0",
                vec![
                    statement("s0", CoreStatementKind::ObligationCreate, "conn"),
                    statement("s1", CoreStatementKind::ObligationCreate, "tmp"),
                    statement("s2", CoreStatementKind::ObligationDischarge, "tmp"),
                ],
                vec![terminator("t0", "await", &["goto:bb1", "await_resume", "await_cancel"], Some("tokio::time::timeout"), 64)],
            ),
            block("bb1", vec![], vec![terminator("t1", "branch", &["goto:bb2", "goto:bb3", "loop_exit:x"], None, 95)]),
            block(
                "bb2",
                vec![statement("s3", CoreStatementKind::ObligationDischarge, "conn")],
                vec![terminator("t2", "return", &["return"], None, 100)],
            ),
            block("bb3", vec![], vec![terminator("t3", "await", &["goto:bb4"], None, 100)]),
            block("bb4", vec![], vec![terminator("t4", "return", &["return"], None, 100)]),
        ],
    }
}

fn create(binding: &str, obligation_type: &str, actions: &[&str], template_kind: Option<&str>, start: u32) -> ScenarioOperation {
    ScenarioOperation {
        kind: ScenarioOpKind::CreateObligation {
            binding: binding.to_string(),
            obligation_type: obligation_type.to_string(),
            actions: actions.iter().map(|a| a.to_string()).collect(),
            template: template_kind.map(|kind| ScenarioLifecycleTemplate {
                id: "t".to_string(),
                kind: kind.to_string(),
                template_schema: "schema".to_string(),
                schema_version: 1,
                confidence: "exact".to_string(),
                source: LifecycleTemplateSource::Inference,
                lifecycle_owner: "owner".to_string(),
                cancel_policy: None,
                registry_source: None,
            }),
        },
        span: span(start, start + 3),
    }
}

fn program() -> ScenarioProgram {
    ScenarioProgram {
        target: "handler".to_string(),
        operations: vec![
            create("task", "SpawnedTask", &["join", "abort"], None, 19),
            create("conn", "Conn", &["close"], Some("resource"), 19),
            create("worker", "Handle", &["join"], Some("spawned_task"), 42),
            ScenarioOperation { kind: ScenarioOpKind::Return, span: span(0, 1) },
        ],
        coverage: ScenarioCoverage { unsupported_constructs: vec![], opaque_boundaries: vec![] },
    }
}

fn model() -> AsyncModelEvidence {
    async_model_evidence("src/main.kobo", SOURCE, &program(), &[handler()], &[vec!["conn".to_string()]])
}

fn states(states: &[kobo_driver::obligations::ObligationState]) -> Vec<(String, ObligationStatus)> {
    states.iter().map(|s| (s.binding.clone(), s.state)).collect()
}

#[test]
fn each_await_gets_a_suspension_state_and_a_future_drop_edge() {
    let model = model();
    let ids: Vec<&str> = model.suspension_states.iter().map(|s| s.id.as_str()).collect();
    assert_eq!(ids, vec!["handler:bb0:t0", "handler:bb3:t3"]);
    let first = &model.suspension_states[0];
    assert_eq!(first.function, "handler");
    assert_eq!(first.block, "bb0");
    assert_eq!(first.terminator_kind, "await");
    assert_eq!(first.boundary.as_deref(), Some("tokio::time::timeout"));
    assert_eq!(first.resume_edge, "await_resume");
    assert_eq!(first.cancel_edge, "await_cancel");
    assert_eq!(first.source_span.start, 64);
    assert_eq!(first.source_span.end, 69);
    assert_eq!(first.source_span.line, 4);
    assert_eq!(first.source_span.snippet, "timeout(read(conn)).await;");
    assert_eq!(model.suspension_states[1].boundary, None);

    let edges: Vec<(&str, &str, &str, &str)> = model
        .cancel_edges
        .iter()
        .map(|e| (e.id.as_str(), e.from.as_str(), e.to.as_str(), e.reason.as_str()))
        .collect();
    assert_eq!(
        edges,
        vec![
            ("handler:bb0:t0:future-drop", "bb0", "await_cancel", "future_drop"),
            ("handler:bb3:t3:future-drop", "bb3", "await_cancel", "future_drop"),
        ]
    );
}

#[test]
fn only_an_await_under_a_timeout_gets_a_timeout_cancel_edge() {
    let model = model();
    assert_eq!(model.timeout_cancel_edges.len(), 1);
    let edge = &model.timeout_cancel_edges[0];
    assert_eq!(edge.id, "handler:bb0:t0:timeout");
    assert_eq!(edge.function, "handler");
    assert_eq!(edge.suspension_state, "handler:bb0:t0");
    assert_eq!(edge.source, "tokio::time::timeout");
    assert_eq!(edge.cancel_edge, "await_cancel");
}

#[test]
fn live_locals_are_matched_to_awaits_in_order() {
    let model = model();
    assert_eq!(model.future_state_locals.len(), 1);
    let local = &model.future_state_locals[0];
    assert_eq!(local.binding, "conn");
    assert_eq!(local.suspension_state, "handler:bb0:t0");
    assert_eq!(local.source_span.start, 19);
    assert_eq!(local.source_span.end, 23);
    assert_eq!(local.source_span.line, 2);
}

#[test]
fn a_suspended_future_holds_the_owned_obligations_of_its_block() {
    let model = model();
    let held: Vec<(&str, ObligationStatus, &str)> = model
        .future_state_obligations
        .iter()
        .map(|o| (o.binding.as_str(), o.state, o.suspension_state.as_str()))
        .collect();
    assert_eq!(
        held,
        vec![("conn", ObligationStatus::Owned, "handler:bb0:t0"), ("conn", ObligationStatus::Owned, "handler:bb3:t3")]
    );
}

#[test]
fn each_goto_target_of_a_branch_has_a_winner_and_a_loser_path() {
    let model = model();
    let ids: Vec<&str> = model.select_paths.iter().map(|p| p.id.as_str()).collect();
    assert_eq!(
        ids,
        vec![
            "handler:bb1:t1:bb2:winner",
            "handler:bb1:t1:bb2:loser_cancel",
            "handler:bb1:t1:bb3:winner",
            "handler:bb1:t1:bb3:loser_cancel",
        ]
    );
    let winner = &model.select_paths[0];
    assert_eq!(winner.branch_block, "bb1");
    assert_eq!(winner.branch_target, "bb2");
    assert_eq!(winner.path_kind, "winner");
    assert_eq!(
        states(&winner.obligation_results),
        vec![("conn".to_string(), ObligationStatus::Resolved), ("tmp".to_string(), ObligationStatus::Resolved)]
    );
    assert!(winner.cancelled_obligations.is_empty());
    let loser = &model.select_paths[3];
    assert_eq!(loser.path_kind, "loser_cancel");
    assert_eq!(
        states(&loser.obligation_results),
        vec![("conn".to_string(), ObligationStatus::Owned), ("tmp".to_string(), ObligationStatus::Resolved)]
    );
    assert_eq!(states(&loser.cancelled_obligations), vec![("conn".to_string(), ObligationStatus::Owned)]);
}

#[test]
fn spawned_tasks_come_from_their_type_or_their_template() {
    let model = model();
    let tasks: Vec<(&str, Vec<String>)> = model
        .spawned_task_obligations
        .iter()
        .map(|t| (t.binding.as_str(), t.required_resolution.clone()))
        .collect();
    assert_eq!(
        tasks,
        vec![
            ("task", vec!["join".to_string(), "abort".to_string()]),
            ("worker", vec!["join".to_string()]),
        ]
    );
    assert_eq!(model.spawned_task_obligations[0].source_span.start, 19);
}

#[test]
fn no_functions_give_an_empty_model() {
    let model = async_model_evidence("a.kobo", "", &program(), &[], &[]);
    assert!(model.suspension_states.is_empty());
    assert!(model.cancel_edges.is_empty());
    assert!(model.select_paths.is_empty());
    assert_eq!(model.spawned_task_obligations.len(), 2);
}

fn path_expr(name: &str) -> AsyncExpr {
    AsyncExpr::Opaque { uses: vec![name.to_string()], await_count: 0 }
}

fn call_expr(func: &str, args: Vec<AsyncExpr>) -> AsyncExpr {
    let mut children = vec![path_expr(func)];
    children.extend(args);
    AsyncExpr::Sequence(children)
}

fn let_stmt(binding: &str, init: AsyncExpr) -> AsyncStmt {
    AsyncStmt::Local { pattern_bindings: vec![binding.to_string()], init: Some(init), diverge: None }
}

#[test]
fn live_locals_come_from_the_function_body() {
    let awaited = AsyncExpr::Await(Box::new(call_expr("timeout", vec![call_expr("read", vec![path_expr("conn")])])));
    let body = vec![
        let_stmt("conn", call_expr("open", vec![])),
        let_stmt("tmp", call_expr("make", vec![])),
        AsyncStmt::Expr(awaited),
        AsyncStmt::Expr(call_expr("close", vec![path_expr("conn")])),
        AsyncStmt::Other { uses: vec![] },
    ];
    let from_body = async_model_evidence_for_body("src/main.kobo", SOURCE, &program(), &[handler()], &body);
    assert_eq!(from_body.future_state_locals.len(), 1);
    assert_eq!(from_body.future_state_locals[0].binding, "conn");
    assert_eq!(from_body.future_state_locals[0].suspension_state, "handler:bb0:t0");
    assert_eq!(from_body.suspension_states.len(), model().suspension_states.len());
}
