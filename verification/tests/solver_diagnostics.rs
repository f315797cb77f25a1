use kobo_driver::scenario::KoboSpan;
use kobo_driver::solver_diagnostics::{
    project_solver_diagnostics, solver_diagnostic, solver_diagnostic_code, DiagSeverity, SolveOutcome,
    SolverDiagCode,
};

fn span(start: u32, end: u32) -> KoboSpan {
    KoboSpan { file_id: 0, start, end }
}

fn nodes() -> Vec<(u64, KoboSpan)> {
    vec![(3, span(30, 33)), (1, span(10, 11)), (7, span(70, 77))]
}

#[test]
fn unique_solution_adds_no_diagnostic() {
    let mut diagnostics = Vec::new();
    project_solver_diagnostics(&mut diagnostics, &nodes(), &SolveOutcome::Unique, Some(DiagSeverity::Error));
    assert!(diagnostics.is_empty());
    assert_eq!(solver_diagnostic_code(&SolveOutcome::Unique), None);
    let none = SolveOutcome::MultiSolution { candidates: vec![] };
    assert_eq!(solver_diagnostic_code(&none), None);
    assert!(solver_diagnostic(&none, &nodes(), DiagSeverity::Warning).is_none());
}

#[test]
fn multiple_solutions_point_at_the_least_node_of_the_first_candidate() {
    let outcome = SolveOutcome::MultiSolution { candidates: vec![vec![7, 3, 1], vec![9]] };
    assert_eq!(solver_diagnostic_code(&outcome), Some(SolverDiagCode::K0083));
    let d = solver_diagnostic(&outcome, &nodes(), DiagSeverity::Warning).unwrap();
    assert_eq!(d.code, SolverDiagCode::K0083);
    assert_eq!(d.severity, DiagSeverity::Warning);
    assert_eq!(d.span, span(10, 11));
    assert_eq!(d.label, "ownership has 2 valid solver candidate(s)");
    assert_eq!(
        d.message,
        "solver found multiple valid ownership assignments; using the lowest-risk candidate for code generation"
    );
    assert_eq!(d.decision, "run `kobo migrate --review` to inspect and lock a candidate");
}

#[test]
fn no_solution_names_its_reason_and_node_count() {
    let outcome = SolveOutcome::NoSolution { conflicting_nodes: vec![7, 3], conflict_reason: "cycle".to_string() };
    let d = solver_diagnostic(&outcome, &nodes(), DiagSeverity::Error).unwrap();
    assert_eq!(d.code, SolverDiagCode::K0080);
    assert_eq!(d.severity, DiagSeverity::Error);
    assert_eq!(d.span, span(70, 77));
    assert_eq!(d.label, "ownership conflict: cycle");
    assert_eq!(d.message, "solver found no valid ownership assignment for 2 node(s)");
    assert_eq!(d.decision, "review sharing patterns or add ownership hints");
}

#[test]
fn cluster_too_large_reports_size_and_limit() {
    let outcome = SolveOutcome::ClusterTooLarge { member_nodes: vec![42], cluster_size: 120, limit: 64 };
    let d = solver_diagnostic(&outcome, &nodes(), DiagSeverity::Warning).unwrap();
    assert_eq!(d.code, SolverDiagCode::K0081);
    assert_eq!(d.span, span(0, 0));
    assert_eq!(d.label, "constraint cluster too large (120 nodes, limit 64)");
    assert_eq!(d.message, "cluster of 120 interdependent bindings exceeds solver limit of 64");
}

#[test]
fn exceeded_budget_is_reported_at_the_unknown_span() {
    let outcome = SolveOutcome::BudgetExceeded {
        elapsed_seconds: "2.5".to_string(),
        budget_seconds: "2.0".to_string(),
        resolved_count: 3,
        total_count: 8,
    };
    let d = solver_diagnostic(&outcome, &nodes(), DiagSeverity::Note).unwrap();
    assert_eq!(d.code, SolverDiagCode::K0082);
    assert_eq!(d.span, span(0, 0));
    assert_eq!(d.label, "solver budget exceeded (2.5s of 2.0s, 3/8 resolved)");
    assert_eq!(d.message, "solver resolved 3/8 nodes before 2.0s budget expired");
    assert_eq!(d.decision, "increase solver_budget_seconds or reduce constraint complexity");
}

#[test]
fn boundary_stop_names_the_external_function() {
    let outcome = SolveOutcome::BoundaryStop {
        crossing_node: 3,
        external_crate: "serde".to_string(),
        external_function: "to_string".to_string(),
    };
    let mut diagnostics = Vec::new();
    project_solver_diagnostics(&mut diagnostics, &nodes(), &outcome, None);
    assert_eq!(diagnostics.len(), 1);
    let d = &diagnostics[0];
    assert_eq!(d.code, SolverDiagCode::K0090);
    assert_eq!(d.severity, DiagSeverity::Warning);
    assert_eq!(d.span, span(30, 33));
    assert_eq!(d.label, "ownership depends on external crate `serde`");
    assert_eq!(
        d.message,
        "binding crosses into `serde::to_string` \u{2014} solver cannot infer ownership across crate boundaries"
    );
    assert_eq!(d.decision, "add an explicit ownership hint or use #[kobo::migrate]");
}

#[test]
fn a_resolved_severity_is_used() {
    let outcome = SolveOutcome::NoSolution { conflicting_nodes: vec![1], conflict_reason: "cycle".to_string() };
    let mut diagnostics = Vec::new();
    project_solver_diagnostics(&mut diagnostics, &nodes(), &outcome, Some(DiagSeverity::Error));
    assert_eq!(diagnostics[0].severity, DiagSeverity::Error);
    assert_eq!(diagnostics[0].span, span(10, 11));
}
