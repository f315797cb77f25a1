//! Diagnostics for the ownership solver's outcome: every outcome but a unique
//! solution is reported as one K-code diagnostic, placed at the span of the
//! node it concerns.
use vstd::prelude::*;
use crate::config::owned;
use crate::scenario::KoboSpan;
use crate::strings::{decimal_text, push_decimal};

verus! {

/// What the ownership solver found. Node ids are those of the program's
/// KIR; the times of an exceeded budget are given as the text of seconds to
/// one decimal place.
#[derive(Debug)]
pub enum SolveOutcome {
    Unique,
    /// The node ids of each candidate solution, in the solver's order.
    MultiSolution { candidates: Vec<Vec<u64>> },
    NoSolution { conflicting_nodes: Vec<u64>, conflict_reason: String },
    ClusterTooLarge { member_nodes: Vec<u64>, cluster_size: u64, limit: u64 },
    BudgetExceeded { elapsed_seconds: String, budget_seconds: String, resolved_count: u64, total_count: u64 },
    BoundaryStop { crossing_node: u64, external_crate: String, external_function: String },
}

/// The K-codes of solver diagnostics.
#[derive(Clone, Copy, Debug, PartialEq, Eq, Structural)]
pub enum SolverDiagCode {
    K0080,
    K0081,
    K0082,
    K0083,
    K0090,
}

/// How severe a diagnostic is.
#[derive(Clone, Copy, Debug, PartialEq, Eq, Structural)]
pub enum DiagSeverity {
    Error,
    Warning,
    Note,
}

/// One solver diagnostic: its code, severity, primary span and label, its
/// message and the decision it suggests.
#[derive(Debug)]
pub struct SolverDiagnostic {
    pub code: SolverDiagCode,
    pub severity: DiagSeverity,
    pub span: KoboSpan,
    pub label: String,
    pub message: String,
    pub decision: String,
}

/// A solver diagnostic with its texts as characters.
pub struct DiagnosticView {
    pub code: SolverDiagCode,
    pub severity: DiagSeverity,
    pub span: KoboSpan,
    pub label: Seq<char>,
    pub message: Seq<char>,
    pub decision: Seq<char>,
}

impl View for SolverDiagnostic {
    type V = DiagnosticView;

    open spec fn view(&self) -> DiagnosticView {
        DiagnosticView {
            code: self.code,
            severity: self.severity,
            span: self.span,
            label: self.label@,
            message: self.message@,
            decision: self.decision@,
        }
    }
}

/// The span a diagnostic falls back to where its node is unknown.
pub open spec fn unknown_span() -> KoboSpan {
    KoboSpan { file_id: 0, start: 0, end: 0 }
}

/// The span of the first node of `nodes` with id `id`.
pub open spec fn node_span(nodes: Seq<(u64, KoboSpan)>, id: u64) -> Option<KoboSpan>
    decreases nodes.len(),
{
    if nodes.len() == 0 {
        None
    } else if nodes[0].0 == id {
        Some(nodes[0].1)
    } else {
        node_span(nodes.drop_first(), id)
    }
}

/// The span of node `id`, where it is given and known.
pub open spec fn span_or_unknown(nodes: Seq<(u64, KoboSpan)>, id: Option<u64>) -> KoboSpan {
    match id {
        Some(i) => match node_span(nodes, i) {
            Some(s) => s,
            None => unknown_span(),
        },
        None => unknown_span(),
    }
}

/// The least of `ids`, where there is one.
pub open spec fn least_id(ids: Seq<u64>) -> Option<u64> {
    if ids.len() == 0 {
        None
    } else {
        Some(choose|m: u64| ids.contains(m) && forall|k: int| 0 <= k < ids.len() ==> m <= #[trigger] ids[k])
    }
}

/// The first of `ids`, where there is one.
pub open spec fn first_id(ids: Seq<u64>) -> Option<u64> {
    if ids.len() == 0 {
        None
    } else {
        Some(ids[0])
    }
}

/// The code of the diagnostic that an outcome is reported with, if any.
pub open spec fn code_of(outcome: SolveOutcome) -> Option<SolverDiagCode> {
    match outcome {
        SolveOutcome::Unique => None,
        SolveOutcome::MultiSolution { candidates } => if candidates@.len() == 0 {
            None
        } else {
            Some(SolverDiagCode::K0083)
        },
        SolveOutcome::NoSolution { .. } => Some(SolverDiagCode::K0080),
        SolveOutcome::ClusterTooLarge { .. } => Some(SolverDiagCode::K0081),
        SolveOutcome::BudgetExceeded { .. } => Some(SolverDiagCode::K0082),
        SolveOutcome::BoundaryStop { .. } => Some(SolverDiagCode::K0090),
    }
}

/// The diagnostic that an outcome is reported with at severity `severity`,
/// the spans of the program's nodes given by `nodes`.
pub open spec fn diagnostic_of(outcome: SolveOutcome, nodes: Seq<(u64, KoboSpan)>, severity: DiagSeverity) -> Option<DiagnosticView> {
    match outcome {
        SolveOutcome::Unique => None,
        SolveOutcome::MultiSolution { candidates } => if candidates@.len() == 0 {
            None
        } else {
            Some(DiagnosticView {
                code: SolverDiagCode::K0083,
                severity: severity,
                span: span_or_unknown(nodes, least_id(candidates@[0]@)),
                label: "ownership has "@ + decimal_text(candidates@.len()) + " valid solver candidate(s)"@,
                message: "solver found multiple valid ownership assignments; using the lowest-risk candidate for code generation"@,
                decision: "run `kobo migrate --review` to inspect and lock a candidate"@,
            })
        },
        SolveOutcome::NoSolution { conflicting_nodes, conflict_reason } => Some(DiagnosticView {
            code: SolverDiagCode::K0080,
            severity: severity,
            span: span_or_unknown(nodes, first_id(conflicting_nodes@)),
            label: "ownership conflict: "@ + conflict_reason@,
            message: "solver found no valid ownership assignment for "@ + decimal_text(conflicting_nodes@.len()) + " node(s)"@,
            decision: "review sharing patterns or add ownership hints"@,
        }),
        SolveOutcome::ClusterTooLarge { member_nodes, cluster_size, limit } => Some(DiagnosticView {
            code: SolverDiagCode::K0081,
            severity: severity,
            span: span_or_unknown(nodes, first_id(member_nodes@)),
            label: "constraint cluster too large ("@ + decimal_text(cluster_size as nat) + " nodes, limit "@
                + decimal_text(limit as nat) + ")"@,
            message: "cluster of "@ + decimal_text(cluster_size as nat) + " interdependent bindings exceeds solver limit of "@
                + decimal_text(limit as nat),
            decision: "split large functions or reduce sharing to lower cluster size"@,
        }),
        SolveOutcome::BudgetExceeded { elapsed_seconds, budget_seconds, resolved_count, total_count } => Some(DiagnosticView {
            code: SolverDiagCode::K0082,
            severity: severity,
            span: unknown_span(),
            label: "solver budget exceeded ("@ + elapsed_seconds@ + "s of "@ + budget_seconds@ + "s, "@
                + decimal_text(resolved_count as nat) + "/"@ + decimal_text(total_count as nat) + " resolved)"@,
            message: "solver resolved "@ + decimal_text(resolved_count as nat) + "/"@ + decimal_text(total_count as nat)
                + " nodes before "@ + budget_seconds@ + "s budget expired"@,
            decision: "increase solver_budget_seconds or reduce constraint complexity"@,
        }),
        SolveOutcome::BoundaryStop { crossing_node, external_crate, external_function } => Some(DiagnosticView {
            code: SolverDiagCode::K0090,
            severity: severity,
            span: span_or_unknown(nodes, Some(crossing_node)),
            label: "ownership depends on external crate `"@ + external_crate@ + "`"@,
            message: "binding crosses into `"@ + external_crate@ + "::"@ + external_function@
                + "` \u{2014} solver cannot infer ownership across crate boundaries"@,
            decision: "add an explicit ownership hint or use #[kobo::migrate]"@,
        }),
    }
}

/// The code of the diagnostic that an outcome is reported with, if any: the
/// severity of that code is resolved for the compile mode before the
/// diagnostic is made.
pub fn solver_diagnostic_code(outcome: &SolveOutcome) -> (r: Option<SolverDiagCode>)
    ensures
        r == code_of(*outcome),
{
    match outcome {
        SolveOutcome::Unique => None,
        SolveOutcome::MultiSolution { candidates } => if candidates.len() == 0 {
            None
        } else {
            Some(SolverDiagCode::K0083)
        },
        SolveOutcome::NoSolution { .. } => Some(SolverDiagCode::K0080),
        SolveOutcome::ClusterTooLarge { .. } => Some(SolverDiagCode::K0081),
        SolveOutcome::BudgetExceeded { .. } => Some(SolverDiagCode::K0082),
        SolveOutcome::BoundaryStop { .. } => Some(SolverDiagCode::K0090),
    }
}

/// The span of the first node with id `id`.
pub fn find_node_span(nodes: &[(u64, KoboSpan)], id: u64) -> (r: Option<KoboSpan>)
    ensures
        r == node_span(nodes@, id),
{
    let mut i: usize = 0;
    proof {
        assert(nodes@.skip(0) =~= nodes@);
    }
    while i < nodes.len()
        invariant
            i <= nodes@.len(),
            node_span(nodes@.skip(i as int), id) == node_span(nodes@, id),
        decreases nodes@.len() - i,
    {
        proof {
            assert(nodes@.skip(i as int).drop_first() =~= nodes@.skip(i + 1));
        }
        if nodes[i].0 == id {
            return Some(nodes[i].1);
        }
        i = i + 1;
    }
    None
}

fn span_for(nodes: &[(u64, KoboSpan)], id: Option<u64>) -> (r: KoboSpan)
    ensures
        r == span_or_unknown(nodes@, id),
{
    match id {
        Some(i) => match find_node_span(nodes, i) {
            Some(s) => s,
            None => KoboSpan { file_id: 0, start: 0, end: 0 },
        },
        None => KoboSpan { file_id: 0, start: 0, end: 0 },
    }
}

fn least_of(ids: &Vec<u64>) -> (r: Option<u64>)
    ensures
        r == least_id(ids@),
{
    if ids.len() == 0 {
        return None;
    }
    let mut m: u64 = ids[0];
    let mut i: usize = 1;
    while i < ids.len()
        invariant
            1 <= i <= ids@.len(),
            ids@.contains(m),
            forall|k: int| 0 <= k < i ==> m <= #[trigger] ids@[k],
        decreases ids@.len() - i,
    {
        if ids[i] < m {
            m = ids[i];
        }
        i = i + 1;
    }
    proof {
        let c = choose|c: u64| ids@.contains(c) && forall|k: int| 0 <= k < ids@.len() ==> c <= #[trigger] ids@[k];
        let j = choose|j: int| 0 <= j < ids@.len() && ids@[j] == c;
        let jm = choose|j: int| 0 <= j < ids@.len() && ids@[j] == m;
        assert(c <= ids@[jm]);
        assert(m <= ids@[j]);
    }
    Some(m)
}

fn first_of(ids: &Vec<u64>) -> (r: Option<u64>)
    ensures
        r == first_id(ids@),
{
    if ids.len() == 0 {
        None
    } else {
        Some(ids[0])
    }
}

fn diagnostic(code: SolverDiagCode, severity: DiagSeverity, span: KoboSpan, label: String, message: String, decision: &str) -> (d: SolverDiagnostic)
    ensures
        d@ == (DiagnosticView { code: code, severity: severity, span: span, label: label@, message: message@, decision: decision@ }),
{
    SolverDiagnostic { code: code, severity: severity, span: span, label: label, message: message, decision: owned(decision) }
}

/// The diagnostic that an outcome is reported with, at `severity` (the
/// severity resolved for its code), where the outcome is not a unique
/// solution; `nodes` gives the spans of the program's nodes.
pub fn solver_diagnostic(outcome: &SolveOutcome, nodes: &[(u64, KoboSpan)], severity: DiagSeverity) -> (r: Option<SolverDiagnostic>)
    ensures
        match r {
            Some(d) => diagnostic_of(*outcome, nodes@, severity) == Some(d@),
            None => diagnostic_of(*outcome, nodes@, severity) is None,
        },
{
    match outcome {
        SolveOutcome::Unique => None,
        SolveOutcome::MultiSolution { candidates } => {
            if candidates.len() == 0 {
                return None;
            }
            let span = span_for(nodes, least_of(&candidates[0]));
            let mut label = owned("ownership has ");
            push_decimal(&mut label, candidates.len() as u64);
            label.append(" valid solver candidate(s)");
            let message = owned("solver found multiple valid ownership assignments; using the lowest-risk candidate for code generation");
            Some(diagnostic(SolverDiagCode::K0083, severity, span, label, message,
                "run `kobo migrate --review` to inspect and lock a candidate"))
        },
        SolveOutcome::NoSolution { conflicting_nodes, conflict_reason } => {
            let span = span_for(nodes, first_of(conflicting_nodes));
            let mut label = owned("ownership conflict: ");
            label.append(conflict_reason.as_str());
            let mut message = owned("solver found no valid ownership assignment for ");
            push_decimal(&mut message, conflicting_nodes.len() as u64);
            message.append(" node(s)");
            Some(diagnostic(SolverDiagCode::K0080, severity, span, label, message,
                "review sharing patterns or add ownership hints"))
        },
        SolveOutcome::ClusterTooLarge { member_nodes, cluster_size, limit } => {
            let span = span_for(nodes, first_of(member_nodes));
            let mut label = owned("constraint cluster too large (");
            push_decimal(&mut label, *cluster_size);
            label.append(" nodes, limit ");
            push_decimal(&mut label, *limit);
            label.append(")");
            let mut message = owned("cluster of ");
            push_decimal(&mut message, *cluster_size);
            message.append(" interdependent bindings exceeds solver limit of ");
            push_decimal(&mut message, *limit);
            Some(diagnostic(SolverDiagCode::K0081, severity, span, label, message,
                "split large functions or reduce sharing to lower cluster size"))
        },
        SolveOutcome::BudgetExceeded { elapsed_seconds, budget_seconds, resolved_count, total_count } => {
            let mut label = owned("solver budget exceeded (");
            label.append(elapsed_seconds.as_str());
            label.append("s of ");
            label.append(budget_seconds.as_str());
            label.append("s, ");
            push_decimal(&mut label, *resolved_count);
            label.append("/");
            push_decimal(&mut label, *total_count);
            label.append(" resolved)");
            let mut message = owned("solver resolved ");
            push_decimal(&mut message, *resolved_count);
            message.append("/");
            push_decimal(&mut message, *total_count);
            message.append(" nodes before ");
            message.append(budget_seconds.as_str());
            message.append("s budget expired");
            Some(diagnostic(SolverDiagCode::K0082, severity, KoboSpan { file_id: 0, start: 0, end: 0 }, label, message,
                "increase solver_budget_seconds or reduce constraint complexity"))
        },
        SolveOutcome::BoundaryStop { crossing_node, external_crate, external_function } => {
            let span = span_for(nodes, Some(*crossing_node));
            let mut label = owned("ownership depends on external crate `");
            label.append(external_crate.as_str());
            label.append("`");
            let mut message = owned("binding crosses into `");
            message.append(external_crate.as_str());
            message.append("::");
            message.append(external_function.as_str());
            message.append("` \u{2014} solver cannot infer ownership across crate boundaries");
            Some(diagnostic(SolverDiagCode::K0090, severity, span, label, message,
                "add an explicit ownership hint or use #[kobo::migrate]"))
        },
    }
}

/// The severity of a solver diagnostic: the one resolved for its code in
/// the compile mode, or a warning where the mode resolves none.
pub open spec fn severity_or_warning(resolved: Option<DiagSeverity>) -> DiagSeverity {
    match resolved {
        Some(s) => s,
        None => DiagSeverity::Warning,
    }
}

/// Reports a solver outcome: appends its diagnostic to `diagnostics` where
/// the outcome is not a unique solution, and leaves them as they are
/// otherwise. `resolved_severity` is the severity the compile mode resolves
/// for the outcome's code (see `solver_diagnostic_code`); without one the
/// diagnostic is a warning.
pub fn project_solver_diagnostics(diagnostics: &mut Vec<SolverDiagnostic>, nodes: &[(u64, KoboSpan)], outcome: &SolveOutcome, resolved_severity: Option<DiagSeverity>)
    ensures
        match diagnostic_of(*outcome, nodes@, severity_or_warning(resolved_severity)) {
            Some(d) => final(diagnostics)@.len() == old(diagnostics)@.len() + 1
                && final(diagnostics)@.take(old(diagnostics)@.len() as int) == old(diagnostics)@
                && final(diagnostics)@.last()@ == d,
            None => final(diagnostics)@ == old(diagnostics)@,
        },
{
    let severity = match resolved_severity {
        Some(s) => s,
        None => DiagSeverity::Warning,
    };
    match solver_diagnostic(outcome, nodes, severity) {
        Some(d) => {
            diagnostics.push(d);
            proof {
                assert(diagnostics@.take(old(diagnostics)@.len() as int) =~= old(diagnostics)@);
            }
        },
        None => {},
    }
}

} // verus!
