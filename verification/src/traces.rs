//! The Core trace of a scenario program: one event per operation that the
//! obligation events or the operation itself make traceable, in operation
//! order, with the template the traced binding follows.
use vstd::prelude::*;
use crate::core_cfg::{clone_span, span_for, opt_chars};
use crate::config::{clone_opt_string, owned};
use crate::evidence::{ObligationEvent, TraceEventKind, statement_index_from_event,
    statement_index_named, trace_event_kind, trace_kind_of};
use crate::scenario::{KoboSpan, ScenarioCoreTerminatorKind, ScenarioOpKind, ScenarioOperation,
    ScenarioProgram};
use crate::source_spans::{SourceSpan, byte_boundary, clamp_offset, chars_before_byte,
    line_of_offset, line_snippet, one_based_line_for_offset, snippet_at, source_span_from_kobo};
use crate::strings::{chars_of, decimal_text, push_decimal, string_from_chars};
use crate::templates::{HashEvidence, lifecycle_template_version, template_for_binding,
    template_of, template_version};
use crate::text::{push_str, utf8_len};

verus! {

/// One event of the Core trace.
#[derive(Debug)]
pub struct CoreTraceEvent {
    pub id: String,
    pub kind: TraceEventKind,
    pub binding: Option<String>,
    pub order: u64,
    pub source_span: SourceSpan,
    pub template_id: Option<String>,
    pub template_version: Option<String>,
}

/// The trace event a recorded terminator gives.
pub open spec fn terminator_trace_kind(kind: ScenarioCoreTerminatorKind) -> TraceEventKind {
    match kind {
        ScenarioCoreTerminatorKind::Return => TraceEventKind::Return,
        ScenarioCoreTerminatorKind::ErrorExit => TraceEventKind::ErrorExit,
        ScenarioCoreTerminatorKind::Panic => TraceEventKind::Panic,
        ScenarioCoreTerminatorKind::Await => TraceEventKind::Cancel,
        ScenarioCoreTerminatorKind::OpaqueBoundary => TraceEventKind::OpaqueBoundary,
    }
}

/// The trace event a recorded terminator gives; an await is where a task
/// may be cancelled.
pub fn trace_event_kind_from_terminator(kind: &ScenarioCoreTerminatorKind) -> (r: TraceEventKind)
    ensures
        r == terminator_trace_kind(*kind),
{
    match kind {
        ScenarioCoreTerminatorKind::Return => TraceEventKind::Return,
        ScenarioCoreTerminatorKind::ErrorExit => TraceEventKind::ErrorExit,
        ScenarioCoreTerminatorKind::Panic => TraceEventKind::Panic,
        ScenarioCoreTerminatorKind::Await => TraceEventKind::Cancel,
        ScenarioCoreTerminatorKind::OpaqueBoundary => TraceEventKind::OpaqueBoundary,
    }
}

/// The trace event an operation gives by itself: returns and recorded terminators.
pub open spec fn operation_trace_kind(kind: ScenarioOpKind) -> Option<TraceEventKind> {
    match kind {
        ScenarioOpKind::Return => Some(TraceEventKind::Return),
        ScenarioOpKind::CoreTerminator { kind, .. } => Some(terminator_trace_kind(kind)),
        _ => None,
    }
}

/// The trace event an operation gives by itself.
pub fn trace_event_kind_from_operation(kind: &ScenarioOpKind) -> (r: Option<TraceEventKind>)
    ensures
        r == operation_trace_kind(*kind),
{
    match kind {
        ScenarioOpKind::Return => Some(TraceEventKind::Return),
        ScenarioOpKind::CoreTerminator { kind, .. } => Some(trace_event_kind_from_terminator(kind)),
        _ => None,
    }
}

/// The position of the last of the first `n` events whose id names statement `index`.
pub open spec fn event_for_statement(events: Seq<ObligationEvent>, index: nat, n: int) -> Option<int>
    decreases n,
{
    if n <= 0 {
        None
    } else if statement_index_named(events[n - 1].id@) == Some(index) {
        Some(n - 1)
    } else {
        event_for_statement(events, index, n - 1)
    }
}

/// Some event is of a kind that the trace records.
pub open spec fn has_traceable(events: Seq<ObligationEvent>) -> bool {
    exists|i: int| 0 <= i < events.len() && (trace_kind_of((#[trigger] events[i]).kind) is Some)
}

/// The trace event kind of operation `i`: that of its statement's event, else
/// its own.
pub open spec fn trace_kind_at(ops: Seq<ScenarioOperation>, events: Seq<ObligationEvent>, i: int) -> Option<TraceEventKind> {
    match event_for_statement(events, i as nat, events.len() as int) {
        Some(e) => match trace_kind_of(events[e].kind) {
            Some(k) => Some(k),
            None => operation_trace_kind(ops[i].kind),
        },
        None => operation_trace_kind(ops[i].kind),
    }
}

/// Operation `i` is traced: it has a trace kind and is not a return in a
/// program whose events record nothing traceable.
pub open spec fn traced(ops: Seq<ScenarioOperation>, events: Seq<ObligationEvent>, i: int) -> bool {
    !(!has_traceable(events) && ops[i].kind is Return) && trace_kind_at(ops, events, i) is Some
}

/// The traced operations among the first `n`, in order.
pub open spec fn traced_indices(ops: Seq<ScenarioOperation>, events: Seq<ObligationEvent>, n: int) -> Seq<int>
    decreases n,
{
    if n <= 0 {
        Seq::empty()
    } else if traced(ops, events, n - 1) {
        traced_indices(ops, events, n - 1).push(n - 1)
    } else {
        traced_indices(ops, events, n - 1)
    }
}

/// Every traced operation without a statement event starts on a character
/// boundary of `source`.
pub open spec fn trace_spans_in(ops: Seq<ScenarioOperation>, events: Seq<ObligationEvent>, source: Seq<char>) -> bool {
    forall|i: int| 0 <= i < ops.len() && #[trigger] traced(ops, events, i)
        && event_for_statement(events, i as nat, events.len() as int) is None
        ==> byte_boundary(source, clamp_offset(source, ops[i].span.start as int))
}

/// `t` is the trace event of operation `i` of `program`.
pub open spec fn trace_event_of(t: CoreTraceEvent, program: ScenarioProgram, events: Seq<ObligationEvent>, i: int, path: Seq<char>, source: Seq<char>) -> bool {
    let ops = program.operations@;
    let event = event_for_statement(events, i as nat, events.len() as int);
    let binding = match event { Some(e) => events[e].binding, None => None };
    let template = match binding { Some(b) => template_of(ops, b@), None => None };
    &&& Some(t.kind) == trace_kind_at(ops, events, i)
    &&& t.binding == binding
    &&& t.order == i
    &&& t.id@ == match event {
        Some(e) => "core-"@ + program.target@ + "-"@ + events[e].id@,
        None => "core-"@ + program.target@ + "-term-"@ + decimal_text(i as nat),
    }
    &&& match event {
        Some(e) => t.source_span == events[e].source_span,
        None => span_for(t.source_span, path, source, ops[i].span),
    }
    &&& opt_chars(t.template_id) == match template { Some(tt) => Some(tt.id@), None => None }
    &&& opt_chars(t.template_version) == match template { Some(tt) => Some(template_version(tt)), None => None }
}

/// The position of the last event whose id names statement `index`.
fn find_statement_event(events: &[ObligationEvent], index: usize) -> (r: Option<usize>)
    ensures
        match r {
            Some(e) => event_for_statement(events@, index as nat, events@.len() as int) == Some(e as int) && e < events@.len(),
            None => event_for_statement(events@, index as nat, events@.len() as int) is None,
        },
{
    let mut j = events.len();
    while j > 0
        invariant
            j <= events@.len(),
            event_for_statement(events@, index as nat, events@.len() as int) == event_for_statement(events@, index as nat, j as int),
        decreases j,
    {
        match statement_index_from_event(events[j - 1].id.as_str()) {
            Some(k) => if k == index {
                return Some(j - 1);
            },
            None => {},
        }
        j = j - 1;
    }
    None
}

fn trace_id(target: &str, rest: &str, middle: &str) -> (r: String)
    ensures
        r@ == "core-"@ + target@ + middle@ + rest@,
{
    let mut out: Vec<char> = Vec::new();
    push_str(&mut out, "core-");
    push_str(&mut out, target);
    push_str(&mut out, middle);
    push_str(&mut out, rest);
    let r = string_from_chars(out.as_slice());
    proof {
        assert(r@ =~= "core-"@ + target@ + middle@ + rest@);
    }
    r
}

/// The Core trace of `program`: the traced operations in order, each with the
/// event of its statement where the obligation events hold one.
pub fn core_trace_evidence(program: &ScenarioProgram, obligation_events: &[ObligationEvent], source_path: &str, source: &str) -> (trace: Vec<CoreTraceEvent>)
    requires
        utf8_len(source@) < usize::MAX,
        trace_spans_in(program.operations@, obligation_events@, source@),
    ensures
        trace@.len() == traced_indices(program.operations@, obligation_events@, program.operations@.len() as int).len(),
        forall|j: int| 0 <= j < trace@.len() ==> trace_event_of(#[trigger] trace@[j], *program, obligation_events@,
            traced_indices(program.operations@, obligation_events@, program.operations@.len() as int)[j], source_path@, source@),
{
    let ghost ops = program.operations@;
    let mut traceable = false;
    let mut q: usize = 0;
    while q < obligation_events.len()
        invariant
            q <= obligation_events@.len(),
            traceable == exists|i: int| 0 <= i < q && (trace_kind_of((#[trigger] obligation_events@[i]).kind) is Some),
        decreases obligation_events@.len() - q,
    {
        if trace_event_kind(&obligation_events[q].kind).is_some() {
            traceable = true;
        }
        q = q + 1;
    }
    let mut trace: Vec<CoreTraceEvent> = Vec::new();
    let mut i: usize = 0;
    while i < program.operations.len()
        invariant
            i <= ops.len(),
            ops == program.operations@,
            utf8_len(source@) < usize::MAX,
            trace_spans_in(ops, obligation_events@, source@),
            traceable == has_traceable(obligation_events@),
            trace@.len() == traced_indices(ops, obligation_events@, i as int).len(),
            forall|j: int| 0 <= j < trace@.len() ==> trace_event_of(#[trigger] trace@[j], *program, obligation_events@,
                traced_indices(ops, obligation_events@, i as int)[j], source_path@, source@),
        decreases ops.len() - i,
    {
        let operation = &program.operations[i];
        let is_return = match operation.kind {
            ScenarioOpKind::Return => true,
            _ => false,
        };
        let event = find_statement_event(obligation_events, i);
        let kind = match event {
            Some(e) => match trace_event_kind(&obligation_events[e].kind) {
                Some(k) => Some(k),
                None => trace_event_kind_from_operation(&operation.kind),
            },
            None => trace_event_kind_from_operation(&operation.kind),
        };
        proof {
            assert(kind == trace_kind_at(ops, obligation_events@, i as int));
        }
        if !(!traceable && is_return) && kind.is_some() {
            proof {
                assert(traced(ops, obligation_events@, i as int));
            }
            let binding: Option<String> = match event {
                Some(e) => clone_opt_string(&obligation_events[e].binding),
                None => None,
            };
            let template = match &binding {
                Some(b) => template_for_binding(program, b.as_str()),
                None => None,
            };
            let (source_span, id) = match event {
                Some(e) => (clone_span(&obligation_events[e].source_span),
                    trace_id(program.target.as_str(), obligation_events[e].id.as_str(), "-")),
                None => {
                    let mut digits = String::new();
                    push_decimal(&mut digits, i as u64);
                    (source_span_from_kobo(source_path, source, operation.span),
                        trace_id(program.target.as_str(), digits.as_str(), "-term-"))
                },
            };
            let (template_id, template_version) = match template {
                Some(t) => (Some(t.id.clone()), Some(lifecycle_template_version(t))),
                None => (None, None),
            };
            let event_kind = match kind {
                Some(k) => k,
                None => TraceEventKind::Return,
            };
            let traced_event = CoreTraceEvent {
                id,
                kind: event_kind,
                binding,
                order: i as u64,
                source_span,
                template_id,
                template_version,
            };
            proof {
                assert(trace_event_of(traced_event, *program, obligation_events@, i as int, source_path@, source@));
            }
            trace.push(traced_event);
        }
        i = i + 1;
    }
    trace
}

/// The span a source-map anchor gives a Kobo byte range: its own start and
/// end (at least one byte long), with the line and snippet of the start
/// clamped to the source.
pub open spec fn anchor_span_of(span: SourceSpan, path: Seq<char>, source: Seq<char>, kobo: KoboSpan) -> bool {
    let end = if kobo.end > kobo.start + 1 { kobo.end as int } else { kobo.start + 1 };
    &&& span.path@ == path
    &&& span.start == kobo.start
    &&& span.end == end
    &&& span.mapped == (end > kobo.start)
    &&& span.line == line_of_offset(source, kobo.start as int)
    &&& span.snippet@ == snippet_at(source, chars_before_byte(source, clamp_offset(source, kobo.start as int)))
}

/// The span a source-map anchor gives a Kobo byte range.
pub fn source_map_anchor_span_from_kobo_span(source_path: &str, source: &str, span: &KoboSpan) -> (r: SourceSpan)
    requires
        span.start < u32::MAX,
        utf8_len(source@) < usize::MAX,
        byte_boundary(source@, clamp_offset(source@, span.start as int)),
    ensures
        anchor_span_of(r, source_path@, source@, *span),
{
    let start = span.start as usize;
    let end_u32 = if span.end > span.start + 1 { span.end } else { span.start + 1 };
    let end = end_u32 as usize;
    let line = one_based_line_for_offset(source, start);
    let snippet = line_snippet(source, start);
    SourceSpan {
        path: owned(source_path),
        line,
        start,
        end,
        mapped: end > start,
        snippet,
    }
}

/// The hashes of the Core trace and of the generated Rust trace, under their
/// fixed ids.
pub fn trace_hashes(core_trace_hash: String, generated_trace_hash: String) -> (r: Vec<HashEvidence>)
    ensures
        r@.len() == 2,
        r@[0].id@ == "core_obligation_trace"@ && r@[0].hash == core_trace_hash,
        r@[1].id@ == "generated_rust_trace"@ && r@[1].hash == generated_trace_hash,
{
    let mut r: Vec<HashEvidence> = Vec::new();
    r.push(HashEvidence { id: owned("core_obligation_trace"), hash: core_trace_hash });
    r.push(HashEvidence { id: owned("generated_rust_trace"), hash: generated_trace_hash });
    r
}

} // verus!
