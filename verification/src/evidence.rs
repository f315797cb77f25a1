//! Pieces of the proof certificate's evidence: obligation events, trace event
//! kinds, function summaries, coverage losses and the source spans of
//! bindings and user invariants.
use vstd::prelude::*;
use crate::core_cfg::{CoreLoopBackEdgeFact, opt_chars};
use crate::numbers::{parse_unsigned, parse_usize};
use crate::obligations::{ObligationEnv, ObligationEventKind, ObligationState, ObligationStatus,
    bindings_increasing};
use crate::scenario::ScenarioProgram;
use crate::source_spans::{SourceSpan, byte_boundary, clamp_offset, source_span_from_range,
    chars_before_byte, line_of_offset, snippet_at};
use crate::strings::{chars_of, string_from_chars};
use crate::templates::texts;
use crate::text::{copy_range, find_in, first_match, lemma_first_match, matches_at, str_equals,
    trim_range, trimmed, utf8_len};

verus! {

/// An obligation event of a Core statement.
#[derive(Debug)]
pub struct ObligationEvent {
    pub id: String,
    pub kind: ObligationEventKind,
    pub binding: Option<String>,
    pub action: Option<String>,
    pub loop_regions: Vec<String>,
    pub source_span: SourceSpan,
    pub state_before: Vec<ObligationState>,
    pub state_after: Vec<ObligationState>,
}

/// How much an invariant template is trusted.
#[derive(Clone, Copy, Debug, PartialEq, Eq, Structural)]
pub enum InvariantConfidence {
    Exact,
    Modeled,
    Sampled,
    MetadataOnly,
}

/// The confidence a template's confidence word gives.
pub open spec fn confidence_named(word: Seq<char>) -> InvariantConfidence {
    if word == "exact_template"@ || word == "exact"@ {
        InvariantConfidence::Exact
    } else if word == "sampled"@ {
        InvariantConfidence::Sampled
    } else if word == "metadata-only"@ || word == "metadata_only"@ {
        InvariantConfidence::MetadataOnly
    } else {
        InvariantConfidence::Modeled
    }
}

/// The confidence a template's confidence word gives; unknown words are modeled.
pub fn invariant_confidence(confidence: &str) -> (r: InvariantConfidence)
    ensures
        r == confidence_named(confidence@),
{
    if str_equals(confidence, "exact_template") || str_equals(confidence, "exact") {
        InvariantConfidence::Exact
    } else if str_equals(confidence, "sampled") {
        InvariantConfidence::Sampled
    } else if str_equals(confidence, "metadata-only") || str_equals(confidence, "metadata_only") {
        InvariantConfidence::MetadataOnly
    } else {
        InvariantConfidence::Modeled
    }
}

/// The kind of a trace event.
#[derive(Clone, Copy, Debug, PartialEq, Eq, Structural)]
pub enum TraceEventKind {
    Create,
    Discharge,
    Transfer,
    Move,
    Escape,
    Return,
    ErrorExit,
    Panic,
    Cancel,
    OpaqueBoundary,
}

/// The trace event of an obligation event, for the kinds the trace records.
pub open spec fn trace_kind_of(kind: ObligationEventKind) -> Option<TraceEventKind> {
    match kind {
        ObligationEventKind::Create => Some(TraceEventKind::Create),
        ObligationEventKind::Discharge => Some(TraceEventKind::Discharge),
        ObligationEventKind::Transfer => Some(TraceEventKind::Transfer),
        ObligationEventKind::Move => Some(TraceEventKind::Move),
        ObligationEventKind::Escape => Some(TraceEventKind::Escape),
        ObligationEventKind::BranchUnresolved | ObligationEventKind::UnsupportedContainer
        | ObligationEventKind::Call => None,
    }
}

/// The trace event of an obligation event, for the kinds the trace records.
pub fn trace_event_kind(kind: &ObligationEventKind) -> (r: Option<TraceEventKind>)
    ensures
        r == trace_kind_of(*kind),
{
    match kind {
        ObligationEventKind::Create => Some(TraceEventKind::Create),
        ObligationEventKind::Discharge => Some(TraceEventKind::Discharge),
        ObligationEventKind::Transfer => Some(TraceEventKind::Transfer),
        ObligationEventKind::Move => Some(TraceEventKind::Move),
        ObligationEventKind::Escape => Some(TraceEventKind::Escape),
        ObligationEventKind::BranchUnresolved | ObligationEventKind::UnsupportedContainer
        | ObligationEventKind::Call => None,
    }
}

/// The statement index an event id `stmt-<n>` names.
pub open spec fn statement_index_named(id: Seq<char>) -> Option<nat> {
    if id.len() >= "stmt-"@.len() && id.take("stmt-"@.len() as int) == "stmt-"@ {
        parse_unsigned(id.skip("stmt-"@.len() as int), usize::MAX as nat)
    } else {
        None
    }
}

/// The statement index an event id `stmt-<n>` names.
pub fn statement_index_from_event(event_id: &str) -> (r: Option<usize>)
    ensures
        match r {
            Some(i) => statement_index_named(event_id@) == Some(i as nat),
            None => statement_index_named(event_id@) is None,
        },
{
    let s = chars_of(event_id);
    let p = chars_of("stmt-");
    if !crate::text::starts_with_at_exec(s.as_slice(), p.as_slice(), 0, s.len()) {
        proof {
            if s@.len() >= p@.len() && s@.take(p@.len() as int) == p@ {
                assert(s@.subrange(0, p@.len() as int) =~= s@.take(p@.len() as int));
            }
        }
        return None;
    }
    proof {
        assert(s@.subrange(0, p@.len() as int) =~= s@.take(p@.len() as int));
        assert(s@.skip(p@.len() as int) =~= s@.subrange(p@.len() as int, s@.len() as int));
    }
    parse_usize(s.as_slice(), p.len(), s.len())
}

/// The obligation kind of a `no_pending(<kind>)` invariant expression.
pub open spec fn no_pending_kind(expression: Seq<char>) -> Option<Seq<char>> {
    let open = "no_pending("@;
    if expression.len() >= open.len() + 1 && expression.take(open.len() as int) == open
        && expression.last() == ')' && trimmed(expression.subrange(open.len() as int, expression.len() - 1)).len() > 0 {
        Some(trimmed(expression.subrange(open.len() as int, expression.len() - 1)))
    } else {
        None
    }
}

/// The obligation kind of a `no_pending(<kind>)` invariant expression.
pub fn no_pending_obligation_kind(expression: &str) -> (kind: Option<String>)
    ensures
        opt_chars(kind) == no_pending_kind(expression@),
{
    let s = chars_of(expression);
    let open = chars_of("no_pending(");
    let n = s.len();
    if n <= open.len() || !crate::text::starts_with_at_exec(s.as_slice(), open.as_slice(), 0, n) || s[n - 1] != ')' {
        proof {
            if n >= open@.len() + 1 && s@.take(open@.len() as int) == open@ {
                assert(s@.subrange(0, open@.len() as int) =~= s@.take(open@.len() as int));
            }
        }
        return None;
    }
    proof {
        assert(s@.subrange(0, open@.len() as int) =~= s@.take(open@.len() as int));
    }
    let inner = copy_range(s.as_slice(), open.len(), n - 1);
    let (a, b) = trim_range(inner.as_slice(), 0, inner.len());
    proof {
        assert(inner@.subrange(0, inner@.len() as int) =~= inner@);
    }
    if a >= b {
        return None;
    }
    let kind = copy_range(inner.as_slice(), a, b);
    Some(string_from_chars(kind.as_slice()))
}

/// The bindings of the create events whose blocks lie in the fact's loop.
pub open spec fn created_in_loop(fact: CoreLoopBackEdgeFact, events: Seq<ObligationEvent>) -> Seq<Seq<char>>
    decreases events.len(),
{
    if events.len() == 0 {
        Seq::empty()
    } else {
        let prev = created_in_loop(fact, events.drop_last());
        let e = events.last();
        if e.kind == ObligationEventKind::Create && e.binding is Some
            && exists|j: int| 0 <= j < e.loop_regions@.len() && (#[trigger] e.loop_regions@[j])@ == fact.loop_id@ {
            prev.push(e.binding->0@)
        } else {
            prev
        }
    }
}

/// The bindings created in the loop of `fact`, in event order.
pub fn created_bindings_for_loop(fact: &CoreLoopBackEdgeFact, obligation_events: &[ObligationEvent]) -> (bindings: Vec<String>)
    ensures
        bindings@.map_values(|b: String| b@) == created_in_loop(*fact, obligation_events@),
{
    let mut bindings: Vec<String> = Vec::new();
    let mut i: usize = 0;
    proof {
        assert(bindings@.map_values(|b: String| b@) =~= created_in_loop(*fact, obligation_events@.take(0)));
    }
    while i < obligation_events.len()
        invariant
            i <= obligation_events@.len(),
            bindings@.map_values(|b: String| b@) == created_in_loop(*fact, obligation_events@.take(i as int)),
        decreases obligation_events@.len() - i,
    {
        let event = &obligation_events[i];
        proof {
            assert(obligation_events@.take(i + 1).drop_last() =~= obligation_events@.take(i as int));
            assert(obligation_events@.take(i + 1).last() == *event);
        }
        if event.kind == ObligationEventKind::Create {
            let mut in_loop = false;
            let mut j: usize = 0;
            while j < event.loop_regions.len()
                invariant
                    j <= event.loop_regions@.len(),
                    in_loop == exists|q: int| 0 <= q < j && (#[trigger] event.loop_regions@[q])@ == fact.loop_id@,
                decreases event.loop_regions@.len() - j,
            {
                if str_equals(event.loop_regions[j].as_str(), fact.loop_id.as_str()) {
                    in_loop = true;
                }
                j = j + 1;
            }
            if in_loop {
                match &event.binding {
                    Some(b) => {
                        let ghost before = bindings@;
                        bindings.push(b.clone());
                        proof {
                            assert(bindings@.map_values(|x: String| x@) =~= before.map_values(|x: String| x@).push(b@));
                        }
                    },
                    None => {},
                }
            }
        }
        i = i + 1;
    }
    proof {
        assert(obligation_events@.take(i as int) =~= obligation_events@);
    }
    bindings
}

/// The states of the checked bindings in an environment, in binding order.
pub open spec fn states_for(env: Option<ObligationEnv>, checked: Seq<Seq<char>>) -> Seq<ObligationState> {
    match env {
        Some(e) => e.listed().filter(|s: ObligationState| checked.contains(s.binding@)),
        None => Seq::empty(),
    }
}

/// The states of the listed bindings, in binding order.
pub fn env_states_for_bindings(env: &ObligationEnv, bindings: &[String]) -> (states: Vec<ObligationState>)
    requires
        env.wf(),
    ensures
        states@ == states_for(Some(*env), texts(bindings@)),
{
    let ghost names = texts(bindings@);
    let ghost keep = |s: ObligationState| names.contains(s.binding@);
    let all = crate::replay::env_states(env);
    let mut states: Vec<ObligationState> = Vec::new();
    let mut i: usize = 0;
    proof {
        assert(all@.take(0).filter(keep) =~= Seq::<ObligationState>::empty());
    }
    while i < all.len()
        invariant
            i <= all@.len(),
            all@ == env.listed(),
            names == texts(bindings@),
            forall|s: ObligationState| #[trigger] keep(s) == names.contains(s.binding@),
            states@ == all@.take(i as int).filter(keep),
        decreases all@.len() - i,
    {
        let state = &all[i];
        let mut listed = false;
        let mut j: usize = 0;
        while j < bindings.len()
            invariant
                j <= bindings@.len(),
                names == texts(bindings@),
                listed == exists|q: int| 0 <= q < j && (#[trigger] names[q]) == state.binding@,
            decreases bindings@.len() - j,
        {
            proof {
                assert(names[j as int] == bindings@[j as int]@);
            }
            if str_equals(bindings[j].as_str(), state.binding.as_str()) {
                listed = true;
            }
            j = j + 1;
        }
        proof {
            assert(listed == names.contains(state.binding@));
            assert(all@.take(i + 1).drop_last() =~= all@.take(i as int));
            assert(all@.take(i + 1).last() == *state);
            all@.take(i as int).lemma_filter_push(*state, keep);
            assert(all@.take(i as int).push(*state) =~= all@.take(i + 1));
        }
        if listed {
            states.push(ObligationState { binding: state.binding.clone(), state: state.state });
        }
        i = i + 1;
    }
    proof {
        assert(all@.take(i as int) =~= all@);
        assert(keep =~= (|s: ObligationState| names.contains(s.binding@)));
    }
    states
}

/// The per-function summary of a certificate.
#[derive(Debug)]
pub struct FunctionSummary {
    pub function: String,
    pub event_count: usize,
    pub entry_env: Vec<ObligationState>,
    pub exit_env: Vec<ObligationState>,
}

pub(crate) fn copy_states(states: &[ObligationState]) -> (r: Vec<ObligationState>)
    ensures
        r@ == states@,
{
    let mut r: Vec<ObligationState> = Vec::new();
    let mut i: usize = 0;
    while i < states.len()
        invariant
            i <= states@.len(),
            r@ == states@.take(i as int),
        decreases states@.len() - i,
    {
        r.push(ObligationState { binding: states[i].binding.clone(), state: states[i].state });
        proof {
            assert(r@ =~= states@.take(i + 1));
        }
        i = i + 1;
    }
    proof {
        assert(states@.take(i as int) =~= states@);
    }
    r
}

/// One summary for the program's target function.
pub fn function_summaries(program: &ScenarioProgram, entry_env: &[ObligationState], exit_env: &[ObligationState], event_count: usize) -> (summaries: Vec<FunctionSummary>)
    ensures
        summaries@.len() == 1,
        summaries@[0].function == program.target,
        summaries@[0].event_count == event_count,
        summaries@[0].entry_env@ == entry_env@,
        summaries@[0].exit_env@ == exit_env@,
{
    vec![FunctionSummary {
        function: program.target.clone(),
        event_count: event_count,
        entry_env: copy_states(entry_env),
        exit_env: copy_states(exit_env),
    }]
}

/// Something the certificate does not cover.
#[derive(Debug)]
pub struct CoverageLoss {
    pub kind: String,
    pub label: String,
    pub reason: String,
}

/// `loss` records `label` under `kind` with `reason`.
pub open spec fn loss_of(loss: CoverageLoss, kind: Seq<char>, label: String, reason: Seq<char>) -> bool {
    loss.kind@ == kind && loss.label == label && loss.reason@ == reason
}

/// One loss per unsupported construct, then one per opaque boundary.
pub fn coverage_loss(program: &ScenarioProgram) -> (losses: Vec<CoverageLoss>)
    ensures
        losses@.len() == program.coverage.unsupported_constructs@.len() + program.coverage.opaque_boundaries@.len(),
        forall|k: int| 0 <= k < program.coverage.unsupported_constructs@.len() ==> loss_of(#[trigger] losses@[k],
            "unsupported_construct"@, program.coverage.unsupported_constructs@[k],
            "not modeled in current Core proof certificate"@),
        forall|k: int| 0 <= k < program.coverage.opaque_boundaries@.len() ==> loss_of(
            #[trigger] losses@[program.coverage.unsupported_constructs@.len() + k], "opaque_boundary"@,
            program.coverage.opaque_boundaries@[k], "opaque boundary requires ledger evidence before exact replay"@),
{
    let unsupported = &program.coverage.unsupported_constructs;
    let opaque = &program.coverage.opaque_boundaries;
    let mut losses: Vec<CoverageLoss> = Vec::new();
    let mut i: usize = 0;
    while i < unsupported.len()
        invariant
            i <= unsupported@.len(),
            losses@.len() == i,
            forall|k: int| 0 <= k < i ==> loss_of(#[trigger] losses@[k], "unsupported_construct"@, unsupported@[k],
                "not modeled in current Core proof certificate"@),
        decreases unsupported@.len() - i,
    {
        losses.push(CoverageLoss {
            kind: crate::config::owned("unsupported_construct"),
            label: unsupported[i].clone(),
            reason: crate::config::owned("not modeled in current Core proof certificate"),
        });
        i = i + 1;
    }
    let base = losses.len();
    let mut j: usize = 0;
    while j < opaque.len()
        invariant
            base == unsupported@.len(),
            j <= opaque@.len(),
            losses@.len() == base + j,
            forall|k: int| 0 <= k < base ==> loss_of(#[trigger] losses@[k], "unsupported_construct"@, unsupported@[k],
                "not modeled in current Core proof certificate"@),
            forall|k: int| 0 <= k < j ==> loss_of(#[trigger] losses@[base + k], "opaque_boundary"@, opaque@[k],
                "opaque boundary requires ledger evidence before exact replay"@),
        decreases opaque@.len() - j,
    {
        losses.push(CoverageLoss {
            kind: crate::config::owned("opaque_boundary"),
            label: opaque[j].clone(),
            reason: crate::config::owned("opaque boundary requires ledger evidence before exact replay"),
        });
        proof {
            assert(losses@[base + j as int].label == opaque@[j as int]);
        }
        j = j + 1;
    }
    losses
}

/// The byte offset of the first occurrence of a non-empty `needle` (`str::find`).
pub open spec fn find_offset(hay: Seq<char>, needle: Seq<char>) -> Option<int> {
    match first_match(hay, needle, 0, hay.len() as int) {
        Some(k) => Some(utf8_len(hay.take(k)) as int),
        None => None,
    }
}

/// The byte offset of the first occurrence of `needle` in `hay`.
pub fn find_text(hay: &[char], needle: &[char]) -> (r: Option<usize>)
    requires
        utf8_len(hay@) <= usize::MAX,
        needle@.len() > 0,
    ensures
        opt_usize(r) == find_offset(hay@, needle@),
        r matches Some(off) ==> byte_boundary(hay@, off as int),
{
    proof {
        lemma_first_match(hay@, needle@, 0, hay@.len() as int);
    }
    match find_in(hay, needle, 0, hay.len()) {
        Some(k) => {
            proof {
                assert(hay@.subrange(0, k as int) =~= hay@.take(k as int));
                crate::source_spans::lemma_prefix_bytes_bounded(hay@, k as int);
                assert(hay@.take(k as int).len() == k);
            }
            let off = crate::text::utf8_len_range(hay, 0, k);
            Some(off)
        },
        None => None,
    }
}

pub open spec fn opt_usize(o: Option<usize>) -> Option<int> {
    match o {
        Some(v) => Some(v as int),
        None => None,
    }
}

/// Where a binding is introduced: the first `let <binding>`, else the first
/// `let mut <binding>`, else the start of the source.
pub open spec fn binding_offset(source: Seq<char>, binding: Seq<char>) -> int {
    match find_offset(source, "let "@ + binding) {
        Some(off) => off,
        None => match find_offset(source, "let mut "@ + binding) {
            Some(off) => off,
            None => 0,
        },
    }
}

/// `span` is the source span of the byte range from `start`, as long as `len` bytes.
pub open spec fn range_span(span: SourceSpan, path: Seq<char>, source: Seq<char>, start: int, len: int) -> bool {
    let end = if start + len <= usize::MAX { start + len } else { usize::MAX as int };
    &&& span.path@ == path
    &&& span.start as int == clamp_offset(source, start)
    &&& span.end as int == clamp_offset(source, if end > span.start + 1 { end } else { span.start + 1 })
    &&& span.mapped == (span.end > span.start)
    &&& span.line == line_of_offset(source, start)
    &&& span.snippet@ == snippet_at(source, chars_before_byte(source, span.start as int))
}

/// The span of a binding's introduction.
pub fn source_span_for_binding(source_path: &str, source: &str, binding: &str) -> (span: SourceSpan)
    requires
        utf8_len(source@) < usize::MAX,
        utf8_len(binding@) <= usize::MAX,
    ensures
        range_span(span, source_path@, source@, binding_offset(source@, binding@), utf8_len(binding@) as int),
{
    let s = chars_of(source);
    let b = chars_of(binding);
    let mut let_binding = chars_of("let ");
    crate::text::push_all(&mut let_binding, b.as_slice());
    let mut let_mut_binding = chars_of("let mut ");
    crate::text::push_all(&mut let_mut_binding, b.as_slice());
    proof {
        reveal_strlit("let ");
        reveal_strlit("let mut ");
    }
    let start = match find_text(s.as_slice(), let_binding.as_slice()) {
        Some(off) => off,
        None => match find_text(s.as_slice(), let_mut_binding.as_slice()) {
            Some(off) => off,
            None => 0,
        },
    };
    proof {
        assert(s@.take(0) =~= Seq::<char>::empty());
        assert(b@.subrange(0, b@.len() as int) =~= b@);
        crate::source_spans::lemma_prefix_bytes_bounded(s@, s@.len() as int);
        assert(s@.take(s@.len() as int) =~= s@);
    }
    let len = crate::text::utf8_len_range(b.as_slice(), 0, b.len());
    let end = start.saturating_add(len);
    source_span_from_range(source_path, source, start, end)
}

/// The span of a user invariant's expression: its first occurrence, else the
/// start of the source.
pub fn source_span_for_user_invariant(source_path: &str, source: &str, expression: &str) -> (span: SourceSpan)
    requires
        utf8_len(source@) < usize::MAX,
        utf8_len(expression@) <= usize::MAX,
    ensures
        range_span(span, source_path@, source@,
            if expression@.len() == 0 { 0 } else {
                match find_offset(source@, expression@) { Some(off) => off, None => 0 }
            },
            utf8_len(expression@) as int),
{
    let s = chars_of(source);
    let e = chars_of(expression);
    let start = if e.len() == 0 {
        0
    } else {
        match find_text(s.as_slice(), e.as_slice()) {
            Some(off) => off,
            None => 0,
        }
    };
    proof {
        assert(s@.take(0) =~= Seq::<char>::empty());
        assert(utf8_len(s@.take(0)) == 0);
        assert(s@.take(s@.len() as int) =~= s@);
        assert(byte_boundary(s@, utf8_len(s@) as int));
        assert(byte_boundary(s@, start as int));
        assert(e@.subrange(0, e@.len() as int) =~= e@);
    }
    let len = crate::text::utf8_len_range(e.as_slice(), 0, e.len());
    let end = start.saturating_add(len);
    source_span_from_range(source_path, source, start, end)
}

} // verus!
