//! Proof events in the generated Rust source: each operation of a scenario
//! program that is a proof event is anchored at a matching event that a parse
//! of the generated source found, and the lowering trace lists, for each
//! anchored event, where it was lowered to.
use vstd::prelude::*;
use crate::config::{clone_opt_string, owned};
use crate::core_cfg::opt_chars;
use crate::evidence::TraceEventKind;
use crate::scenario::{KoboSpan, ScenarioCoreTerminatorKind, ScenarioLifecycleTemplate, ScenarioOpKind,
    ScenarioOperation, ScenarioProgram};
use crate::sourcemap::{EntryView, KoboSourceMap, LoweringTraceEvent, RsSpan, SourceMapEntry, TraceEventView, entry_views, trace_views, discharge_anchor_detail, discharge_detail, last_path_segment_text,
    last_segment, proof_source_map_entry_id};
use crate::strings::{decimal_text, push_decimal};
use crate::templates::{lifecycle_template_version, template_for_binding, template_of, template_version};
use crate::traces::terminator_trace_kind;
use crate::text::str_equals;

verus! {

/// The name of a trace event kind.
pub open spec fn kind_text(kind: TraceEventKind) -> Seq<char> {
    match kind {
        TraceEventKind::Create => "create"@,
        TraceEventKind::Discharge => "discharge"@,
        TraceEventKind::Transfer => "transfer"@,
        TraceEventKind::Move => "move"@,
        TraceEventKind::Escape => "escape"@,
        TraceEventKind::Return => "return"@,
        TraceEventKind::ErrorExit => "error_exit"@,
        TraceEventKind::Panic => "panic"@,
        TraceEventKind::Cancel => "cancel"@,
        TraceEventKind::OpaqueBoundary => "opaque_boundary"@,
    }
}

/// The name of a trace event kind.
pub fn trace_kind_name(kind: TraceEventKind) -> (name: String)
    ensures
        name@ == kind_text(kind),
{
    match kind {
        TraceEventKind::Create => owned("create"),
        TraceEventKind::Discharge => owned("discharge"),
        TraceEventKind::Transfer => owned("transfer"),
        TraceEventKind::Move => owned("move"),
        TraceEventKind::Escape => owned("escape"),
        TraceEventKind::Return => owned("return"),
        TraceEventKind::ErrorExit => owned("error_exit"),
        TraceEventKind::Panic => owned("panic"),
        TraceEventKind::Cancel => owned("cancel"),
        TraceEventKind::OpaqueBoundary => owned("opaque_boundary"),
    }
}

/// An operation that acts on an obligation (and is a Core statement).
pub open spec fn is_obligation_op(kind: ScenarioOpKind) -> bool {
    ||| kind is CreateObligation
    ||| kind is Discharge
    ||| kind is Transfer
    ||| kind is MoveBinding
    ||| kind is ExternalBoundary
}

fn obligation_op(kind: &ScenarioOpKind) -> (r: bool)
    ensures
        r == is_obligation_op(*kind),
{
    match kind {
        ScenarioOpKind::CreateObligation { .. } | ScenarioOpKind::Discharge { .. } | ScenarioOpKind::Transfer { .. }
        | ScenarioOpKind::MoveBinding { .. } | ScenarioOpKind::ExternalBoundary { .. } => true,
        _ => false,
    }
}

/// The Core event id of operation `order` of `function`: a statement for an
/// obligation operation, else a terminator.
pub open spec fn core_event_name(function: Seq<char>, order: int, kind: ScenarioOpKind) -> Seq<char> {
    "core-"@ + function + (if is_obligation_op(kind) { "-stmt-"@ } else { "-term-"@ }) + decimal_text(order as nat)
}

/// The Core event id of operation `order` of `function`.
pub fn core_event_id_for_operation(function: &str, order: usize, kind: &ScenarioOpKind) -> (id: String)
    ensures
        id@ == core_event_name(function@, order as int, *kind),
{
    let mut id = owned("core-");
    id.append(function);
    if obligation_op(kind) {
        id.append("-stmt-");
    } else {
        id.append("-term-");
    }
    push_decimal(&mut id, order as u64);
    id
}

/// What an operation is as a proof event: its kind, the binding it concerns
/// and the lifecycle template that binding follows (its own, for a creation
/// that names one, else that of the binding's last creation with one).
pub open spec fn lowering_source(ops: Seq<crate::scenario::ScenarioOperation>, kind: ScenarioOpKind)
    -> Option<(TraceEventKind, Option<Seq<char>>, Option<ScenarioLifecycleTemplate>)>
{
    match kind {
        ScenarioOpKind::CreateObligation { binding, template, .. } => Some((TraceEventKind::Create, Some(binding@),
            match template {
                Some(t) => Some(t),
                None => template_of(ops, binding@),
            })),
        ScenarioOpKind::Discharge { binding, .. } => Some((TraceEventKind::Discharge, Some(binding@), template_of(ops, binding@))),
        ScenarioOpKind::Transfer { binding, .. } => Some((TraceEventKind::Transfer, Some(binding@), template_of(ops, binding@))),
        ScenarioOpKind::MoveBinding { binding } => Some((TraceEventKind::Move, Some(binding@), template_of(ops, binding@))),
        ScenarioOpKind::ExternalBoundary { .. } => Some((TraceEventKind::Escape, None, None)),
        ScenarioOpKind::Return => Some((TraceEventKind::Return, None, None)),
        ScenarioOpKind::CoreTerminator { kind, .. } => Some((terminator_trace_kind(kind), None, None)),
        _ => None,
    }
}

/// An operation as a proof event, with the id and version of its template.
#[derive(Debug)]
pub struct LoweringEvent {
    pub kind: TraceEventKind,
    pub binding: Option<String>,
    pub template_id: Option<String>,
    pub template_version: Option<String>,
}

/// `e` is the proof event that `lowering_source` gives.
pub open spec fn event_is(e: LoweringEvent, source: (TraceEventKind, Option<Seq<char>>, Option<ScenarioLifecycleTemplate>)) -> bool {
    &&& e.kind == source.0
    &&& opt_chars(e.binding) == source.1
    &&& opt_chars(e.template_id) == match source.2 {
        Some(t) => Some(t.id@),
        None => None,
    }
    &&& opt_chars(e.template_version) == match source.2 {
        Some(t) => Some(template_version(t)),
        None => None,
    }
}

fn with_template(kind: TraceEventKind, binding: &String, template: Option<&ScenarioLifecycleTemplate>) -> (e: LoweringEvent)
    ensures
        e.kind == kind,
        opt_chars(e.binding) == Some(binding@),
        opt_chars(e.template_id) == match template {
            Some(t) => Some(t.id@),
            None => None,
        },
        opt_chars(e.template_version) == match template {
            Some(t) => Some(template_version(*t)),
            None => None,
        },
{
    match template {
        Some(t) => LoweringEvent {
            kind: kind,
            binding: Some(binding.clone()),
            template_id: Some(t.id.clone()),
            template_version: Some(lifecycle_template_version(t)),
        },
        None => LoweringEvent { kind: kind, binding: Some(binding.clone()), template_id: None, template_version: None },
    }
}

fn bare_event(kind: TraceEventKind) -> (e: LoweringEvent)
    ensures
        e.kind == kind,
        e.binding is None,
        e.template_id is None,
        e.template_version is None,
{
    LoweringEvent { kind: kind, binding: None, template_id: None, template_version: None }
}

/// An operation of `program` as a proof event, where it is one.
pub fn lowering_event_from_operation(program: &ScenarioProgram, kind: &ScenarioOpKind) -> (r: Option<LoweringEvent>)
    ensures
        match r {
            Some(e) => lowering_source(program.operations@, *kind) matches Some(source) && event_is(e, source),
            None => lowering_source(program.operations@, *kind) is None,
        },
{
    match kind {
        ScenarioOpKind::CreateObligation { binding, template, .. } => {
            let t = match template {
                Some(t) => Some(t),
                None => template_for_binding(program, binding.as_str()),
            };
            Some(with_template(TraceEventKind::Create, binding, t))
        },
        ScenarioOpKind::Discharge { binding, .. } => {
            Some(with_template(TraceEventKind::Discharge, binding, template_for_binding(program, binding.as_str())))
        },
        ScenarioOpKind::Transfer { binding, .. } => {
            Some(with_template(TraceEventKind::Transfer, binding, template_for_binding(program, binding.as_str())))
        },
        ScenarioOpKind::MoveBinding { binding } => {
            Some(with_template(TraceEventKind::Move, binding, template_for_binding(program, binding.as_str())))
        },
        ScenarioOpKind::ExternalBoundary { .. } => Some(bare_event(TraceEventKind::Escape)),
        ScenarioOpKind::Return => Some(bare_event(TraceEventKind::Return)),
        ScenarioOpKind::CoreTerminator { kind, .. } => {
            Some(bare_event(crate::traces::trace_event_kind_from_terminator(kind)))
        },
        _ => None,
    }
}

/// The role of a generated proof event.
#[derive(Clone, Copy, Debug, PartialEq, Eq, Structural)]
pub enum GeneratedProofEventRole {
    Create,
    Discharge,
    Transfer,
    Move,
    Escape,
    ReturnFunction,
    ReturnTerminator,
    ErrorExit,
    Panic,
    Cancel,
    OpaqueBoundary,
}

/// The role an operation's anchor plays in the generated source.
pub open spec fn role_of(kind: ScenarioOpKind) -> Option<GeneratedProofEventRole> {
    match kind {
        ScenarioOpKind::CreateObligation { .. } => Some(GeneratedProofEventRole::Create),
        ScenarioOpKind::Discharge { .. } => Some(GeneratedProofEventRole::Discharge),
        ScenarioOpKind::Transfer { .. } => Some(GeneratedProofEventRole::Transfer),
        ScenarioOpKind::MoveBinding { .. } => Some(GeneratedProofEventRole::Move),
        ScenarioOpKind::ExternalBoundary { .. } => Some(GeneratedProofEventRole::Escape),
        ScenarioOpKind::Return => Some(GeneratedProofEventRole::ReturnFunction),
        ScenarioOpKind::CoreTerminator { kind, .. } => Some(match kind {
            ScenarioCoreTerminatorKind::Return => GeneratedProofEventRole::ReturnTerminator,
            ScenarioCoreTerminatorKind::ErrorExit => GeneratedProofEventRole::ErrorExit,
            ScenarioCoreTerminatorKind::Panic => GeneratedProofEventRole::Panic,
            ScenarioCoreTerminatorKind::Await => GeneratedProofEventRole::Cancel,
            ScenarioCoreTerminatorKind::OpaqueBoundary => GeneratedProofEventRole::OpaqueBoundary,
        }),
        _ => None,
    }
}

/// The role an operation's anchor plays in the generated source.
pub fn generated_anchor_role(kind: &ScenarioOpKind) -> (r: Option<GeneratedProofEventRole>)
    ensures
        r == role_of(*kind),
{
    match kind {
        ScenarioOpKind::CreateObligation { .. } => Some(GeneratedProofEventRole::Create),
        ScenarioOpKind::Discharge { .. } => Some(GeneratedProofEventRole::Discharge),
        ScenarioOpKind::Transfer { .. } => Some(GeneratedProofEventRole::Transfer),
        ScenarioOpKind::MoveBinding { .. } => Some(GeneratedProofEventRole::Move),
        ScenarioOpKind::ExternalBoundary { .. } => Some(GeneratedProofEventRole::Escape),
        ScenarioOpKind::Return => Some(GeneratedProofEventRole::ReturnFunction),
        ScenarioOpKind::CoreTerminator { kind, .. } => Some(match kind {
            ScenarioCoreTerminatorKind::Return => GeneratedProofEventRole::ReturnTerminator,
            ScenarioCoreTerminatorKind::ErrorExit => GeneratedProofEventRole::ErrorExit,
            ScenarioCoreTerminatorKind::Panic => GeneratedProofEventRole::Panic,
            ScenarioCoreTerminatorKind::Await => GeneratedProofEventRole::Cancel,
            ScenarioCoreTerminatorKind::OpaqueBoundary => GeneratedProofEventRole::OpaqueBoundary,
        }),
        _ => None,
    }
}

/// The detail an operation's anchor records: a discharge's action, a
/// transfer's callee, the last segment of an external call's path (else its
/// crate), an opaque terminator's boundary.
pub open spec fn detail_of(kind: ScenarioOpKind) -> Option<Seq<char>> {
    match kind {
        ScenarioOpKind::Discharge { action, .. } => Some(discharge_detail(action@)),
        ScenarioOpKind::Transfer { callee, .. } => Some(callee@),
        ScenarioOpKind::ExternalBoundary { call_path, crate_name, .. } => Some(match call_path {
            Some(p) => match last_segment(p@) {
                Some(s) => s,
                None => crate_name@,
            },
            None => crate_name@,
        }),
        ScenarioOpKind::CoreTerminator { kind: ScenarioCoreTerminatorKind::OpaqueBoundary, boundary } => opt_chars(boundary),
        _ => None,
    }
}

/// The detail an operation's anchor records.
pub fn generated_anchor_detail(kind: &ScenarioOpKind) -> (r: Option<String>)
    ensures
        opt_chars(r) == detail_of(*kind),
{
    match kind {
        ScenarioOpKind::Discharge { action, .. } => Some(discharge_anchor_detail(action.as_str())),
        ScenarioOpKind::Transfer { callee, .. } => Some(callee.clone()),
        ScenarioOpKind::ExternalBoundary { call_path, crate_name, .. } => {
            let segment = match call_path {
                Some(p) => last_path_segment_text(p.as_str()),
                None => None,
            };
            Some(match segment {
                Some(s) => s,
                None => crate_name.clone(),
            })
        },
        ScenarioOpKind::CoreTerminator { kind: ScenarioCoreTerminatorKind::OpaqueBoundary, boundary } => clone_opt_string(boundary),
        _ => None,
    }
}

/// An event that a parse of the generated source found: the function it is
/// in, its kind, binding, detail and role, and its span.
#[derive(Debug)]
pub struct GeneratedProofEventAnchor {
    pub function: String,
    pub kind: TraceEventKind,
    pub binding: Option<String>,
    pub detail: Option<String>,
    pub role: GeneratedProofEventRole,
    pub rs_span: RsSpan,
}

/// `a` is an anchor for an event of `kind`, `binding`, `detail` and `role`
/// in `function`.
pub open spec fn anchor_fits(a: GeneratedProofEventAnchor, function: Seq<char>, kind: TraceEventKind, binding: Option<Seq<char>>, detail: Option<Seq<char>>, role: GeneratedProofEventRole) -> bool {
    &&& a.function@ == function
    &&& a.kind == kind
    &&& opt_chars(a.binding) == binding
    &&& opt_chars(a.detail) == detail
    &&& a.role == role
}

/// The first of the first `n` anchors that is not used yet and fits.
pub open spec fn free_anchor(anchors: Seq<GeneratedProofEventAnchor>, used: Seq<bool>, function: Seq<char>, kind: TraceEventKind, binding: Option<Seq<char>>, detail: Option<Seq<char>>, role: GeneratedProofEventRole, n: int) -> Option<int>
    decreases n,
{
    if n <= 0 {
        None
    } else {
        match free_anchor(anchors, used, function, kind, binding, detail, role, n - 1) {
            Some(k) => Some(k),
            None => if !used[n - 1] && anchor_fits(anchors[n - 1], function, kind, binding, detail, role) {
                Some(n - 1)
            } else {
                None
            },
        }
    }
}

proof fn lemma_free_anchor_stays(anchors: Seq<GeneratedProofEventAnchor>, used: Seq<bool>, function: Seq<char>, kind: TraceEventKind, binding: Option<Seq<char>>, detail: Option<Seq<char>>, role: GeneratedProofEventRole, m: int, n: int)
    requires
        0 <= m <= n,
        free_anchor(anchors, used, function, kind, binding, detail, role, m) is Some,
    ensures
        free_anchor(anchors, used, function, kind, binding, detail, role, n) == free_anchor(anchors, used, function, kind, binding, detail, role, m),
    decreases n - m,
{
    if n > m {
        lemma_free_anchor_stays(anchors, used, function, kind, binding, detail, role, m, n - 1);
    }
}

fn same_opt(a: &Option<String>, b: &Option<String>) -> (r: bool)
    ensures
        r == (opt_chars(*a) == opt_chars(*b)),
{
    match (a, b) {
        (Some(x), Some(y)) => str_equals(x.as_str(), y.as_str()),
        (None, None) => true,
        _ => false,
    }
}

fn find_free_anchor(anchors: &[GeneratedProofEventAnchor], used: &Vec<bool>, function: &String, kind: TraceEventKind, binding: &Option<String>, detail: &Option<String>, role: GeneratedProofEventRole) -> (r: Option<usize>)
    requires
        used@.len() == anchors@.len(),
    ensures
        match r {
            Some(k) => k < anchors@.len() && free_anchor(anchors@, used@, function@, kind, opt_chars(*binding), opt_chars(*detail), role, anchors@.len() as int) == Some(k as int),
            None => free_anchor(anchors@, used@, function@, kind, opt_chars(*binding), opt_chars(*detail), role, anchors@.len() as int) is None,
        },
{
    let mut k: usize = 0;
    while k < anchors.len()
        invariant
            k <= anchors@.len(),
            used@.len() == anchors@.len(),
            free_anchor(anchors@, used@, function@, kind, opt_chars(*binding), opt_chars(*detail), role, k as int) is None,
        decreases anchors@.len() - k,
    {
        let a = &anchors[k];
        if !used[k] && str_equals(a.function.as_str(), function.as_str()) && a.kind == kind
            && same_opt(&a.binding, binding) && same_opt(&a.detail, detail) && a.role == role {
            proof {
                lemma_free_anchor_stays(anchors@, used@, function@, kind, opt_chars(*binding), opt_chars(*detail), role, k + 1, anchors@.len() as int);
            }
            return Some(k);
        }
        k = k + 1;
    }
    None
}

/// The id of the proof source-map entry of operation `order` of `function`.
pub open spec fn map_entry_name(function: Seq<char>, order: int) -> Seq<char> {
    "proof-map-"@ + function + "-"@ + decimal_text(order as nat)
}

/// Some entry has this id and Core event id.
pub open spec fn has_entry(entries: Seq<EntryView>, id: Seq<char>, core: Seq<char>) -> bool {
    exists|k: int| 0 <= k < entries.len() && (#[trigger] entries[k]).id == id && entries[k].core_event_id == Some(core)
}

/// Whether some entry has this id and Core event id.
pub fn has_core_event_anchor(entries: &Vec<SourceMapEntry>, source_map_entry_id: &String, core_event_id: &String) -> (r: bool)
    ensures
        r == has_entry(entry_views(entries@), source_map_entry_id@, core_event_id@),
{
    let ghost views = entry_views(entries@);
    let mut k: usize = 0;
    while k < entries.len()
        invariant
            k <= entries@.len(),
            views == entry_views(entries@),
            forall|j: int| 0 <= j < k ==> !((#[trigger] views[j]).id == source_map_entry_id@ && views[j].core_event_id == Some(core_event_id@)),
        decreases entries@.len() - k,
    {
        let e = &entries[k];
        let matches_core = match &e.core_event_id {
            Some(c) => str_equals(c.as_str(), core_event_id.as_str()),
            None => false,
        };
        proof {
            assert(views[k as int] == entries@[k as int]@);
        }
        if str_equals(e.id.as_str(), source_map_entry_id.as_str()) && matches_core {
            return true;
        }
        k = k + 1;
    }
    false
}

/// Where anchoring stands: the entries so far and which anchors are used.
pub struct AnchoringState {
    pub entries: Seq<EntryView>,
    pub used: Seq<bool>,
}

/// The entry of an anchored proof event.
pub open spec fn proof_entry(program: ScenarioProgram, i: int, kind: TraceEventKind, binding: Option<Seq<char>>, rs_span: RsSpan) -> EntryView {
    let op = program.operations@[i];
    EntryView {
        id: map_entry_name(program.target@, i),
        core_event_id: Some(core_event_name(program.target@, i, op.kind)),
        binding_name: match binding {
            Some(b) => b,
            None => kind_text(kind),
        },
        rs_span: rs_span,
        kobo_span: op.span,
        ownership_tier: "proof-event"@,
        solver_outcome: None,
        decision_source: None,
        solver_node_id: None,
    }
}

/// Anchoring operation `i` of `program`: where it is a proof event without
/// an entry yet, the first free anchor that fits it is used and its entry
/// added.
pub open spec fn anchor_step(st: AnchoringState, program: ScenarioProgram, anchors: Seq<GeneratedProofEventAnchor>, i: int) -> AnchoringState {
    let op = program.operations@[i];
    match lowering_source(program.operations@, op.kind) {
        None => st,
        Some((kind, binding, _template)) => {
            if has_entry(st.entries, map_entry_name(program.target@, i), core_event_name(program.target@, i, op.kind)) {
                st
            } else {
                match role_of(op.kind) {
                    None => st,
                    Some(role) => match free_anchor(anchors, st.used, program.target@, kind, binding, detail_of(op.kind), role, anchors.len() as int) {
                        None => st,
                        Some(k) => AnchoringState {
                            entries: st.entries.push(proof_entry(program, i, kind, binding, anchors[k].rs_span)),
                            used: st.used.update(k, true),
                        },
                    },
                }
            }
        },
    }
}

/// The operations of the first `n` programs, as (program, operation) positions in order.
pub open spec fn op_sites(programs: Seq<ScenarioProgram>, n: int) -> Seq<(int, int)>
    decreases n,
{
    if n <= 0 {
        Seq::empty()
    } else {
        op_sites(programs, n - 1) + Seq::new(programs[n - 1].operations@.len(), |i: int| (n - 1, i))
    }
}

/// Anchoring the operations at `sites` in order.
pub open spec fn anchored(st: AnchoringState, programs: Seq<ScenarioProgram>, anchors: Seq<GeneratedProofEventAnchor>, sites: Seq<(int, int)>) -> AnchoringState
    decreases sites.len(),
{
    if sites.len() == 0 {
        st
    } else {
        anchor_step(anchored(st, programs, anchors, sites.drop_last()), programs[sites.last().0], anchors, sites.last().1)
    }
}

pub open spec fn state_of(entries: Seq<SourceMapEntry>, used: Seq<bool>) -> AnchoringState {
    AnchoringState { entries: entry_views(entries), used: used }
}

fn anchor_operation(entries: &mut Vec<SourceMapEntry>, used: &mut Vec<bool>, anchors: &[GeneratedProofEventAnchor], program: &ScenarioProgram, i: usize)
    requires
        i < program.operations@.len(),
        old(used)@.len() == anchors@.len(),
    ensures
        final(used)@.len() == anchors@.len(),
        state_of(final(entries)@, final(used)@) == anchor_step(state_of(old(entries)@, old(used)@), *program, anchors@, i as int),
{
    let operation = &program.operations[i];
    let event = match lowering_event_from_operation(program, &operation.kind) {
        Some(e) => e,
        None => return,
    };
    let core_event_id = core_event_id_for_operation(program.target.as_str(), i, &operation.kind);
    let source_map_entry_id = proof_source_map_entry_id(program.target.as_str(), i);
    if has_core_event_anchor(entries, &source_map_entry_id, &core_event_id) {
        return;
    }
    let role = match generated_anchor_role(&operation.kind) {
        Some(r) => r,
        None => return,
    };
    let detail = generated_anchor_detail(&operation.kind);
    let k = match find_free_anchor(anchors, used, &program.target, event.kind, &event.binding, &detail, role) {
        Some(k) => k,
        None => return,
    };
    used.set(k, true);
    let binding_name = match &event.binding {
        Some(b) => b.clone(),
        None => trace_kind_name(event.kind),
    };
    let ghost before = entries@;
    entries.push(SourceMapEntry {
        id: source_map_entry_id,
        core_event_id: Some(core_event_id),
        binding_name: binding_name,
        rs_span: anchors[k].rs_span,
        kobo_span: operation.span,
        ownership_tier: owned("proof-event"),
        solver_outcome: None,
        decision_source: None,
        solver_node_id: None,
    });
    proof {
        assert(entry_views(entries@) =~= entry_views(before).push(entries@.last()@));
    }
}

/// Anchoring only appends: the entries before it stay as they were, each added
/// entry is a proof event with a Core event id, and no added entry repeats the
/// id and Core event id of an entry before it.
pub open spec fn appends_proof_entries(before: Seq<EntryView>, after: Seq<EntryView>) -> bool {
    &&& before.len() <= after.len()
    &&& after.subrange(0, before.len() as int) == before
    &&& forall|k: int| before.len() <= k < after.len() ==> (#[trigger] after[k]).ownership_tier == "proof-event"@
        && after[k].core_event_id is Some
    &&& forall|j: int, k: int| 0 <= j < k < after.len() && before.len() <= k
        ==> !((#[trigger] after[j]).id == (#[trigger] after[k]).id && after[j].core_event_id == after[k].core_event_id)
}

/// Anchoring the operations at any sites, from any state, only appends proof
/// entries to the entries it starts from.
pub proof fn lemma_anchoring_appends(st: AnchoringState, programs: Seq<ScenarioProgram>, anchors: Seq<GeneratedProofEventAnchor>, sites: Seq<(int, int)>)
    ensures
        appends_proof_entries(st.entries, anchored(st, programs, anchors, sites).entries),
    decreases sites.len(),
{
    if sites.len() == 0 {
        assert(st.entries.subrange(0, st.entries.len() as int) =~= st.entries);
    } else {
        lemma_anchoring_appends(st, programs, anchors, sites.drop_last());
        let prev = anchored(st, programs, anchors, sites.drop_last());
        let program = programs[sites.last().0];
        let i = sites.last().1;
        let next = anchor_step(prev, program, anchors, i);
        if next.entries.len() != prev.entries.len() {
            let op = program.operations@[i];
            let id = map_entry_name(program.target@, i);
            let core = core_event_name(program.target@, i, op.kind);
            assert(!has_entry(prev.entries, id, core));
            let n = prev.entries.len() as int;
            assert(next.entries == prev.entries.push(next.entries[n]));
            assert(next.entries[n].id == id && next.entries[n].core_event_id == Some(core));
            assert(next.entries.subrange(0, st.entries.len() as int) =~= prev.entries.subrange(0, st.entries.len() as int));
            assert forall|j: int, k: int| 0 <= j < k < next.entries.len() && st.entries.len() <= k
                implies !((#[trigger] next.entries[j]).id == (#[trigger] next.entries[k]).id
                    && next.entries[j].core_event_id == next.entries[k].core_event_id) by {
                if k == n {
                    assert(next.entries[j] == prev.entries[j]);
                    if next.entries[j].id == id && next.entries[j].core_event_id == Some(core) {
                        assert(has_entry(prev.entries, id, core));
                    }
                } else {
                    assert(next.entries[j] == prev.entries[j] && next.entries[k] == prev.entries[k]);
                }
            }
            assert forall|k: int| st.entries.len() <= k < next.entries.len() implies (#[trigger] next.entries[k]).ownership_tier == "proof-event"@
                && next.entries[k].core_event_id is Some by {
                if k < n {
                    assert(next.entries[k] == prev.entries[k]);
                }
            }
        }
    }
}

/// Adds a source-map entry for each proof event of the programs that has
/// none yet, at the first unused anchor that a parse of the generated source
/// found for it; `anchors` are those events, in source order.
pub fn add_proof_event_source_entries(entries: &mut Vec<SourceMapEntry>, anchors: &[GeneratedProofEventAnchor], programs: &[ScenarioProgram])
    ensures
        entry_views(final(entries)@) == anchored(state_of(old(entries)@, Seq::new(anchors@.len(), |k: int| false)),
            programs@, anchors@, op_sites(programs@, programs@.len() as int)).entries,
        appends_proof_entries(entry_views(old(entries)@), entry_views(final(entries)@)),
{
    let ghost init = state_of(entries@, Seq::new(anchors@.len(), |k: int| false));
    let mut used: Vec<bool> = Vec::new();
    let mut k: usize = 0;
    while k < anchors.len()
        invariant
            k <= anchors@.len(),
            used@ == Seq::new(k as nat, |j: int| false),
        decreases anchors@.len() - k,
    {
        used.push(false);
        proof {
            assert(used@ =~= Seq::new((k + 1) as nat, |j: int| false));
        }
        k = k + 1;
    }
    proof {
        assert(state_of(entries@, used@) =~= init);
    }
    let mut p: usize = 0;
    while p < programs.len()
        invariant
            p <= programs@.len(),
            used@.len() == anchors@.len(),
            state_of(entries@, used@) == anchored(init, programs@, anchors@, op_sites(programs@, p as int)),
        decreases programs@.len() - p,
    {
        let mut i: usize = 0;
        while i < programs[p].operations.len()
            invariant
                p < programs@.len(),
                i <= programs@[p as int].operations@.len(),
                used@.len() == anchors@.len(),
                state_of(entries@, used@) == anchored(init, programs@, anchors@,
                    op_sites(programs@, p as int) + Seq::new(i as nat, |j: int| (p as int, j))),
            decreases programs@[p as int].operations@.len() - i,
        {
            let ghost sites = op_sites(programs@, p as int) + Seq::new(i as nat, |j: int| (p as int, j));
            anchor_operation(entries, &mut used, anchors, &programs[p], i);
            proof {
                let ghost next = sites.push((p as int, i as int));
                assert(next.drop_last() =~= sites);
                assert(next =~= op_sites(programs@, p as int) + Seq::new((i + 1) as nat, |j: int| (p as int, j)));
            }
            i = i + 1;
        }
        proof {
            assert(op_sites(programs@, p as int) + Seq::new(programs@[p as int].operations@.len(), |j: int| (p as int, j))
                =~= op_sites(programs@, p + 1));
        }
        p = p + 1;
    }
    proof {
        lemma_anchoring_appends(init, programs@, anchors@, op_sites(programs@, programs@.len() as int));
    }
}


/// Some operation acts on an obligation.
pub open spec fn has_obligation_events(ops: Seq<ScenarioOperation>) -> bool {
    exists|i: int| 0 <= i < ops.len() && is_obligation_op(#[trigger] ops[i].kind)
}

fn has_obligation_trace_events(program: &ScenarioProgram) -> (r: bool)
    ensures
        r == has_obligation_events(program.operations@),
{
    let mut i: usize = 0;
    while i < program.operations.len()
        invariant
            i <= program.operations@.len(),
            forall|j: int| 0 <= j < i ==> !is_obligation_op(#[trigger] program.operations@[j].kind),
        decreases program.operations@.len() - i,
    {
        if obligation_op(&program.operations[i].kind) {
            return true;
        }
        i = i + 1;
    }
    false
}

/// The first of the first `n` entries with this id and Core event id.
pub open spec fn anchor_index(entries: Seq<EntryView>, id: Seq<char>, core: Seq<char>, n: int) -> Option<int>
    decreases n,
{
    if n <= 0 {
        None
    } else {
        match anchor_index(entries, id, core, n - 1) {
            Some(k) => Some(k),
            None => if entries[n - 1].id == id && entries[n - 1].core_event_id == Some(core) {
                Some(n - 1)
            } else {
                None
            },
        }
    }
}

proof fn lemma_anchor_index(entries: Seq<EntryView>, id: Seq<char>, core: Seq<char>, n: int)
    requires
        0 <= n <= entries.len(),
    ensures
        anchor_index(entries, id, core, n) matches Some(k) ==> 0 <= k < n,
    decreases n,
{
    if n > 0 {
        lemma_anchor_index(entries, id, core, n - 1);
    }
}

proof fn lemma_anchor_index_stays(entries: Seq<EntryView>, id: Seq<char>, core: Seq<char>, m: int, n: int)
    requires
        m <= n,
        anchor_index(entries, id, core, m) is Some,
    ensures
        anchor_index(entries, id, core, n) == anchor_index(entries, id, core, m),
    decreases n - m,
{
    if n > m {
        lemma_anchor_index_stays(entries, id, core, m, n - 1);
    }
}

fn find_core_event_anchor(entries: &Vec<SourceMapEntry>, source_map_entry_id: &String, core_event_id: &String) -> (r: Option<usize>)
    ensures
        match r {
            Some(k) => anchor_index(entry_views(entries@), source_map_entry_id@, core_event_id@, entries@.len() as int) == Some(k as int),
            None => anchor_index(entry_views(entries@), source_map_entry_id@, core_event_id@, entries@.len() as int) is None,
        },
{
    let ghost views = entry_views(entries@);
    let mut k: usize = 0;
    while k < entries.len()
        invariant
            k <= entries@.len(),
            views == entry_views(entries@),
            anchor_index(views, source_map_entry_id@, core_event_id@, k as int) is None,
        decreases entries@.len() - k,
    {
        let e = &entries[k];
        let matches_core = match &e.core_event_id {
            Some(c) => str_equals(c.as_str(), core_event_id.as_str()),
            None => false,
        };
        proof {
            assert(views[k as int] == entries@[k as int]@);
        }
        if str_equals(e.id.as_str(), source_map_entry_id.as_str()) && matches_core {
            proof {
                assert(anchor_index(views, source_map_entry_id@, core_event_id@, k + 1) == Some(k as int));
                lemma_anchor_index_stays(views, source_map_entry_id@, core_event_id@, k + 1, entries@.len() as int);
            }
            return Some(k);
        }
        k = k + 1;
    }
    None
}

/// The id of the lowering trace event of operation `order` of `function`.
pub open spec fn trace_event_name(function: Seq<char>, order: int) -> Seq<char> {
    "lowering-"@ + function + "-"@ + decimal_text(order as nat)
}

/// The lowering trace event of operation `order` of `program`: where it is a
/// proof event (a return only where the program has obligation events) and
/// the first entry with its proof source-map id and Core event id anchors it.
pub open spec fn trace_event_at(program: ScenarioProgram, order: int, entries: Seq<EntryView>) -> Option<TraceEventView> {
    let op = program.operations@[order];
    if !has_obligation_events(program.operations@) && op.kind is Return {
        None
    } else {
        match lowering_source(program.operations@, op.kind) {
            None => None,
            Some((kind, binding, template)) => {
                let core = core_event_name(program.target@, order, op.kind);
                match anchor_index(entries, map_entry_name(program.target@, order), core, entries.len() as int) {
                    None => None,
                    Some(k) => Some(TraceEventView {
                        id: trace_event_name(program.target@, order),
                        core_event_id: core,
                        function: program.target@,
                        kind: kind_text(kind),
                        binding: binding,
                        order: order as u64,
                        source_map_entry_id: entries[k].id,
                        rs_span: entries[k].rs_span,
                        kobo_span: entries[k].kobo_span,
                        lowering_phase: "kobo-codegen"@,
                        template_id: match template {
                            Some(t) => Some(t.id@),
                            None => None,
                        },
                        template_version: match template {
                            Some(t) => Some(template_version(t)),
                            None => None,
                        },
                    }),
                }
            },
        }
    }
}

/// The lowering trace of the operations at `sites`, in order.
pub open spec fn trace_of(programs: Seq<ScenarioProgram>, entries: Seq<EntryView>, sites: Seq<(int, int)>) -> Seq<TraceEventView>
    decreases sites.len(),
{
    if sites.len() == 0 {
        Seq::empty()
    } else {
        let prev = trace_of(programs, entries, sites.drop_last());
        match trace_event_at(programs[sites.last().0], sites.last().1, entries) {
            Some(e) => prev.push(e),
            None => prev,
        }
    }
}

proof fn lemma_anchor_index_found(entries: Seq<EntryView>, id: Seq<char>, core: Seq<char>, n: int)
    requires
        0 <= n <= entries.len(),
    ensures
        match anchor_index(entries, id, core, n) {
            Some(k) => 0 <= k < n && entries[k].id == id && entries[k].core_event_id == Some(core),
            None => forall|j: int| 0 <= j < n ==> !((#[trigger] entries[j]).id == id && entries[j].core_event_id == Some(core)),
        },
    decreases n,
{
    if n > 0 {
        lemma_anchor_index_found(entries, id, core, n - 1);
    }
}

/// Some entry has the proof-map id of `function` and `order`, Core event id
/// `core`, and the id and spans of `ev`.
pub open spec fn anchored_by(entries: Seq<EntryView>, function: Seq<char>, order: int, core: Seq<char>, ev: TraceEventView) -> bool {
    exists|j: int| 0 <= j < entries.len() && (#[trigger] entries[j]).id == map_entry_name(function, order)
        && entries[j].core_event_id == Some(core) && entries[j].id == ev.source_map_entry_id
        && entries[j].rs_span == ev.rs_span && entries[j].kobo_span == ev.kobo_span
}

/// A lowering trace event never invents its anchor: an operation gets one
/// only where some entry has its proof-map id and its Core event id, and the
/// event then carries that entry's id and spans.
pub proof fn lemma_trace_event_anchored(program: ScenarioProgram, order: int, entries: Seq<EntryView>)
    requires
        0 <= order <= u64::MAX,
    ensures
        trace_event_at(program, order, entries) matches Some(ev) ==> ev.function == program.target@
            && ev.order as int == order
            && anchored_by(entries, ev.function, ev.order as int, ev.core_event_id, ev),
        (forall|j: int| 0 <= j < entries.len() ==> !((#[trigger] entries[j]).id == map_entry_name(program.target@, order)
            && entries[j].core_event_id == Some(core_event_name(program.target@, order, program.operations@[order].kind))))
            ==> trace_event_at(program, order, entries) is None,
{
    let op = program.operations@[order];
    let core = core_event_name(program.target@, order, op.kind);
    let id = map_entry_name(program.target@, order);
    lemma_anchor_index_found(entries, id, core, entries.len() as int);
    if let Some(ev) = trace_event_at(program, order, entries) {
        let k = anchor_index(entries, id, core, entries.len() as int)->0;
        assert(entries[k].id == map_entry_name(ev.function, ev.order as int));
    }
}

/// Every event of the lowering trace is anchored: some source-map entry has
/// the proof-map id of the event's function and order and the event's Core
/// event id, and the event carries that entry's id and spans.
pub proof fn lemma_lowering_trace_anchored(programs: Seq<ScenarioProgram>, entries: Seq<EntryView>, sites: Seq<(int, int)>)
    requires
        forall|s: int| 0 <= s < sites.len() ==> 0 <= (#[trigger] sites[s]).1 <= u64::MAX,
    ensures
        forall|k: int| 0 <= k < trace_of(programs, entries, sites).len() ==> {
            let ev = #[trigger] trace_of(programs, entries, sites)[k];
            anchored_by(entries, ev.function, ev.order as int, ev.core_event_id, ev)
        },
    decreases sites.len(),
{
    if sites.len() > 0 {
        let rest = sites.drop_last();
        assert forall|s: int| 0 <= s < rest.len() implies 0 <= (#[trigger] rest[s]).1 <= u64::MAX by {
            assert(rest[s] == sites[s]);
        }
        lemma_lowering_trace_anchored(programs, entries, rest);
        let last = sites.last();
        assert(sites[sites.len() - 1] == last);
        lemma_trace_event_anchored(programs[last.0], last.1, entries);
        let prev = trace_of(programs, entries, rest);
        let t = trace_of(programs, entries, sites);
        assert forall|k: int| 0 <= k < t.len() implies {
            let ev = #[trigger] t[k];
            anchored_by(entries, ev.function, ev.order as int, ev.core_event_id, ev)
        } by {
            if k < prev.len() {
                assert(t[k] == prev[k]);
            }
        }
    }
}

fn trace_event(program: &ScenarioProgram, order: usize, has_obligations: bool, entries: &Vec<SourceMapEntry>) -> (r: Option<LoweringTraceEvent>)
    requires
        order < program.operations@.len(),
        has_obligations == has_obligation_events(program.operations@),
    ensures
        match r {
            Some(e) => trace_event_at(*program, order as int, entry_views(entries@)) == Some(e@),
            None => trace_event_at(*program, order as int, entry_views(entries@)) is None,
        },
{
    let operation = &program.operations[order];
    let is_return = match operation.kind {
        ScenarioOpKind::Return => true,
        _ => false,
    };
    if !has_obligations && is_return {
        return None;
    }
    let event = match lowering_event_from_operation(program, &operation.kind) {
        Some(e) => e,
        None => return None,
    };
    let core_event_id = core_event_id_for_operation(program.target.as_str(), order, &operation.kind);
    let source_map_entry_id = proof_source_map_entry_id(program.target.as_str(), order);
    let k = match find_core_event_anchor(entries, &source_map_entry_id, &core_event_id) {
        Some(k) => k,
        None => return None,
    };
    proof {
        lemma_anchor_index(entry_views(entries@), source_map_entry_id@, core_event_id@, entries@.len() as int);
    }
    let anchor = &entries[k];
    let mut id = owned("lowering-");
    id.append(program.target.as_str());
    id.append("-");
    push_decimal(&mut id, order as u64);
    let e = LoweringTraceEvent {
        id: id,
        core_event_id: core_event_id,
        function: program.target.clone(),
        kind: trace_kind_name(event.kind),
        binding: event.binding,
        order: order as u64,
        source_map_entry_id: anchor.id.clone(),
        rs_span: anchor.rs_span,
        kobo_span: anchor.kobo_span,
        lowering_phase: owned("kobo-codegen"),
        template_id: event.template_id,
        template_version: event.template_version,
    };
    proof {
        let views = entry_views(entries@);
        assert(views[k as int] == entries@[k as int]@);
        assert(e@.id =~= trace_event_name(program.target@, order as int));
    }
    Some(e)
}

/// The lowering trace of the programs against a source map: for each
/// operation, in order, that is a proof event and whose proof source-map
/// entry the map holds, where that event was lowered to.
pub fn build_lowering_trace(programs: &[ScenarioProgram], source_map: &KoboSourceMap) -> (trace: Vec<LoweringTraceEvent>)
    ensures
        trace_views(trace@) == trace_of(programs@, entry_views(source_map.x_kobo_mappings@), op_sites(programs@, programs@.len() as int)),
        forall|k: int| 0 <= k < trace@.len() ==> anchored_by(entry_views(source_map.x_kobo_mappings@),
            (#[trigger] trace@[k])@.function, trace@[k]@.order as int, trace@[k]@.core_event_id, trace@[k]@),
{
    let ghost entries = entry_views(source_map.x_kobo_mappings@);
    let mut trace: Vec<LoweringTraceEvent> = Vec::new();
    let mut p: usize = 0;
    while p < programs.len()
        invariant
            p <= programs@.len(),
            entries == entry_views(source_map.x_kobo_mappings@),
            trace_views(trace@) == trace_of(programs@, entries, op_sites(programs@, p as int)),
            forall|k: int| 0 <= k < trace@.len() ==> anchored_by(entries,
                (#[trigger] trace@[k])@.function, trace@[k]@.order as int, trace@[k]@.core_event_id, trace@[k]@),
        decreases programs@.len() - p,
    {
        let program = &programs[p];
        let has_obligations = has_obligation_trace_events(program);
        let mut i: usize = 0;
        while i < program.operations.len()
            invariant
                p < programs@.len(),
                *program == programs@[p as int],
                has_obligations == has_obligation_events(program.operations@),
                i <= program.operations@.len(),
                entries == entry_views(source_map.x_kobo_mappings@),
                trace_views(trace@) == trace_of(programs@, entries,
                    op_sites(programs@, p as int) + Seq::new(i as nat, |j: int| (p as int, j))),
                forall|k: int| 0 <= k < trace@.len() ==> anchored_by(entries,
                    (#[trigger] trace@[k])@.function, trace@[k]@.order as int, trace@[k]@.core_event_id, trace@[k]@),
            decreases program.operations@.len() - i,
        {
            let ghost sites = op_sites(programs@, p as int) + Seq::new(i as nat, |j: int| (p as int, j));
            let ghost before = trace@;
            let ghost next = sites.push((p as int, i as int));
            let r = trace_event(program, i, has_obligations, &source_map.x_kobo_mappings);
            match r {
                Some(e) => {
                    let ghost ev = e@;
                    trace.push(e);
                    proof {
                        assert(trace_views(trace@) =~= trace_views(before).push(trace@.last()@));
                        lemma_trace_event_anchored(*program, i as int, entries);
                        assert forall|k: int| 0 <= k < trace@.len() implies anchored_by(entries,
                            (#[trigger] trace@[k])@.function, trace@[k]@.order as int, trace@[k]@.core_event_id, trace@[k]@) by {
                            if k < before.len() {
                                assert(trace@[k] == before[k]);
                            } else {
                                assert(trace@[k]@ == ev);
                            }
                        }
                    }
                },
                None => {},
            }
            proof {
                assert(next.drop_last() =~= sites);
                assert(next =~= op_sites(programs@, p as int) + Seq::new((i + 1) as nat, |j: int| (p as int, j)));
            }
            i = i + 1;
        }
        proof {
            assert(op_sites(programs@, p as int) + Seq::new(programs@[p as int].operations@.len(), |j: int| (p as int, j))
                =~= op_sites(programs@, p + 1));
        }
        p = p + 1;
    }
    trace
}

} // verus!
