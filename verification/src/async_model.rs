//! The async model of a program's Core functions: a suspension state for each
//! await with its resume and cancel edges, the locals and the owned
//! obligations that the suspended future holds, the cancel edge of an await
//! under a timeout, the winner and loser paths of each branch of a select, and
//! the spawned tasks whose obligations must be resolved.
use vstd::prelude::*;
use crate::config::clone_opt_string;
use crate::core_cfg::{CoreFunction, CoreTerminator, clone_span, has_prefix, opt_chars, span_for,
    starts_with_chars, terminator_spans_in};
use crate::evidence::{binding_offset, copy_states, range_span, source_span_for_binding};
use crate::invariants::{clone_strings, exit_env_of, replays_for};
use crate::obligations::{ObligationEnv, ObligationState, ObligationStatus, core_successor_target};
use crate::replay::{FunctionObligationReplay, env_states, find_last_block, function_obligation_replay};
use crate::scenario::{ScenarioOpKind, ScenarioOperation, ScenarioProgram};
use crate::source_spans::{SourceSpan, byte_boundary, clamp_offset, source_span_from_kobo};
use crate::strings::chars_of;
use crate::text::{str_equals, utf8_len};
use crate::await_liveness::{AsyncStmt, all_sorted, lemma_stmts_awaits_fit, live_locals_by_await_in_body, set_of,
    sets_of, stmts_awaits_upto, stmts_bindings_fit};
use crate::templates::texts;

verus! {

/// The suspension state of an await.
#[derive(Debug)]
pub struct SuspensionStateEvidence {
    pub id: String,
    pub function: String,
    pub block: String,
    pub terminator_kind: String,
    pub boundary: Option<String>,
    pub resume_edge: String,
    pub cancel_edge: String,
    pub source_span: SourceSpan,
}

/// An edge taken when a suspended future is dropped.
#[derive(Debug)]
pub struct CancelEdgeEvidence {
    pub id: String,
    pub function: String,
    pub from: String,
    pub to: String,
    pub reason: String,
    pub source_span: SourceSpan,
}

/// A local that a suspended future holds.
#[derive(Debug)]
pub struct FutureStateLocalEvidence {
    pub binding: String,
    pub suspension_state: String,
    pub source_span: SourceSpan,
}

/// An owned obligation that a suspended future holds.
#[derive(Debug)]
pub struct FutureStateObligationEvidence {
    pub binding: String,
    pub state: ObligationStatus,
    pub suspension_state: String,
    pub source_span: SourceSpan,
}

/// The cancel edge of an await under a timeout.
#[derive(Debug)]
pub struct TimeoutCancelEdgeEvidence {
    pub id: String,
    pub function: String,
    pub suspension_state: String,
    pub source: String,
    pub cancel_edge: String,
    pub source_span: SourceSpan,
}

/// One path out of a select branch: its winner or its cancelled loser, with
/// the obligation states at its target and those the loser cancels.
#[derive(Debug)]
pub struct SelectPathEvidence {
    pub id: String,
    pub function: String,
    pub branch_block: String,
    pub branch_target: String,
    pub path_kind: String,
    pub obligation_results: Vec<ObligationState>,
    pub cancelled_obligations: Vec<ObligationState>,
    pub source_span: SourceSpan,
}

/// A spawned task and the actions that resolve its obligation.
#[derive(Debug)]
pub struct SpawnedTaskObligationEvidence {
    pub binding: String,
    pub required_resolution: Vec<String>,
    pub source_span: SourceSpan,
}

/// The async model of a program.
#[derive(Debug)]
pub struct AsyncModelEvidence {
    pub suspension_states: Vec<SuspensionStateEvidence>,
    pub cancel_edges: Vec<CancelEdgeEvidence>,
    pub future_state_locals: Vec<FutureStateLocalEvidence>,
    pub future_state_obligations: Vec<FutureStateObligationEvidence>,
    pub timeout_cancel_edges: Vec<TimeoutCancelEdgeEvidence>,
    pub select_paths: Vec<SelectPathEvidence>,
    pub spawned_task_obligations: Vec<SpawnedTaskObligationEvidence>,
}

/// The terminators of the first `n` blocks of function `f`, as
/// (function, block, terminator) positions in order.
pub open spec fn block_term_sites(f: int, blocks: Seq<crate::core_cfg::CoreBlock>, n: int) -> Seq<(int, int, int)>
    decreases n,
{
    if n <= 0 {
        Seq::empty()
    } else {
        block_term_sites(f, blocks, n - 1) + Seq::new(blocks[n - 1].terminators@.len(), |t: int| (f, n - 1, t))
    }
}

/// The terminators of the first `n` functions, as positions in order.
pub open spec fn term_sites(fs: Seq<CoreFunction>, n: int) -> Seq<(int, int, int)>
    decreases n,
{
    if n <= 0 {
        Seq::empty()
    } else {
        term_sites(fs, n - 1) + block_term_sites(n - 1, fs[n - 1].blocks@, fs[n - 1].blocks@.len() as int)
    }
}

/// The terminator at a position.
pub open spec fn term_at(fs: Seq<CoreFunction>, s: (int, int, int)) -> CoreTerminator {
    fs[s.0].blocks@[s.1].terminators@[s.2]
}

/// The id of the suspension state of the await at a position:
/// `<function>:<block>:<terminator>`.
pub open spec fn suspension_name(fs: Seq<CoreFunction>, s: (int, int, int)) -> Seq<char> {
    fs[s.0].name@ + ":"@ + fs[s.0].blocks@[s.1].id@ + ":"@ + term_at(fs, s).id@
}

pub open spec fn is_await(fs: Seq<CoreFunction>, s: (int, int, int)) -> bool {
    term_at(fs, s).kind@ == "await"@
}

pub open spec fn is_branch(fs: Seq<CoreFunction>, s: (int, int, int)) -> bool {
    term_at(fs, s).kind@ == "branch"@
}

/// An await at the timeout boundary of the runtime.
pub open spec fn is_timeout(fs: Seq<CoreFunction>, s: (int, int, int)) -> bool {
    is_await(fs, s) && opt_chars(term_at(fs, s).boundary) == Some("tokio::time::timeout"@)
}

/// The awaits among `sites`, in order.
pub open spec fn awaits(fs: Seq<CoreFunction>, sites: Seq<(int, int, int)>) -> Seq<(int, int, int)>
    decreases sites.len(),
{
    if sites.len() == 0 {
        Seq::empty()
    } else if is_await(fs, sites.last()) {
        awaits(fs, sites.drop_last()).push(sites.last())
    } else {
        awaits(fs, sites.drop_last())
    }
}

/// The awaits under a timeout among `sites`, in order.
pub open spec fn timeouts(fs: Seq<CoreFunction>, sites: Seq<(int, int, int)>) -> Seq<(int, int, int)>
    decreases sites.len(),
{
    if sites.len() == 0 {
        Seq::empty()
    } else if is_timeout(fs, sites.last()) {
        timeouts(fs, sites.drop_last()).push(sites.last())
    } else {
        timeouts(fs, sites.drop_last())
    }
}

/// The states an optional environment lists (none where there is none).
pub open spec fn states_of(env: Option<ObligationEnv>) -> Seq<ObligationState> {
    match env {
        Some(e) => e.listed(),
        None => Seq::empty(),
    }
}

/// The replayed exit states of the block of a terminator position.
pub open spec fn block_exit_states(fs: Seq<CoreFunction>, replays: Seq<FunctionObligationReplay>, s: (int, int, int)) -> Seq<ObligationState> {
    states_of(exit_env_of(fs[s.0], replays[s.0], fs[s.0].blocks@[s.1].id@))
}

/// The owned states among `states`, in order.
pub open spec fn owned_states(states: Seq<ObligationState>) -> Seq<ObligationState>
    decreases states.len(),
{
    if states.len() == 0 {
        Seq::empty()
    } else if states.last().state == ObligationStatus::Owned {
        owned_states(states.drop_last()).push(states.last())
    } else {
        owned_states(states.drop_last())
    }
}

/// For each await among `sites`, its position beside each local that the
/// locals listed for that await (by its place among the awaits) name.
pub open spec fn local_positions(fs: Seq<CoreFunction>, live: Seq<Vec<String>>, sites: Seq<(int, int, int)>) -> Seq<((int, int, int), Seq<char>)>
    decreases sites.len(),
{
    if sites.len() == 0 {
        Seq::empty()
    } else if is_await(fs, sites.last()) {
        let j = awaits(fs, sites.drop_last()).len();
        let s = sites.last();
        let locals: Seq<String> = if j < live.len() { live[j as int]@ } else { Seq::empty() };
        local_positions(fs, live, sites.drop_last()) + locals.map_values(|l: String| (s, l@))
    } else {
        local_positions(fs, live, sites.drop_last())
    }
}

/// For each await among `sites`, its position beside each owned state of its
/// block's exit.
pub open spec fn obligation_positions(fs: Seq<CoreFunction>, replays: Seq<FunctionObligationReplay>, sites: Seq<(int, int, int)>) -> Seq<((int, int, int), ObligationState)>
    decreases sites.len(),
{
    if sites.len() == 0 {
        Seq::empty()
    } else if is_await(fs, sites.last()) {
        let s = sites.last();
        obligation_positions(fs, replays, sites.drop_last())
            + owned_states(block_exit_states(fs, replays, s)).map_values(|st: ObligationState| (s, st))
    } else {
        obligation_positions(fs, replays, sites.drop_last())
    }
}

/// The targets of the first `n` edges that start with `goto:`.
pub open spec fn goto_targets(edges: Seq<String>, n: int) -> Seq<Seq<char>>
    decreases n,
{
    if n <= 0 {
        Seq::empty()
    } else if has_prefix(edges[n - 1]@, "goto:"@) {
        goto_targets(edges, n - 1).push(edges[n - 1]@.skip("goto:"@.len() as int))
    } else {
        goto_targets(edges, n - 1)
    }
}

/// For a branch at `s`, the winner and then the loser path of each target.
pub open spec fn select_pairs(s: (int, int, int), targets: Seq<Seq<char>>) -> Seq<((int, int, int), Seq<char>, bool)>
    decreases targets.len(),
{
    if targets.len() == 0 {
        Seq::empty()
    } else {
        select_pairs(s, targets.drop_last()) + seq![(s, targets.last(), false), (s, targets.last(), true)]
    }
}

/// The select paths of the branches among `sites`, in order.
pub open spec fn select_positions(fs: Seq<CoreFunction>, sites: Seq<(int, int, int)>) -> Seq<((int, int, int), Seq<char>, bool)>
    decreases sites.len(),
{
    if sites.len() == 0 {
        Seq::empty()
    } else if is_branch(fs, sites.last()) {
        let s = sites.last();
        select_positions(fs, sites.drop_last())
            + select_pairs(s, goto_targets(term_at(fs, s).edges@, term_at(fs, s).edges@.len() as int))
    } else {
        select_positions(fs, sites.drop_last())
    }
}

/// The name of a select path: its loser or its winner.
pub open spec fn path_kind_name(loser: bool) -> Seq<char> {
    if loser { "loser_cancel"@ } else { "winner"@ }
}

/// `e` is the suspension state of the await at `s`.
pub open spec fn suspension_at(e: SuspensionStateEvidence, fs: Seq<CoreFunction>, s: (int, int, int), path: Seq<char>, source: Seq<char>) -> bool {
    &&& e.id@ == suspension_name(fs, s)
    &&& e.function@ == fs[s.0].name@
    &&& e.block@ == fs[s.0].blocks@[s.1].id@
    &&& e.terminator_kind@ == "await"@
    &&& opt_chars(e.boundary) == opt_chars(term_at(fs, s).boundary)
    &&& e.resume_edge@ == "await_resume"@
    &&& e.cancel_edge@ == "await_cancel"@
    &&& span_for(e.source_span, path, source, term_at(fs, s).source_span)
}

/// `e` is the edge taken when the future suspended at `s` is dropped.
pub open spec fn cancel_at(e: CancelEdgeEvidence, fs: Seq<CoreFunction>, s: (int, int, int), path: Seq<char>, source: Seq<char>) -> bool {
    &&& e.id@ == suspension_name(fs, s) + ":future-drop"@
    &&& e.function@ == fs[s.0].name@
    &&& e.from@ == fs[s.0].blocks@[s.1].id@
    &&& e.to@ == "await_cancel"@
    &&& e.reason@ == "future_drop"@
    &&& span_for(e.source_span, path, source, term_at(fs, s).source_span)
}

/// `e` is the timeout cancel edge of the await at `s`.
pub open spec fn timeout_at(e: TimeoutCancelEdgeEvidence, fs: Seq<CoreFunction>, s: (int, int, int), path: Seq<char>, source: Seq<char>) -> bool {
    &&& e.id@ == suspension_name(fs, s) + ":timeout"@
    &&& e.function@ == fs[s.0].name@
    &&& e.suspension_state@ == suspension_name(fs, s)
    &&& e.source@ == "tokio::time::timeout"@
    &&& e.cancel_edge@ == "await_cancel"@
    &&& span_for(e.source_span, path, source, term_at(fs, s).source_span)
}

/// `e` is the local `p.1` held at the await at `p.0`.
pub open spec fn local_at(e: FutureStateLocalEvidence, fs: Seq<CoreFunction>, p: ((int, int, int), Seq<char>), path: Seq<char>, source: Seq<char>) -> bool {
    &&& e.binding@ == p.1
    &&& e.suspension_state@ == suspension_name(fs, p.0)
    &&& range_span(e.source_span, path, source, binding_offset(source, p.1), utf8_len(p.1) as int)
}

/// `e` is the owned obligation `p.1` held at the await at `p.0`.
pub open spec fn obligation_at(e: FutureStateObligationEvidence, fs: Seq<CoreFunction>, p: ((int, int, int), ObligationState), path: Seq<char>, source: Seq<char>) -> bool {
    &&& e.binding@ == p.1.binding@
    &&& e.state == p.1.state
    &&& e.suspension_state@ == suspension_name(fs, p.0)
    &&& span_for(e.source_span, path, source, term_at(fs, p.0).source_span)
}

/// `e` is the select path `p` of a branch: to target `p.1`, the loser where `p.2`.
pub open spec fn select_at(e: SelectPathEvidence, fs: Seq<CoreFunction>, replays: Seq<FunctionObligationReplay>, p: ((int, int, int), Seq<char>, bool), path: Seq<char>, source: Seq<char>) -> bool {
    let s = p.0;
    &&& e.id@ == suspension_name(fs, s) + ":"@ + p.1 + ":"@ + path_kind_name(p.2)
    &&& e.function@ == fs[s.0].name@
    &&& e.branch_block@ == fs[s.0].blocks@[s.1].id@
    &&& e.branch_target@ == p.1
    &&& e.path_kind@ == path_kind_name(p.2)
    &&& e.obligation_results@ == states_of(exit_env_of(fs[s.0], replays[s.0], p.1))
    &&& e.cancelled_obligations@ == if p.2 { owned_states(block_exit_states(fs, replays, s)) } else { Seq::empty() }
    &&& span_for(e.source_span, path, source, term_at(fs, s).source_span)
}

/// The model holds, for the terminators at `sites`, exactly their records.
pub open spec fn model_ok(m: AsyncModelEvidence, fs: Seq<CoreFunction>, replays: Seq<FunctionObligationReplay>, live: Seq<Vec<String>>, sites: Seq<(int, int, int)>, path: Seq<char>, source: Seq<char>) -> bool {
    let aw = awaits(fs, sites);
    let to = timeouts(fs, sites);
    let lo = local_positions(fs, live, sites);
    let ob = obligation_positions(fs, replays, sites);
    let se = select_positions(fs, sites);
    &&& m.suspension_states@.len() == aw.len()
    &&& forall|i: int| 0 <= i < aw.len() ==> suspension_at(#[trigger] m.suspension_states@[i], fs, aw[i], path, source)
    &&& m.cancel_edges@.len() == aw.len()
    &&& forall|i: int| 0 <= i < aw.len() ==> cancel_at(#[trigger] m.cancel_edges@[i], fs, aw[i], path, source)
    &&& m.timeout_cancel_edges@.len() == to.len()
    &&& forall|i: int| 0 <= i < to.len() ==> timeout_at(#[trigger] m.timeout_cancel_edges@[i], fs, to[i], path, source)
    &&& m.future_state_locals@.len() == lo.len()
    &&& forall|i: int| 0 <= i < lo.len() ==> local_at(#[trigger] m.future_state_locals@[i], fs, lo[i], path, source)
    &&& m.future_state_obligations@.len() == ob.len()
    &&& forall|i: int| 0 <= i < ob.len() ==> obligation_at(#[trigger] m.future_state_obligations@[i], fs, ob[i], path, source)
    &&& m.select_paths@.len() == se.len()
    &&& forall|i: int| 0 <= i < se.len() ==> select_at(#[trigger] m.select_paths@[i], fs, replays, se[i], path, source)
}

/// Every listed local is short enough to measure in bytes.
pub open spec fn locals_fit(live: Seq<Vec<String>>) -> bool {
    forall|j: int, k: int| 0 <= j < live.len() && 0 <= k < live[j]@.len() ==> utf8_len((#[trigger] live[j]@[k])@) <= usize::MAX
}

fn joined_name(parts: &[&String]) -> (id: String)
    requires
        parts@.len() == 3,
    ensures
        id@ == parts@[0]@ + ":"@ + parts@[1]@ + ":"@ + parts@[2]@,
{
    let mut id = parts[0].clone();
    id.append(":");
    id.append(parts[1].as_str());
    id.append(":");
    id.append(parts[2].as_str());
    id
}

fn with_suffix(id: &String, suffix: &str) -> (r: String)
    ensures
        r@ == id@ + suffix@,
{
    let mut r = id.clone();
    r.append(suffix);
    r
}

/// The states an optional replayed environment lists.
fn exit_states_for(function: &CoreFunction, replay: &FunctionObligationReplay, id: &str) -> (states: Vec<ObligationState>)
    requires
        crate::replay::replay_ok(*function, *replay),
    ensures
        states@ == states_of(exit_env_of(*function, *replay, id@)),
{
    match find_last_block(function.blocks.as_slice(), id) {
        Some(p) => {
            match &replay.block_exit_envs[p] {
                Some(env) => {
                    proof {
                        assert(replay.block_exit_envs@[p as int] is Some);
                    }
                    env_states(env)
                },
                None => Vec::new(),
            }
        },
        None => Vec::new(),
    }
}

/// The owned states among `states`, in order.
fn owned_of(states: &Vec<ObligationState>) -> (r: Vec<ObligationState>)
    ensures
        r@ == owned_states(states@),
{
    let mut r: Vec<ObligationState> = Vec::new();
    let mut i: usize = 0;
    while i < states.len()
        invariant
            i <= states@.len(),
            r@ == owned_states(states@.take(i as int)),
        decreases states@.len() - i,
    {
        proof {
            assert(states@.take(i + 1).drop_last() =~= states@.take(i as int));
        }
        if states[i].state == ObligationStatus::Owned {
            r.push(ObligationState { binding: states[i].binding.clone(), state: states[i].state });
        }
        i = i + 1;
    }
    proof {
        assert(states@.take(i as int) =~= states@);
    }
    r
}

/// The locals records of the await at `s`, one per local, in order.
fn local_records(source_path: &str, source: &str, id: &String, locals: &Vec<String>, Ghost(fs): Ghost<Seq<CoreFunction>>, Ghost(s): Ghost<(int, int, int)>) -> (r: Vec<FutureStateLocalEvidence>)
    requires
        id@ == suspension_name(fs, s),
        utf8_len(source@) < usize::MAX,
        forall|k: int| 0 <= k < locals@.len() ==> utf8_len((#[trigger] locals@[k])@) <= usize::MAX,
    ensures
        r@.len() == locals@.len(),
        forall|k: int| 0 <= k < locals@.len() ==> local_at(#[trigger] r@[k], fs, (s, locals@[k]@), source_path@, source@),
{
    let mut r: Vec<FutureStateLocalEvidence> = Vec::new();
    let mut k: usize = 0;
    while k < locals.len()
        invariant
            k <= locals@.len(),
            r@.len() == k,
            id@ == suspension_name(fs, s),
            utf8_len(source@) < usize::MAX,
            forall|j: int| 0 <= j < locals@.len() ==> utf8_len((#[trigger] locals@[j])@) <= usize::MAX,
            forall|j: int| 0 <= j < k ==> local_at(#[trigger] r@[j], fs, (s, locals@[j]@), source_path@, source@),
        decreases locals@.len() - k,
    {
        let ghost before = r@;
        let span = source_span_for_binding(source_path, source, locals[k].as_str());
        r.push(FutureStateLocalEvidence {
            binding: locals[k].clone(),
            suspension_state: id.clone(),
            source_span: span,
        });
        proof {
            assert forall|j: int| 0 <= j < k + 1 implies local_at(#[trigger] r@[j], fs, (s, locals@[j]@), source_path@, source@) by {
                if j < k {
                    assert(r@[j] == before[j]);
                }
            }
        }
        k = k + 1;
    }
    r
}

/// The owned-obligation records of the await at `s`, one per owned state, in order.
fn obligation_records(id: &String, owned: &Vec<ObligationState>, span: &SourceSpan, Ghost(fs): Ghost<Seq<CoreFunction>>, Ghost(s): Ghost<(int, int, int)>, Ghost(path): Ghost<Seq<char>>, Ghost(source): Ghost<Seq<char>>) -> (r: Vec<FutureStateObligationEvidence>)
    requires
        id@ == suspension_name(fs, s),
        span_for(*span, path, source, term_at(fs, s).source_span),
    ensures
        r@.len() == owned@.len(),
        forall|k: int| 0 <= k < owned@.len() ==> obligation_at(#[trigger] r@[k], fs, (s, owned@[k]), path, source),
{
    let mut r: Vec<FutureStateObligationEvidence> = Vec::new();
    let mut k: usize = 0;
    while k < owned.len()
        invariant
            k <= owned@.len(),
            r@.len() == k,
            id@ == suspension_name(fs, s),
            span_for(*span, path, source, term_at(fs, s).source_span),
            forall|j: int| 0 <= j < k ==> obligation_at(#[trigger] r@[j], fs, (s, owned@[j]), path, source),
        decreases owned@.len() - k,
    {
        let ghost before = r@;
        r.push(FutureStateObligationEvidence {
            binding: owned[k].binding.clone(),
            state: owned[k].state,
            suspension_state: id.clone(),
            source_span: clone_span(span),
        });
        proof {
            assert forall|j: int| 0 <= j < k + 1 implies obligation_at(#[trigger] r@[j], fs, (s, owned@[j]), path, source) by {
                if j < k {
                    assert(r@[j] == before[j]);
                }
            }
        }
        k = k + 1;
    }
    r
}

/// What the terminator-recording steps need of their arguments.
pub open spec fn step_ready(functions: Seq<CoreFunction>, replays: Seq<FunctionObligationReplay>, live: Seq<Vec<String>>, source: Seq<char>, f: int, b: int, t: int) -> bool {
    &&& 0 <= f < functions.len()
    &&& 0 <= b < functions[f].blocks@.len()
    &&& 0 <= t < functions[f].blocks@[b].terminators@.len()
    &&& replays_for(functions, replays)
    &&& utf8_len(source) < usize::MAX
    &&& terminator_spans_in(functions, source)
    &&& locals_fit(live)
}

/// Records the suspension state of the await at (`f`, `b`, `t`): its
/// future-drop cancel edge, the locals and owned obligations that the future
/// holds there, and its timeout cancel edge where it awaits a timeout.
fn record_await(source_path: &str, source: &str, functions: &[CoreFunction], replays: &[FunctionObligationReplay], live: &[Vec<String>], f: usize, b: usize, t: usize, model: &mut AsyncModelEvidence, Ghost(sites): Ghost<Seq<(int, int, int)>>)
    requires
        step_ready(functions@, replays@, live@, source@, f as int, b as int, t as int),
        is_await(functions@, (f as int, b as int, t as int)),
        model_ok(*old(model), functions@, replays@, live@, sites, source_path@, source@),
    ensures
        model_ok(*final(model), functions@, replays@, live@, sites.push((f as int, b as int, t as int)), source_path@, source@),
{
    let ghost fs = functions@;
    let ghost s = (f as int, b as int, t as int);
    let ghost next = sites.push(s);
    let ghost path = source_path@;
    let ghost src = source@;
    proof {
        assert(next.drop_last() =~= sites);
        assert(next.last() == s);
        reveal_strlit("await");
        reveal_strlit("branch");
        assert("await"@[0] != "branch"@[0]);
        assert(!is_branch(fs, s));
        assert(replays@[f as int] == replays[f as int]);
    }
    let function = &functions[f];
    let block = &function.blocks[b];
    let terminator = &block.terminators[t];
    let id = joined_name(&[&function.name, &block.id, &terminator.id]);
    let span = source_span_from_kobo(source_path, source, terminator.source_span);
    let exit = exit_states_for(function, &replays[f], block.id.as_str());
    let await_index = model.suspension_states.len();
    let ghost old_model_locals = model.future_state_locals@;
    let ghost old_model_obligations = model.future_state_obligations@;
    model.suspension_states.push(SuspensionStateEvidence {
        id: id.clone(),
        function: function.name.clone(),
        block: block.id.clone(),
        terminator_kind: crate::config::owned("await"),
        boundary: clone_opt_string(&terminator.boundary),
        resume_edge: crate::config::owned("await_resume"),
        cancel_edge: crate::config::owned("await_cancel"),
        source_span: clone_span(&span),
    });
    model.cancel_edges.push(CancelEdgeEvidence {
        id: with_suffix(&id, ":future-drop"),
        function: function.name.clone(),
        from: block.id.clone(),
        to: crate::config::owned("await_cancel"),
        reason: crate::config::owned("future_drop"),
        source_span: clone_span(&span),
    });
    proof {
        let aw = awaits(fs, sites);
        assert(awaits(fs, next) == aw.push(s));
        assert forall|i: int| 0 <= i < aw.len() + 1 implies suspension_at(#[trigger] model.suspension_states@[i], fs, aw.push(s)[i], path, src) by {
            if i < aw.len() {
                assert(model.suspension_states@[i] == old(model).suspension_states@[i]);
            }
        }
        assert forall|i: int| 0 <= i < aw.len() + 1 implies cancel_at(#[trigger] model.cancel_edges@[i], fs, aw.push(s)[i], path, src) by {
            if i < aw.len() {
                assert(model.cancel_edges@[i] == old(model).cancel_edges@[i]);
            }
        }
    }
    let empty: Vec<String> = Vec::new();
    let locals = if await_index < live.len() { &live[await_index] } else { &empty };
    let mut new_locals = local_records(source_path, source, &id, locals, Ghost(fs), Ghost(s));
    let owned = owned_of(&exit);
    let mut new_obligations = obligation_records(&id, &owned, &span, Ghost(fs), Ghost(s), Ghost(path), Ghost(src));
    let ghost old_locals = model.future_state_locals@;
    let ghost old_obligations = model.future_state_obligations@;
    let ghost added_locals = new_locals@;
    let ghost added_obligations = new_obligations@;
    model.future_state_locals.append(&mut new_locals);
    model.future_state_obligations.append(&mut new_obligations);
    proof {
        let lo = local_positions(fs, live@, sites);
        let ltail = locals@.map_values(|l: String| (s, l@));
        assert(local_positions(fs, live@, next) == lo + ltail);
        assert forall|i: int| 0 <= i < lo.len() + ltail.len() implies local_at(#[trigger] model.future_state_locals@[i], fs, (lo + ltail)[i], path, src) by {
            if i < lo.len() {
                assert(model.future_state_locals@[i] == old_locals[i]);
            } else {
                assert(model.future_state_locals@[i] == added_locals[i - lo.len()]);
            }
        }
        let ob = obligation_positions(fs, replays@, sites);
        let otail = owned_states(block_exit_states(fs, replays@, s)).map_values(|st: ObligationState| (s, st));
        assert(obligation_positions(fs, replays@, next) == ob + otail);
        assert forall|i: int| 0 <= i < ob.len() + otail.len() implies obligation_at(#[trigger] model.future_state_obligations@[i], fs, (ob + otail)[i], path, src) by {
            if i < ob.len() {
                assert(model.future_state_obligations@[i] == old_obligations[i]);
            } else {
                assert(model.future_state_obligations@[i] == added_obligations[i - ob.len()]);
            }
        }
    }
    let under_timeout = match &terminator.boundary {
        Some(boundary) => str_equals(boundary.as_str(), "tokio::time::timeout"),
        None => false,
    };
    if under_timeout {
        let ghost before = model.timeout_cancel_edges@;
        model.timeout_cancel_edges.push(TimeoutCancelEdgeEvidence {
            id: with_suffix(&id, ":timeout"),
            function: function.name.clone(),
            suspension_state: id,
            source: crate::config::owned("tokio::time::timeout"),
            cancel_edge: crate::config::owned("await_cancel"),
            source_span: span,
        });
        proof {
            let to = timeouts(fs, sites);
            assert(timeouts(fs, next) == to.push(s));
            assert forall|i: int| 0 <= i < to.len() + 1 implies timeout_at(#[trigger] model.timeout_cancel_edges@[i], fs, to.push(s)[i], path, src) by {
                if i < to.len() {
                    assert(model.timeout_cancel_edges@[i] == before[i]);
                }
            }
        }
    } else {
        proof {
            assert(timeouts(fs, next) == timeouts(fs, sites));
        }
    }
}

fn path_id(name: &String, target: &String, kind: &str) -> (id: String)
    ensures
        id@ == name@ + ":"@ + target@ + ":"@ + kind@,
{
    let mut id = name.clone();
    id.append(":");
    id.append(target.as_str());
    id.append(":");
    id.append(kind);
    id
}

/// The select paths of the branch at `s`: for each `goto:` edge, in order,
/// the winner path to its target and then the loser path, which cancels the
/// owned obligations of the branch block.
fn select_records(source_path: &str, source: &str, functions: &[CoreFunction], replays: &[FunctionObligationReplay], f: usize, b: usize, t: usize) -> (r: Vec<SelectPathEvidence>)
    requires
        0 <= f < functions@.len(),
        0 <= b < functions@[f as int].blocks@.len(),
        0 <= t < functions@[f as int].blocks@[b as int].terminators@.len(),
        replays_for(functions@, replays@),
        utf8_len(source@) < usize::MAX,
        terminator_spans_in(functions@, source@),
    ensures
        ({
            let s = (f as int, b as int, t as int);
            let edges = term_at(functions@, s).edges@;
            let pairs = select_pairs(s, goto_targets(edges, edges.len() as int));
            &&& r@.len() == pairs.len()
            &&& forall|k: int| 0 <= k < pairs.len() ==> select_at(#[trigger] r@[k], functions@, replays@, pairs[k], source_path@, source@)
        }),
{
    let ghost fs = functions@;
    let ghost s = (f as int, b as int, t as int);
    let ghost path = source_path@;
    let ghost src = source@;
    proof {
        assert(replays@[f as int] == replays[f as int]);
        reveal_strlit("winner");
        reveal_strlit("loser_cancel");
    }
    let function = &functions[f];
    let block = &function.blocks[b];
    let terminator = &block.terminators[t];
    let ghost edges = terminator.edges@;
    let name = joined_name(&[&function.name, &block.id, &terminator.id]);
    let span = source_span_from_kobo(source_path, source, terminator.source_span);
    let exit = exit_states_for(function, &replays[f], block.id.as_str());
    let cancelled = owned_of(&exit);
    let mut r: Vec<SelectPathEvidence> = Vec::new();
    let mut e: usize = 0;
    while e < terminator.edges.len()
        invariant
            e <= edges.len(),
            s == (f as int, b as int, t as int),
            fs == functions@,
            path == source_path@,
            src == source@,
            edges == term_at(fs, s).edges@,
            *function == fs[f as int],
            *block == fs[f as int].blocks@[b as int],
            *terminator == term_at(fs, s),
            f < fs.len(),
            replays_for(fs, replays@),
            name@ == suspension_name(fs, s),
            span_for(span, path, src, term_at(fs, s).source_span),
            cancelled@ == owned_states(block_exit_states(fs, replays@, s)),
            r@.len() == select_pairs(s, goto_targets(edges, e as int)).len(),
            forall|k: int| 0 <= k < r@.len() ==> select_at(#[trigger] r@[k], fs, replays@, select_pairs(s, goto_targets(edges, e as int))[k], path, src),
        decreases edges.len() - e,
    {
        let edge = &terminator.edges[e];
        let chars = chars_of(edge.as_str());
        let ghost before = r@;
        let ghost pairs = select_pairs(s, goto_targets(edges, e as int));
        if starts_with_chars(chars.as_slice(), "goto:") {
            let target = core_successor_target(edge.as_str());
            let results = exit_states_for(function, &replays[f], target.as_str());
            r.push(SelectPathEvidence {
                id: path_id(&name, &target, "winner"),
                function: function.name.clone(),
                branch_block: block.id.clone(),
                branch_target: target.clone(),
                path_kind: crate::config::owned("winner"),
                obligation_results: copy_states(results.as_slice()),
                cancelled_obligations: Vec::new(),
                source_span: clone_span(&span),
            });
            r.push(SelectPathEvidence {
                id: path_id(&name, &target, "loser_cancel"),
                function: function.name.clone(),
                branch_block: block.id.clone(),
                branch_target: target,
                path_kind: crate::config::owned("loser_cancel"),
                obligation_results: results,
                cancelled_obligations: copy_states(cancelled.as_slice()),
                source_span: clone_span(&span),
            });
            proof {
                let tg = edges[e as int]@.skip("goto:"@.len() as int);
                assert(goto_targets(edges, e + 1) == goto_targets(edges, e as int).push(tg));
                assert(goto_targets(edges, e as int).push(tg).drop_last() =~= goto_targets(edges, e as int));
                let next = select_pairs(s, goto_targets(edges, e + 1));
                assert(next == pairs + seq![(s, tg, false), (s, tg, true)]);
                assert(*edge == edges[e as int]);
                assert(has_prefix(edge@, "goto:"@));
                assert(target@ == tg);
                assert(next[before.len() as int] == (s, tg, false));
                assert(select_at(r@[before.len() as int], fs, replays@, (s, tg, false), path, src));
                assert(select_at(r@[before.len() as int + 1], fs, replays@, (s, tg, true), path, src));
                assert forall|k: int| 0 <= k < r@.len() implies select_at(#[trigger] r@[k], fs, replays@, next[k], path, src) by {
                    if k < before.len() {
                        assert(r@[k] == before[k]);
                    }
                }
            }
        } else {
            proof {
                assert(goto_targets(edges, e + 1) == goto_targets(edges, e as int));
            }
        }
        e = e + 1;
    }
    r
}

/// Records the winner and loser paths of each target of the branch at
/// (`f`, `b`, `t`).
fn record_branch(source_path: &str, source: &str, functions: &[CoreFunction], replays: &[FunctionObligationReplay], live: &[Vec<String>], f: usize, b: usize, t: usize, model: &mut AsyncModelEvidence, Ghost(sites): Ghost<Seq<(int, int, int)>>)
    requires
        step_ready(functions@, replays@, live@, source@, f as int, b as int, t as int),
        is_branch(functions@, (f as int, b as int, t as int)),
        model_ok(*old(model), functions@, replays@, live@, sites, source_path@, source@),
    ensures
        model_ok(*final(model), functions@, replays@, live@, sites.push((f as int, b as int, t as int)), source_path@, source@),
{
    let ghost fs = functions@;
    let ghost s = (f as int, b as int, t as int);
    let ghost next = sites.push(s);
    let ghost path = source_path@;
    let ghost src = source@;
    proof {
        assert(next.drop_last() =~= sites);
        assert(next.last() == s);
        reveal_strlit("await");
        reveal_strlit("branch");
        assert("await"@[0] != "branch"@[0]);
        assert(!is_await(fs, s));
        assert(!is_timeout(fs, s));
    }
    let mut added = select_records(source_path, source, functions, replays, f, b, t);
    let ghost added_paths = added@;
    let ghost old_paths = model.select_paths@;
    model.select_paths.append(&mut added);
    proof {
        let se = select_positions(fs, sites);
        let edges = term_at(fs, s).edges@;
        let tail = select_pairs(s, goto_targets(edges, edges.len() as int));
        assert(select_positions(fs, next) == se + tail);
        assert forall|i: int| 0 <= i < se.len() + tail.len() implies select_at(#[trigger] model.select_paths@[i], fs, replays@, (se + tail)[i], path, src) by {
            if i < se.len() {
                assert(model.select_paths@[i] == old_paths[i]);
            } else {
                assert(model.select_paths@[i] == added_paths[i - se.len()]);
            }
        }
        assert(awaits(fs, next) == awaits(fs, sites));
        assert(timeouts(fs, next) == timeouts(fs, sites));
        assert(local_positions(fs, live@, next) == local_positions(fs, live@, sites));
        assert(obligation_positions(fs, replays@, next) == obligation_positions(fs, replays@, sites));
    }
}

/// Records what the terminator at (`f`, `b`, `t`) adds to the model: an await
/// its suspension, a branch its select paths, any other terminator nothing.
fn record_terminator(source_path: &str, source: &str, functions: &[CoreFunction], replays: &[FunctionObligationReplay], live: &[Vec<String>], f: usize, b: usize, t: usize, model: &mut AsyncModelEvidence, Ghost(sites): Ghost<Seq<(int, int, int)>>)
    requires
        step_ready(functions@, replays@, live@, source@, f as int, b as int, t as int),
        model_ok(*old(model), functions@, replays@, live@, sites, source_path@, source@),
    ensures
        model_ok(*final(model), functions@, replays@, live@, sites.push((f as int, b as int, t as int)), source_path@, source@),
{
    let kind = functions[f].blocks[b].terminators[t].kind.as_str();
    if str_equals(kind, "await") {
        record_await(source_path, source, functions, replays, live, f, b, t, model, Ghost(sites));
    } else if str_equals(kind, "branch") {
        record_branch(source_path, source, functions, replays, live, f, b, t, model, Ghost(sites));
    } else {
        proof {
            let ghost fs = functions@;
            let ghost s = (f as int, b as int, t as int);
            let ghost next = sites.push(s);
            assert(next.drop_last() =~= sites);
            assert(next.last() == s);
            assert(!is_await(fs, s));
            assert(!is_branch(fs, s));
            assert(awaits(fs, next) == awaits(fs, sites));
            assert(timeouts(fs, next) == timeouts(fs, sites));
            assert(local_positions(fs, live@, next) == local_positions(fs, live@, sites));
            assert(obligation_positions(fs, replays@, next) == obligation_positions(fs, replays@, sites));
            assert(select_positions(fs, next) == select_positions(fs, sites));
        }
    }
}

/// The replay of each function, in order.
fn all_replays(functions: &[CoreFunction]) -> (replays: Vec<FunctionObligationReplay>)
    ensures
        replays_for(functions@, replays@),
{
    let mut replays: Vec<FunctionObligationReplay> = Vec::new();
    let mut f: usize = 0;
    while f < functions.len()
        invariant
            f <= functions@.len(),
            replays@.len() == f,
            forall|i: int| 0 <= i < f ==> crate::replay::replay_ok(#[trigger] functions@[i], replays@[i]),
        decreases functions@.len() - f,
    {
        let replay = function_obligation_replay(&functions[f]);
        replays.push(replay);
        f = f + 1;
    }
    replays
}

/// An operation that creates the obligation of a spawned task: of type
/// `SpawnedTask`, or following a `spawned_task` template.
pub open spec fn is_spawned(op: ScenarioOperation) -> bool {
    match op.kind {
        ScenarioOpKind::CreateObligation { obligation_type, template, .. } =>
            obligation_type@ == "SpawnedTask"@ || (template matches Some(t) && t.kind@ == "spawned_task"@),
        _ => false,
    }
}

/// The spawned-task operations among the first `n`, in order.
pub open spec fn spawned_ops(ops: Seq<ScenarioOperation>, n: int) -> Seq<ScenarioOperation>
    decreases n,
{
    if n <= 0 {
        Seq::empty()
    } else if is_spawned(ops[n - 1]) {
        spawned_ops(ops, n - 1).push(ops[n - 1])
    } else {
        spawned_ops(ops, n - 1)
    }
}

/// `e` is the spawned-task record of `op`: its binding, the actions that
/// resolve it, and its span.
pub open spec fn spawned_at(e: SpawnedTaskObligationEvidence, op: ScenarioOperation, path: Seq<char>, source: Seq<char>) -> bool {
    &&& match op.kind {
        ScenarioOpKind::CreateObligation { binding, actions, .. } =>
            e.binding@ == binding@ && e.required_resolution@ == actions@,
        _ => false,
    }
    &&& span_for(e.source_span, path, source, op.span)
}

/// Every spawned-task operation's span starts on a character boundary of `source`.
pub open spec fn spawned_spans_in(ops: Seq<ScenarioOperation>, source: Seq<char>) -> bool {
    forall|i: int| 0 <= i < ops.len() && is_spawned(#[trigger] ops[i])
        ==> byte_boundary(source, clamp_offset(source, ops[i].span.start as int))
}

/// The spawned tasks of a program, in operation order.
fn spawned_task_records(source_path: &str, source: &str, program: &ScenarioProgram) -> (r: Vec<SpawnedTaskObligationEvidence>)
    requires
        utf8_len(source@) < usize::MAX,
        spawned_spans_in(program.operations@, source@),
    ensures
        r@.len() == spawned_ops(program.operations@, program.operations@.len() as int).len(),
        forall|k: int| 0 <= k < r@.len() ==> spawned_at(#[trigger] r@[k], spawned_ops(program.operations@, program.operations@.len() as int)[k], source_path@, source@),
{
    let ghost ops = program.operations@;
    let mut r: Vec<SpawnedTaskObligationEvidence> = Vec::new();
    let mut i: usize = 0;
    while i < program.operations.len()
        invariant
            i <= ops.len(),
            ops == program.operations@,
            utf8_len(source@) < usize::MAX,
            spawned_spans_in(ops, source@),
            r@.len() == spawned_ops(ops, i as int).len(),
            forall|k: int| 0 <= k < r@.len() ==> spawned_at(#[trigger] r@[k], spawned_ops(ops, i as int)[k], source_path@, source@),
        decreases ops.len() - i,
    {
        let operation = &program.operations[i];
        let ghost before = r@;
        match &operation.kind {
            ScenarioOpKind::CreateObligation { binding, obligation_type, actions, template } => {
                let spawned = str_equals(obligation_type.as_str(), "SpawnedTask") || match template {
                    Some(t) => str_equals(t.kind.as_str(), "spawned_task"),
                    None => false,
                };
                if spawned {
                    proof {
                        assert(is_spawned(ops[i as int]));
                    }
                    r.push(SpawnedTaskObligationEvidence {
                        binding: binding.clone(),
                        required_resolution: clone_strings(actions.as_slice()),
                        source_span: source_span_from_kobo(source_path, source, operation.span),
                    });
                    proof {
                        assert forall|k: int| 0 <= k < r@.len() implies spawned_at(#[trigger] r@[k], spawned_ops(ops, i + 1)[k], source_path@, source@) by {
                            if k < before.len() {
                                assert(r@[k] == before[k]);
                            }
                        }
                    }
                }
            },
            _ => {},
        }
        i = i + 1;
    }
    r
}

/// The async model that `async_model_evidence` gives: exactly the records of
/// the terminators of `fs`, replayed by `replays`, with the locals listed for
/// each await by its place among the awaits, and the spawned tasks of `program`.
pub open spec fn async_model_of(m: AsyncModelEvidence, program: ScenarioProgram, fs: Seq<CoreFunction>, replays: Seq<FunctionObligationReplay>, live: Seq<Vec<String>>, path: Seq<char>, source: Seq<char>) -> bool {
    let spawned = spawned_ops(program.operations@, program.operations@.len() as int);
    &&& model_ok(m, fs, replays, live, term_sites(fs, fs.len() as int), path, source)
    &&& m.spawned_task_obligations@.len() == spawned.len()
    &&& forall|k: int| 0 <= k < spawned.len() ==> spawned_at(#[trigger] m.spawned_task_obligations@[k], spawned[k], path, source)
}

/// The async model of a program's Core functions. `live_locals_by_await`
/// gives, for each await of the target function in source order, the locals
/// that stay live across it, as a parse of the source finds them.
pub fn async_model_evidence(source_path: &str, source: &str, program: &ScenarioProgram, functions: &[CoreFunction], live_locals_by_await: &[Vec<String>]) -> (model: AsyncModelEvidence)
    requires
        utf8_len(source@) < usize::MAX,
        terminator_spans_in(functions@, source@),
        spawned_spans_in(program.operations@, source@),
        locals_fit(live_locals_by_await@),
    ensures
        exists|replays: Seq<FunctionObligationReplay>| replays_for(functions@, replays)
            && async_model_of(model, *program, functions@, replays, live_locals_by_await@, source_path@, source@),
{
    let ghost fs = functions@;
    let ghost live = live_locals_by_await@;
    let replays = all_replays(functions);
    let mut model = AsyncModelEvidence {
        suspension_states: Vec::new(),
        cancel_edges: Vec::new(),
        future_state_locals: Vec::new(),
        future_state_obligations: Vec::new(),
        timeout_cancel_edges: Vec::new(),
        select_paths: Vec::new(),
        spawned_task_obligations: Vec::new(),
    };
    let mut f: usize = 0;
    while f < functions.len()
        invariant
            f <= fs.len(),
            fs == functions@,
            live == live_locals_by_await@,
            replays_for(fs, replays@),
            utf8_len(source@) < usize::MAX,
            terminator_spans_in(fs, source@),
            locals_fit(live),
            model_ok(model, fs, replays@, live, term_sites(fs, f as int), source_path@, source@),
        decreases fs.len() - f,
    {
        let mut b: usize = 0;
        while b < functions[f].blocks.len()
            invariant
                f < fs.len(),
                b <= fs[f as int].blocks@.len(),
                fs == functions@,
                live == live_locals_by_await@,
                replays_for(fs, replays@),
                utf8_len(source@) < usize::MAX,
                terminator_spans_in(fs, source@),
                locals_fit(live),
                model_ok(model, fs, replays@, live, term_sites(fs, f as int) + block_term_sites(f as int, fs[f as int].blocks@, b as int), source_path@, source@),
            decreases fs[f as int].blocks@.len() - b,
        {
            let mut t: usize = 0;
            while t < functions[f].blocks[b].terminators.len()
                invariant
                    f < fs.len(),
                    b < fs[f as int].blocks@.len(),
                    t <= fs[f as int].blocks@[b as int].terminators@.len(),
                    fs == functions@,
                    live == live_locals_by_await@,
                    replays_for(fs, replays@),
                    utf8_len(source@) < usize::MAX,
                    terminator_spans_in(fs, source@),
                    locals_fit(live),
                    model_ok(model, fs, replays@, live, term_sites(fs, f as int) + block_term_sites(f as int, fs[f as int].blocks@, b as int)
                        + Seq::new(t as nat, |k: int| (f as int, b as int, k)), source_path@, source@),
                decreases fs[f as int].blocks@[b as int].terminators@.len() - t,
            {
                let ghost sites = term_sites(fs, f as int) + block_term_sites(f as int, fs[f as int].blocks@, b as int)
                    + Seq::new(t as nat, |k: int| (f as int, b as int, k));
                record_terminator(source_path, source, functions, replays.as_slice(), live_locals_by_await, f, b, t, &mut model, Ghost(sites));
                proof {
                    assert(sites.push((f as int, b as int, t as int)) =~= term_sites(fs, f as int) + block_term_sites(f as int, fs[f as int].blocks@, b as int)
                        + Seq::new((t + 1) as nat, |k: int| (f as int, b as int, k)));
                }
                t = t + 1;
            }
            proof {
                let n = fs[f as int].blocks@[b as int].terminators@.len();
                assert(term_sites(fs, f as int) + block_term_sites(f as int, fs[f as int].blocks@, b as int)
                    + Seq::new(n, |k: int| (f as int, b as int, k))
                    =~= term_sites(fs, f as int) + block_term_sites(f as int, fs[f as int].blocks@, b + 1));
            }
            b = b + 1;
        }
        proof {
            assert(term_sites(fs, f as int) + block_term_sites(f as int, fs[f as int].blocks@, fs[f as int].blocks@.len() as int)
                =~= term_sites(fs, f + 1));
        }
        f = f + 1;
    }
    model.spawned_task_obligations = spawned_task_records(source_path, source, program);
    proof {
        assert(replays_for(fs, replays@));
    }
    model
}

/// The async model of a program's Core functions, with the locals live
/// across each await of the target function found in its body: at each
/// await, the locals declared before it that the rest of the body uses,
/// other than `_`-prefixed ones.
pub fn async_model_evidence_for_body(source_path: &str, source: &str, program: &ScenarioProgram, functions: &[CoreFunction], body: &Vec<AsyncStmt>) -> (model: AsyncModelEvidence)
    requires
        utf8_len(source@) < usize::MAX,
        terminator_spans_in(functions@, source@),
        spawned_spans_in(program.operations@, source@),
        stmts_bindings_fit(body@, 0),
    ensures
        exists|live: Seq<Vec<String>>| {
            &&& all_sorted(live)
            &&& sets_of(live) == stmts_awaits_upto(body@, Set::empty(), Set::empty(), body@.len() as int)
            &&& exists|replays: Seq<FunctionObligationReplay>| replays_for(functions@, replays)
                && async_model_of(model, *program, functions@, replays, live, source_path@, source@)
        },
{
    let live = live_locals_by_await_in_body(body);
    proof {
        lemma_stmts_awaits_fit(body@, Set::empty(), Set::empty(), body@.len() as int);
        assert forall|j: int, k: int| 0 <= j < live@.len() && 0 <= k < live@[j]@.len()
            implies utf8_len((#[trigger] live@[j]@[k])@) <= usize::MAX by {
            assert(sets_of(live@)[j] == set_of(live@[j]@));
            assert(texts(live@[j]@)[k] == live@[j]@[k]@);
            assert(set_of(live@[j]@).contains(live@[j]@[k]@));
        }
    }
    async_model_evidence(source_path, source, program, functions, live.as_slice())
}

} // verus!
