//! The obligation events of a set of Core functions: one event per statement,
//! with the states of the obligations just before and just after it, and the
//! environments at entry and at the merged exit.
use vstd::prelude::*;
use crate::core_cfg::{CoreBlock, CoreFunction, CoreStatement, LoopRegionIndex, span_for};
use crate::config::clone_opt_string;
use crate::evidence::ObligationEvent;
use crate::invariants::{entry_env_of, replays_for};
use crate::obligations::{ObligationEnv, ObligationState, ObligationStatus, after_statements,
    apply_obligation_statement, bindings_increasing, event_kind_of, obligation_event_kind, states_map};
use crate::replay::{FunctionObligationReplay, env_states, find_last_block, function_obligation_replay,
    merge_terminal_envs, merged_all, replay_ok};
use crate::source_spans::{byte_boundary, clamp_offset, source_span_from_kobo};
use crate::templates::texts;
use crate::text::utf8_len;

verus! {

/// `states` lists the map `m` in binding order.
pub open spec fn lists_states(states: Seq<ObligationState>, m: Map<Seq<char>, ObligationStatus>) -> bool {
    bindings_increasing(states) && states_map(states) == m
}

/// Every statement's span starts on a character boundary of `source`.
pub open spec fn statement_spans_in(fs: Seq<CoreFunction>, source: Seq<char>) -> bool {
    forall|f: int, b: int, k: int|
        0 <= f < fs.len() && 0 <= b < fs[f].blocks@.len() && 0 <= k < fs[f].blocks@[b].statements@.len()
        ==> byte_boundary(source, clamp_offset(source, (#[trigger] fs[f].blocks@[b].statements@[k]).source_span.start as int))
}

/// The event of statement `k` of `block`, replayed from `entry`.
pub open spec fn event_of(e: ObligationEvent, block: CoreBlock, k: int, entry: Map<Seq<char>, ObligationStatus>, regions: Seq<Seq<char>>, path: Seq<char>, source: Seq<char>) -> bool {
    let st = block.statements@[k];
    &&& e.id == st.id
    &&& e.kind == event_kind_of(st.kind)
    &&& e.binding == st.binding
    &&& e.action == st.action
    &&& texts(e.loop_regions@) == regions
    &&& span_for(e.source_span, path, source, st.source_span)
    &&& lists_states(e.state_before@, after_statements(entry, block.statements@, k))
    &&& lists_states(e.state_after@, after_statements(entry, block.statements@, k + 1))
}

/// The entry environment a block is replayed from: the replayed entry of its
/// id, or the empty environment where the block was not reached.
pub open spec fn block_start(function: CoreFunction, replay: FunctionObligationReplay, block: CoreBlock) -> Map<Seq<char>, ObligationStatus> {
    match entry_env_of(function, replay, block.id@) {
        Some(e) => e@,
        None => Map::empty(),
    }
}

/// The statements of the first `n` blocks of function `f`, as
/// (function, block, statement) positions in order.
pub open spec fn function_sites(f: int, blocks: Seq<CoreBlock>, n: int) -> Seq<(int, int, int)>
    decreases n,
{
    if n <= 0 {
        Seq::empty()
    } else {
        function_sites(f, blocks, n - 1) + Seq::new(blocks[n - 1].statements@.len(), |k: int| (f, n - 1, k))
    }
}

/// The statements of the first `n` functions, as positions in order.
pub open spec fn all_sites(fs: Seq<CoreFunction>, n: int) -> Seq<(int, int, int)>
    decreases n,
{
    if n <= 0 {
        Seq::empty()
    } else {
        all_sites(fs, n - 1) + function_sites(n - 1, fs[n - 1].blocks@, fs[n - 1].blocks@.len() as int)
    }
}

/// The terminal exit environments of the first `n` replays, in order.
pub open spec fn all_terminals(replays: Seq<FunctionObligationReplay>, n: int) -> Seq<Map<Seq<char>, ObligationStatus>>
    decreases n,
{
    if n <= 0 {
        Seq::empty()
    } else {
        all_terminals(replays, n - 1) + replays[n - 1].terminal_envs@.map_values(|e: ObligationEnv| e@)
    }
}

/// Each event is the event of the statement at its site.
pub open spec fn events_at(events: Seq<ObligationEvent>, sites: Seq<(int, int, int)>, fs: Seq<CoreFunction>, replays: Seq<FunctionObligationReplay>, regions: LoopRegionIndex, path: Seq<char>, source: Seq<char>) -> bool {
    &&& events.len() == sites.len()
    &&& forall|i: int| 0 <= i < sites.len() ==> {
        let (f, b, k) = #[trigger] sites[i];
        event_of(events[i], fs[f].blocks@[b], k, block_start(fs[f], replays[f], fs[f].blocks@[b]),
            regions.regions(fs[f].name@, fs[f].blocks@[b].id@), path, source)
    }
}

proof fn lemma_function_sites_bounds(f: int, blocks: Seq<CoreBlock>, n: int)
    requires
        0 <= n <= blocks.len(),
    ensures
        forall|i: int| 0 <= i < function_sites(f, blocks, n).len() ==> {
            let (g, b, k) = #[trigger] function_sites(f, blocks, n)[i];
            g == f && 0 <= b < n && 0 <= k < blocks[b].statements@.len()
        },
    decreases n,
{
    if n > 0 {
        lemma_function_sites_bounds(f, blocks, n - 1);
        let prev = function_sites(f, blocks, n - 1);
        let tail = Seq::new(blocks[n - 1].statements@.len(), |k: int| (f, n - 1, k));
        assert forall|i: int| 0 <= i < function_sites(f, blocks, n).len() implies {
            let (g, b, k) = #[trigger] function_sites(f, blocks, n)[i];
            g == f && 0 <= b < n && 0 <= k < blocks[b].statements@.len()
        } by {
            if i < prev.len() {
                assert(function_sites(f, blocks, n)[i] == prev[i]);
            } else {
                assert(function_sites(f, blocks, n)[i] == tail[i - prev.len()]);
            }
        }
    }
}

/// The events of one block's statements, replayed from `entry`.
fn block_events(source_path: &str, source: &str, function: &CoreFunction, block: &CoreBlock, entry: ObligationEnv, loop_regions: &LoopRegionIndex, events: &mut Vec<ObligationEvent>)
    requires
        entry.wf(),
        utf8_len(source@) < usize::MAX,
        forall|k: int| 0 <= k < block.statements@.len() ==> byte_boundary(source@, clamp_offset(source@, (#[trigger] block.statements@[k]).source_span.start as int)),
    ensures
        final(events)@.len() == old(events)@.len() + block.statements@.len(),
        forall|i: int| 0 <= i < old(events)@.len() ==> final(events)@[i] == old(events)@[i],
        forall|k: int| 0 <= k < block.statements@.len() ==> event_of(#[trigger] final(events)@[old(events)@.len() + k], *block, k, entry@,
            loop_regions.regions(function.name@, block.id@), source_path@, source@),
{
    let ghost start = entry@;
    let ghost base = events@.len();
    let ghost initial = events@;
    let mut current = entry;
    let mut k: usize = 0;
    while k < block.statements.len()
        invariant
            k <= block.statements@.len(),
            current.wf(),
            current@ == after_statements(start, block.statements@, k as int),
            utf8_len(source@) < usize::MAX,
            forall|j: int| 0 <= j < block.statements@.len() ==> byte_boundary(source@, clamp_offset(source@, (#[trigger] block.statements@[j]).source_span.start as int)),
            base == initial.len(),
            events@.len() == base + k,
            forall|i: int| 0 <= i < base ==> events@[i] == initial[i],
            forall|j: int| 0 <= j < k ==> event_of(#[trigger] events@[base + j], *block, j, start,
                loop_regions.regions(function.name@, block.id@), source_path@, source@),
        decreases block.statements@.len() - k,
    {
        let statement = &block.statements[k];
        let before = env_states(&current);
        proof {
            current.lemma_view_listed();
        }
        apply_obligation_statement(statement, &mut current);
        let after = env_states(&current);
        proof {
            current.lemma_view_listed();
        }
        let kind = match obligation_event_kind(&statement.kind) {
            Some(kind) => kind,
            None => {
                k = k + 1;
                continue;
            },
        };
        let event = ObligationEvent {
            id: statement.id.clone(),
            kind,
            binding: clone_opt_string(&statement.binding),
            action: clone_opt_string(&statement.action),
            loop_regions: loop_regions.loop_regions_for_block(function.name.as_str(), block.id.as_str()),
            source_span: source_span_from_kobo(source_path, source, statement.source_span),
            state_before: before,
            state_after: after,
        };
        proof {
            assert(texts(event.loop_regions@) =~= event.loop_regions@.map_values(|s: String| s@));
        }
        events.push(event);
        k = k + 1;
    }
}

/// The events of one function's statements, block by block, each block
/// replayed from its replayed entry environment.
fn function_events(source_path: &str, source: &str, fs: &[CoreFunction], f: usize, replay: &FunctionObligationReplay, loop_regions: &LoopRegionIndex, events: &mut Vec<ObligationEvent>)
    requires
        f < fs@.len(),
        replay_ok(fs@[f as int], *replay),
        utf8_len(source@) < usize::MAX,
        statement_spans_in(fs@, source@),
    ensures
        final(events)@.len() == old(events)@.len() + function_sites(f as int, fs@[f as int].blocks@, fs@[f as int].blocks@.len() as int).len(),
        forall|i: int| 0 <= i < old(events)@.len() ==> final(events)@[i] == old(events)@[i],
        forall|i: int| 0 <= i < function_sites(f as int, fs@[f as int].blocks@, fs@[f as int].blocks@.len() as int).len() ==> {
            let (g, b, k) = #[trigger] function_sites(f as int, fs@[f as int].blocks@, fs@[f as int].blocks@.len() as int)[i];
            event_of(final(events)@[old(events)@.len() + i], fs@[f as int].blocks@[b], k,
                block_start(fs@[f as int], *replay, fs@[f as int].blocks@[b]),
                loop_regions.regions(fs@[f as int].name@, fs@[f as int].blocks@[b].id@), source_path@, source@)
        },
{
    let function = &fs[f];
    let ghost blocks = function.blocks@;
    let ghost base = events@.len();
    let ghost initial = events@;
    let mut b: usize = 0;
    while b < function.blocks.len()
        invariant
            f < fs@.len(),
            *function == fs@[f as int],
            blocks == function.blocks@,
            b <= blocks.len(),
            replay_ok(*function, *replay),
            utf8_len(source@) < usize::MAX,
            statement_spans_in(fs@, source@),
            base == initial.len(),
            events@.len() == base + function_sites(f as int, blocks, b as int).len(),
            forall|i: int| 0 <= i < base ==> events@[i] == initial[i],
            forall|i: int| 0 <= i < function_sites(f as int, blocks, b as int).len() ==> {
                let (g, bb, k) = #[trigger] function_sites(f as int, blocks, b as int)[i];
                event_of(events@[base + i], blocks[bb], k, block_start(*function, *replay, blocks[bb]),
                    loop_regions.regions(function.name@, blocks[bb].id@), source_path@, source@)
            },
        decreases blocks.len() - b,
    {
        let block = &function.blocks[b];
        let slot = find_last_block(function.blocks.as_slice(), block.id.as_str());
        let entry = match slot {
            Some(s) => match &replay.block_entry_envs[s] {
                Some(env) => {
                    proof {
                        assert(crate::replay::slots_ok(blocks, replay.block_entry_envs@, crate::replay::entry_slot(blocks)));
                    }
                    env.copy()
                },
                None => ObligationEnv::new(),
            },
            None => ObligationEnv::new(),
        };
        proof {
            assert(entry@ == block_start(*function, *replay, *block));
            assert forall|k: int| 0 <= k < block.statements@.len() implies byte_boundary(source@, clamp_offset(source@, (#[trigger] block.statements@[k]).source_span.start as int)) by {
                assert(fs@[f as int].blocks@[b as int].statements@[k] == block.statements@[k]);
            }
            lemma_function_sites_bounds(f as int, blocks, b as int);
        }
        let ghost mid = events@;
        block_events(source_path, source, function, block, entry, loop_regions, events);
        proof {
            let prev = function_sites(f as int, blocks, b as int);
            let tail = Seq::new(blocks[b as int].statements@.len(), |k: int| (f as int, b as int, k));
            assert(function_sites(f as int, blocks, b + 1) == prev + tail);
            assert forall|i: int| 0 <= i < function_sites(f as int, blocks, b + 1).len() implies {
                let (g, bb, k) = #[trigger] function_sites(f as int, blocks, b + 1)[i];
                event_of(events@[base + i], blocks[bb], k, block_start(*function, *replay, blocks[bb]),
                    loop_regions.regions(function.name@, blocks[bb].id@), source_path@, source@)
            } by {
                if i < prev.len() {
                    assert(function_sites(f as int, blocks, b + 1)[i] == prev[i]);
                    assert(events@[base + i] == mid[base + i]);
                } else {
                    let k = i - prev.len();
                    assert(function_sites(f as int, blocks, b + 1)[i] == tail[k]);
                    assert(events@[mid.len() + k] == events@[base + i]);
                }
            }
        }
        b = b + 1;
    }
}

/// The obligation events of `functions`: the (empty) environment at entry,
/// the merge of every function's terminal exit environments, and one event
/// per statement in function, block and statement order. Each function is
/// replayed once; the evidence is that of some replay of each function with
/// the replay's properties.
pub fn obligation_evidence(source_path: &str, source: &str, functions: &[CoreFunction], loop_regions: &LoopRegionIndex) -> (r: (Vec<ObligationState>, Vec<ObligationState>, Vec<ObligationEvent>))
    requires
        utf8_len(source@) < usize::MAX,
        statement_spans_in(functions@, source@),
    ensures
        r.0@.len() == 0,
        exists|replays: Seq<FunctionObligationReplay>| replays_for(functions@, replays)
            && lists_states(r.1@, merged_all(all_terminals(replays, functions@.len() as int)))
            && events_at(r.2@, all_sites(functions@, functions@.len() as int), functions@, replays, *loop_regions, source_path@, source@),
{
    let empty = ObligationEnv::new();
    let entry_env = env_states(&empty);
    proof {
        empty.lemma_listed();
        if empty.listed().len() > 0 {
            assert(empty@.contains_key(empty.listed()[0].binding@));
        }
    }
    let mut events: Vec<ObligationEvent> = Vec::new();
    let mut terminal_envs: Vec<ObligationEnv> = Vec::new();
    let ghost mut replays: Seq<FunctionObligationReplay> = Seq::empty();
    let mut f: usize = 0;
    while f < functions.len()
        invariant
            f <= functions@.len(),
            utf8_len(source@) < usize::MAX,
            statement_spans_in(functions@, source@),
            replays.len() == f,
            forall|i: int| 0 <= i < f ==> replay_ok(#[trigger] functions@[i], replays[i]),
            terminal_envs@.map_values(|e: ObligationEnv| e@) == all_terminals(replays, f as int),
            forall|k: int| 0 <= k < terminal_envs@.len() ==> (#[trigger] terminal_envs@[k]).wf(),
            events_at(events@, all_sites(functions@, f as int), functions@, replays, *loop_regions, source_path@, source@),
        decreases functions@.len() - f,
    {
        let replay = function_obligation_replay(&functions[f]);
        let ghost mid = events@;
        let ghost sites = all_sites(functions@, f as int);
        let ghost next = replays.push(replay);
        function_events(source_path, source, functions, f, &replay, loop_regions, &mut events);
        proof {
            let fsites = function_sites(f as int, functions@[f as int].blocks@, functions@[f as int].blocks@.len() as int);
            assert(all_sites(functions@, f + 1) == sites + fsites);
            lemma_function_sites_bounds(f as int, functions@[f as int].blocks@, functions@[f as int].blocks@.len() as int);
            assert forall|i: int| 0 <= i < (sites + fsites).len() implies {
                let (g, b, k) = #[trigger] (sites + fsites)[i];
                event_of(events@[i], functions@[g].blocks@[b], k, block_start(functions@[g], next[g], functions@[g].blocks@[b]),
                    loop_regions.regions(functions@[g].name@, functions@[g].blocks@[b].id@), source_path@, source@)
            } by {
                if i < sites.len() {
                    assert((sites + fsites)[i] == sites[i]);
                    let (g, b, k) = sites[i];
                    lemma_all_sites_bounds(functions@, f as int);
                    assert(next[g] == replays[g]);
                    assert(events@[i] == mid[i]);
                } else {
                    let j = i - sites.len();
                    assert((sites + fsites)[i] == fsites[j]);
                    assert(next[f as int] == replay);
                }
            }
            assert(events_at(events@, all_sites(functions@, f + 1), functions@, next, *loop_regions, source_path@, source@));
        }
        let ghost tbefore = terminal_envs@;
        let mut k: usize = 0;
        while k < replay.terminal_envs.len()
            invariant
                k <= replay.terminal_envs@.len(),
                f < functions@.len(),
                replay_ok(functions@[f as int], replay),
                terminal_envs@.map_values(|e: ObligationEnv| e@) == tbefore.map_values(|e: ObligationEnv| e@)
                    + replay.terminal_envs@.take(k as int).map_values(|e: ObligationEnv| e@),
                forall|j: int| 0 <= j < terminal_envs@.len() ==> (#[trigger] terminal_envs@[j]).wf(),
            decreases replay.terminal_envs@.len() - k,
        {
            let ghost pre = terminal_envs@;
            terminal_envs.push(replay.terminal_envs[k].copy());
            proof {
                assert(terminal_envs@.map_values(|e: ObligationEnv| e@) =~= pre.map_values(|e: ObligationEnv| e@).push(replay.terminal_envs@[k as int]@));
                assert(replay.terminal_envs@.take(k + 1).map_values(|e: ObligationEnv| e@) =~= replay.terminal_envs@.take(k as int).map_values(|e: ObligationEnv| e@).push(replay.terminal_envs@[k as int]@));
            }
            k = k + 1;
        }
        proof {
            assert(replay.terminal_envs@.take(k as int) =~= replay.terminal_envs@);
            assert(all_terminals(next, f + 1) == all_terminals(next, f as int) + replay.terminal_envs@.map_values(|e: ObligationEnv| e@));
            lemma_all_terminals_prefix(replays, next, f as int);
            replays = next;
        }
        f = f + 1;
    }
    let exit = merge_terminal_envs(terminal_envs.as_slice());
    let exit_env = env_states(&exit);
    proof {
        exit.lemma_view_listed();
        assert(replays_for(functions@, replays));
    }
    (entry_env, exit_env, events)
}

proof fn lemma_all_sites_bounds(fs: Seq<CoreFunction>, n: int)
    requires
        0 <= n <= fs.len(),
    ensures
        forall|i: int| 0 <= i < all_sites(fs, n).len() ==> {
            let (g, b, k) = #[trigger] all_sites(fs, n)[i];
            0 <= g < n && 0 <= b < fs[g].blocks@.len() && 0 <= k < fs[g].blocks@[b].statements@.len()
        },
    decreases n,
{
    if n > 0 {
        lemma_all_sites_bounds(fs, n - 1);
        let prev = all_sites(fs, n - 1);
        let tail = function_sites(n - 1, fs[n - 1].blocks@, fs[n - 1].blocks@.len() as int);
        lemma_function_sites_bounds(n - 1, fs[n - 1].blocks@, fs[n - 1].blocks@.len() as int);
        assert forall|i: int| 0 <= i < all_sites(fs, n).len() implies {
            let (g, b, k) = #[trigger] all_sites(fs, n)[i];
            0 <= g < n && 0 <= b < fs[g].blocks@.len() && 0 <= k < fs[g].blocks@[b].statements@.len()
        } by {
            if i < prev.len() {
                assert(all_sites(fs, n)[i] == prev[i]);
            } else {
                assert(all_sites(fs, n)[i] == tail[i - prev.len()]);
            }
        }
    }
}

proof fn lemma_all_terminals_prefix(a: Seq<FunctionObligationReplay>, b: Seq<FunctionObligationReplay>, n: int)
    requires
        0 <= n <= a.len(),
        n <= b.len(),
        forall|i: int| 0 <= i < n ==> a[i] == b[i],
    ensures
        all_terminals(a, n) == all_terminals(b, n),
    decreases n,
{
    if n > 0 {
        lemma_all_terminals_prefix(a, b, n - 1);
        assert(a[n - 1] == b[n - 1]);
    }
}

} // verus!
