//! The obligation replay of one Core function: a forward dataflow over its
//! blocks that merges each block's exit states into its successors' entry
//! states until nothing changes.
use vstd::prelude::*;
use crate::core_cfg::{CoreBlock, CoreFunction, CoreStatement};
use crate::obligations::{ObligationEnv, ObligationState, ObligationStatus, after_block, after_statement,
    after_statements, apply_block_obligation_statements, back_edge_between, block_successor_targets,
    is_back_edge_between_blocks, merge_block_entry_env, merged, successor_targets, status_after,
    exit_target, modeled_exit_target};
use crate::text::str_equals;

verus! {

/// The bindings that the first `n` statements name.
pub open spec fn statement_bindings(statements: Seq<CoreStatement>, n: int) -> Seq<Seq<char>>
    decreases n,
{
    if n <= 0 {
        Seq::empty()
    } else {
        let prev = statement_bindings(statements, n - 1);
        match statements[n - 1].binding {
            Some(b) => prev.push(b@),
            None => prev,
        }
    }
}

/// The bindings that the statements of the first `n` blocks name.
pub open spec fn block_bindings(blocks: Seq<CoreBlock>, n: int) -> Seq<Seq<char>>
    decreases n,
{
    if n <= 0 {
        Seq::empty()
    } else {
        block_bindings(blocks, n - 1) + statement_bindings(blocks[n - 1].statements@, blocks[n - 1].statements@.len() as int)
    }
}

/// Every binding that a statement of the blocks names.
pub open spec fn binding_universe(blocks: Seq<CoreBlock>) -> Set<Seq<char>> {
    block_bindings(blocks, blocks.len() as int).to_set()
}

proof fn lemma_statement_binding_in(statements: Seq<CoreStatement>, n: int, j: int)
    requires
        0 <= j < n <= statements.len(),
        statements[j].binding is Some,
    ensures
        statement_bindings(statements, n).contains(statements[j].binding->0@),
    decreases n,
{
    let prev = statement_bindings(statements, n - 1);
    if j < n - 1 {
        lemma_statement_binding_in(statements, n - 1, j);
        let k = choose|k: int| 0 <= k < prev.len() && prev[k] == statements[j].binding->0@;
        match statements[n - 1].binding {
            Some(b) => {
                assert(prev.push(b@)[k] == prev[k]);
            },
            None => {},
        }
    } else {
        assert(prev.push(statements[j].binding->0@)[prev.len() as int] == statements[j].binding->0@);
    }
}

proof fn lemma_block_binding_in(blocks: Seq<CoreBlock>, n: int, i: int, j: int)
    requires
        0 <= i < n <= blocks.len(),
        0 <= j < blocks[i].statements@.len(),
        blocks[i].statements@[j].binding is Some,
    ensures
        block_bindings(blocks, n).contains(blocks[i].statements@[j].binding->0@),
    decreases n,
{
    let b = blocks[i].statements@[j].binding->0@;
    let prev = block_bindings(blocks, n - 1);
    let last = statement_bindings(blocks[n - 1].statements@, blocks[n - 1].statements@.len() as int);
    if i < n - 1 {
        lemma_block_binding_in(blocks, n - 1, i, j);
        let k = choose|k: int| 0 <= k < prev.len() && prev[k] == b;
        assert((prev + last)[k] == b);
    } else {
        lemma_statement_binding_in(blocks[i].statements@, blocks[i].statements@.len() as int, j);
        let k = choose|k: int| 0 <= k < last.len() && last[k] == b;
        assert((prev + last)[prev.len() + k] == b);
    }
}

/// A block's statements keep an environment's bindings within the universe.
proof fn lemma_after_block_within(blocks: Seq<CoreBlock>, i: int, env: Map<Seq<char>, ObligationStatus>)
    requires
        0 <= i < blocks.len(),
        env.dom().subset_of(binding_universe(blocks)),
    ensures
        after_block(env, blocks[i]).dom().subset_of(binding_universe(blocks)),
{
    let statements = blocks[i].statements@;
    assert forall|n: int| 0 <= n <= statements.len() implies #[trigger] after_statements(env, statements, n).dom().subset_of(binding_universe(blocks)) by {
        lemma_after_statements_within(blocks, i, env, n);
    }
}

proof fn lemma_after_statements_within(blocks: Seq<CoreBlock>, i: int, env: Map<Seq<char>, ObligationStatus>, n: int)
    requires
        0 <= i < blocks.len(),
        0 <= n <= blocks[i].statements@.len(),
        env.dom().subset_of(binding_universe(blocks)),
    ensures
        after_statements(env, blocks[i].statements@, n).dom().subset_of(binding_universe(blocks)),
    decreases n,
{
    if n > 0 {
        lemma_after_statements_within(blocks, i, env, n - 1);
        let st = blocks[i].statements@[n - 1];
        match (st.binding, status_after(st.kind)) {
            (Some(b), Some(_)) => {
                lemma_block_binding_in(blocks, blocks.len() as int, i, n - 1);
            },
            _ => {},
        }
    }
}

/// The bindings whose obligation is branch-unresolved.
pub open spec fn unresolved_keys(m: Map<Seq<char>, ObligationStatus>) -> Set<Seq<char>> {
    m.dom().filter(|k: Seq<char>| m[k] == ObligationStatus::BranchUnresolved)
}

/// How far an environment has grown: its bindings plus its unresolved ones.
pub open spec fn height(m: Map<Seq<char>, ObligationStatus>) -> nat {
    m.dom().len() + unresolved_keys(m).len()
}

/// Merging `incoming` into `current` changes nothing.
pub open spec fn absorbs(current: Map<Seq<char>, ObligationStatus>, incoming: Map<Seq<char>, ObligationStatus>) -> bool {
    merged(current, incoming) == current
}

proof fn lemma_subset_same_len_equal(a: Set<Seq<char>>, b: Set<Seq<char>>)
    requires
        b.finite(),
        a.subset_of(b),
        a.len() == b.len(),
    ensures
        a == b,
{
    if exists|x: Seq<char>| b.contains(x) && !a.contains(x) {
        let x = choose|x: Seq<char>| b.contains(x) && !a.contains(x);
        vstd::set_lib::lemma_len_subset(a, b.remove(x));
        vstd::set::axiom_set_remove_len(b, x);
    }
    assert(a =~= b);
}

/// Merging only grows an environment, and grows it whenever it changes it.
pub proof fn lemma_merge_grows(current: Map<Seq<char>, ObligationStatus>, incoming: Map<Seq<char>, ObligationStatus>, universe: Set<Seq<char>>)
    requires
        universe.finite(),
        current.dom().subset_of(universe),
        incoming.dom().subset_of(universe),
    ensures
        merged(current, incoming).dom().subset_of(universe),
        height(current) <= height(merged(current, incoming)),
        merged(current, incoming) != current ==> height(current) < height(merged(current, incoming)),
        height(merged(current, incoming)) <= 2 * universe.len(),
{
    let m = merged(current, incoming);
    assert(m.dom() =~= current.dom().union(incoming.dom()));
    vstd::set_lib::lemma_len_subset(m.dom(), universe);
    vstd::set_lib::lemma_len_subset(current.dom(), m.dom());
    assert(unresolved_keys(current).subset_of(unresolved_keys(m)));
    assert(unresolved_keys(m).subset_of(m.dom()));
    vstd::set_lib::lemma_len_subset(unresolved_keys(m), m.dom());
    vstd::set_lib::lemma_len_subset(unresolved_keys(current), unresolved_keys(m));
    if m != current && height(current) == height(m) {
        lemma_subset_same_len_equal(current.dom(), m.dom());
        lemma_subset_same_len_equal(unresolved_keys(current), unresolved_keys(m));
        assert forall|k: Seq<char>| #[trigger] m.contains_key(k) implies m[k] == current[k] by {
            assert(current.dom().contains(k));
            if m[k] != current[k] {
                assert(unresolved_keys(m).contains(k));
                assert(unresolved_keys(current).contains(k));
            }
        }
        assert(m =~= current);
    }
}

/// An environment that absorbs `b` still absorbs it after growing by a merge.
pub proof fn lemma_absorbs_after_merge(a: Map<Seq<char>, ObligationStatus>, b: Map<Seq<char>, ObligationStatus>, c: Map<Seq<char>, ObligationStatus>)
    requires
        absorbs(a, b),
    ensures
        absorbs(merged(a, c), b),
{
    let a2 = merged(a, c);
    assert forall|k: Seq<char>| b.contains_key(k) implies a.contains_key(k) by {
        assert(merged(a, b).contains_key(k));
    }
    assert forall|k: Seq<char>| #[trigger] merged(a2, b).contains_key(k) implies merged(a2, b)[k] == a2[k] by {
        if b.contains_key(k) {
            assert(merged(a, b)[k] == a[k]);
        }
    }
    assert(merged(a2, b) =~= a2);
}

/// Merging `b` into `merged(a, b)` changes nothing.
pub proof fn lemma_merge_absorbs(a: Map<Seq<char>, ObligationStatus>, b: Map<Seq<char>, ObligationStatus>)
    ensures
        absorbs(merged(a, b), b),
{
    let m = merged(a, b);
    assert(merged(m, b) =~= m);
}

/// The position of the last of the first `n` blocks named `id`: a map of the
/// blocks keyed by id keeps that one.
pub open spec fn last_block_position(blocks: Seq<CoreBlock>, id: Seq<char>, n: int) -> Option<int>
    decreases n,
{
    if n <= 0 {
        None
    } else if blocks[n - 1].id@ == id {
        Some(n - 1)
    } else {
        last_block_position(blocks, id, n - 1)
    }
}

proof fn lemma_last_block_position(blocks: Seq<CoreBlock>, id: Seq<char>, n: int)
    requires
        0 <= n <= blocks.len(),
    ensures
        last_block_position(blocks, id, n) matches Some(k) ==> 0 <= k < n && blocks[k].id@ == id,
    decreases n,
{
    if n > 0 && blocks[n - 1].id@ != id {
        lemma_last_block_position(blocks, id, n - 1);
    }
}

proof fn lemma_last_block_position_found(blocks: Seq<CoreBlock>, id: Seq<char>, n: int, k: int)
    requires
        0 <= k < n <= blocks.len(),
        blocks[k].id@ == id,
    ensures
        last_block_position(blocks, id, n) is Some,
    decreases n,
{
    if blocks[n - 1].id@ != id {
        lemma_last_block_position_found(blocks, id, n - 1, k);
    }
}

/// The position of the block that a map of the blocks keyed by id holds for `id`.
pub fn find_last_block(blocks: &[CoreBlock], id: &str) -> (r: Option<usize>)
    ensures
        match r {
            Some(k) => last_block_position(blocks@, id@, blocks@.len() as int) == Some(k as int) && k < blocks@.len(),
            None => last_block_position(blocks@, id@, blocks@.len() as int) is None,
        },
{
    let mut j = blocks.len();
    while j > 0
        invariant
            j <= blocks@.len(),
            last_block_position(blocks@, id@, blocks@.len() as int) == last_block_position(blocks@, id@, j as int),
        decreases j,
    {
        if str_equals(blocks[j - 1].id.as_str(), id) {
            return Some(j - 1);
        }
        j = j - 1;
    }
    None
}

/// The replay may go from the block at position `s` to the block at position
/// `t`: some edge of block `s` leads to `t`'s id, and it is not a back edge.
pub open spec fn forward_step(blocks: Seq<CoreBlock>, s: int, t: int) -> bool {
    &&& 0 <= s < blocks.len()
    &&& exists|j: int| 0 <= j < successor_targets(blocks[s]).len()
        && !back_edge_between(blocks[s].id@, #[trigger] successor_targets(blocks[s])[j])
        && last_block_position(blocks, successor_targets(blocks[s])[j], blocks.len() as int) == Some(t)
}

proof fn lemma_forward_step_in_range(blocks: Seq<CoreBlock>, s: int, t: int)
    requires
        forward_step(blocks, s, t),
    ensures
        0 <= t < blocks.len(),
{
    let j = choose|j: int| 0 <= j < successor_targets(blocks[s]).len()
        && !back_edge_between(blocks[s].id@, #[trigger] successor_targets(blocks[s])[j])
        && last_block_position(blocks, successor_targets(blocks[s])[j], blocks.len() as int) == Some(t);
    lemma_last_block_position(blocks, successor_targets(blocks[s])[j], blocks.len() as int);
}

/// A walk of forward steps from the block at position `from` reaches `to`.
pub open spec fn reaches(blocks: Seq<CoreBlock>, from: int, to: int) -> bool {
    exists|path: Seq<int>| path.len() >= 1 && path[0] == from && path.last() == to
        && forall|i: int| 0 <= i < path.len() - 1 ==> forward_step(blocks, #[trigger] path[i], path[i + 1])
}

proof fn lemma_reaches_step(blocks: Seq<CoreBlock>, from: int, s: int, t: int)
    requires
        reaches(blocks, from, s),
        forward_step(blocks, s, t),
    ensures
        reaches(blocks, from, t),
{
    let path = choose|path: Seq<int>| path.len() >= 1 && path[0] == from && path.last() == s
        && forall|i: int| 0 <= i < path.len() - 1 ==> forward_step(blocks, #[trigger] path[i], path[i + 1]);
    let longer = path.push(t);
    assert forall|i: int| 0 <= i < longer.len() - 1 implies forward_step(blocks, #[trigger] longer[i], longer[i + 1]) by {
        if i < path.len() - 1 {
            assert(longer[i] == path[i]);
            assert(longer[i + 1] == path[i + 1]);
        } else {
            assert(longer[i] == s);
        }
    }
    assert(longer[0] == from);
    assert(longer.last() == t);
}

/// The weight of one slot in the replay's termination measure.
pub open spec fn slot_weight(slot: Option<ObligationEnv>, cap: nat) -> int {
    match slot {
        None => (2 * cap + 1) as int,
        Some(env) => 2 * cap - height(env@),
    }
}

pub open spec fn total_weight(slots: Seq<Option<ObligationEnv>>, cap: nat) -> int
    decreases slots.len(),
{
    if slots.len() == 0 {
        0
    } else {
        total_weight(slots.drop_last(), cap) + slot_weight(slots.last(), cap)
    }
}

proof fn lemma_total_update(slots: Seq<Option<ObligationEnv>>, i: int, v: Option<ObligationEnv>, cap: nat)
    requires
        0 <= i < slots.len(),
    ensures
        total_weight(slots.update(i, v), cap) == total_weight(slots, cap) - slot_weight(slots[i], cap) + slot_weight(v, cap),
    decreases slots.len(),
{
    if i < slots.len() - 1 {
        assert(slots.update(i, v).drop_last() =~= slots.drop_last().update(i, v));
        lemma_total_update(slots.drop_last(), i, v, cap);
    } else {
        assert(slots.update(i, v).drop_last() =~= slots.drop_last());
    }
}

proof fn lemma_total_nonneg(slots: Seq<Option<ObligationEnv>>, cap: nat)
    requires
        forall|i: int| 0 <= i < slots.len() && (#[trigger] slots[i]) is Some ==> height(slots[i]->0@) <= 2 * cap,
    ensures
        total_weight(slots, cap) >= 0,
    decreases slots.len(),
{
    if slots.len() > 0 {
        let prev = slots.drop_last();
        assert forall|i: int| 0 <= i < prev.len() && (#[trigger] prev[i]) is Some implies height(prev[i]->0@) <= 2 * cap by {
            assert(prev[i] == slots[i]);
        }
        lemma_total_nonneg(prev, cap);
    }
}

/// A slot is waiting in the queue.
pub open spec fn pending(queue: Seq<usize>, head: int, s: int) -> bool {
    exists|j: int| head <= j < queue.len() && queue[j] == s
}

/// The replay's slots hold well-formed environments over the function's
/// bindings, each at the last position of its block's id and reached from the
/// entry slot.
pub open spec fn slots_ok(blocks: Seq<CoreBlock>, slots: Seq<Option<ObligationEnv>>, entry: int) -> bool {
    forall|s: int| 0 <= s < slots.len() && (#[trigger] slots[s]) is Some ==> {
        &&& slots[s]->0.wf()
        &&& slots[s]->0@.dom().subset_of(binding_universe(blocks))
        &&& height(slots[s]->0@) <= 2 * binding_universe(blocks).len()
        &&& last_block_position(blocks, blocks[s].id@, blocks.len() as int) == Some(s)
        &&& reaches(blocks, entry, s)
    }
}

/// Every forward successor of slot `s` has an entry environment that absorbs
/// `s`'s exit environment.
pub open spec fn settled(blocks: Seq<CoreBlock>, slots: Seq<Option<ObligationEnv>>, s: int) -> bool {
    forall|t: int| #[trigger] forward_step(blocks, s, t) ==> slots[t] is Some
        && absorbs(slots[t]->0@, after_block(slots[s]->0@, blocks[s]))
}

/// Every reached slot other than `except` that is not waiting in the queue is
/// settled.
pub open spec fn settled_unless_pending(blocks: Seq<CoreBlock>, slots: Seq<Option<ObligationEnv>>, queue: Seq<usize>, head: int, except: int) -> bool {
    forall|s: int| 0 <= s < slots.len() && (#[trigger] slots[s]) is Some && !pending(queue, head, s) && s != except
        ==> settled(blocks, slots, s)
}

proof fn lemma_settled_after_merge(blocks: Seq<CoreBlock>, slots: Seq<Option<ObligationEnv>>, queue: Seq<usize>, head: int, except: int, t: int, env: ObligationEnv, exit: Map<Seq<char>, ObligationStatus>)
    requires
        settled_unless_pending(blocks, slots, queue, head, except),
        0 <= t < slots.len(),
        slots.len() == blocks.len(),
        env@ == merged(match slots[t] { Some(e) => e@, None => Map::empty() }, exit),
        env@ != match slots[t] { Some(e) => e@, None => Map::empty() } || slots[t] is None ==> pending(queue, head, t),
    ensures
        settled_unless_pending(blocks, slots.update(t, Some(env)), queue, head, except),
{
    let after = slots.update(t, Some(env));
    assert forall|s: int| 0 <= s < after.len() && (#[trigger] after[s]) is Some && !pending(queue, head, s) && s != except
        implies settled(blocks, after, s) by {
        if s == t {
            assert(slots[t] is Some);
            assert(env@ == slots[t]->0@) by {
                if env@ != slots[t]->0@ {
                    assert(pending(queue, head, t));
                }
            }
            assert(settled(blocks, slots, s));
            assert forall|u: int| #[trigger] forward_step(blocks, s, u) implies after[u] is Some
                && absorbs(after[u]->0@, after_block(after[s]->0@, blocks[s])) by {
                lemma_forward_step_in_range(blocks, s, u);
                assert(slots[u] is Some && absorbs(slots[u]->0@, after_block(slots[s]->0@, blocks[s])));
                if u == t {
                    lemma_absorbs_after_merge(slots[u]->0@, after_block(slots[s]->0@, blocks[s]), exit);
                }
            }
        } else {
            assert(after[s] == slots[s]);
            assert(settled(blocks, slots, s));
            assert forall|u: int| #[trigger] forward_step(blocks, s, u) implies after[u] is Some
                && absorbs(after[u]->0@, after_block(after[s]->0@, blocks[s])) by {
                lemma_forward_step_in_range(blocks, s, u);
                assert(slots[u] is Some && absorbs(slots[u]->0@, after_block(slots[s]->0@, blocks[s])));
                if u == t {
                    lemma_absorbs_after_merge(slots[u]->0@, after_block(slots[s]->0@, blocks[s]), exit);
                }
            }
        }
    }
}

proof fn lemma_push_pending(queue: Seq<usize>, head: int, y: usize, s: int)
    requires
        pending(queue, head, s) || s == y,
        0 <= head <= queue.len(),
    ensures
        pending(queue.push(y), head, s),
{
    if s == y {
        assert(queue.push(y)[queue.len() as int] == y);
    } else {
        let j = choose|j: int| head <= j < queue.len() && queue[j] == s;
        assert(queue.push(y)[j] == s);
    }
}

proof fn lemma_settled_after_push(blocks: Seq<CoreBlock>, slots: Seq<Option<ObligationEnv>>, queue: Seq<usize>, head: int, except: int, y: usize)
    requires
        settled_unless_pending(blocks, slots, queue, head, except),
        0 <= head <= queue.len(),
    ensures
        settled_unless_pending(blocks, slots, queue.push(y), head, except),
{
    assert forall|s: int| 0 <= s < slots.len() && (#[trigger] slots[s]) is Some && !pending(queue.push(y), head, s) && s != except
        implies settled(blocks, slots, s) by {
        if pending(queue, head, s) {
            lemma_push_pending(queue, head, y, s);
        }
    }
}

/// The exit environment of the reached block at position `s`.
pub open spec fn pred_exit(blocks: Seq<CoreBlock>, slots: Seq<Option<ObligationEnv>>, s: int) -> Map<Seq<char>, ObligationStatus> {
    after_block(slots[s]->0@, blocks[s])
}

/// The block at position `s` is reached and steps forward to the one at `t`.
pub open spec fn is_pred(blocks: Seq<CoreBlock>, slots: Seq<Option<ObligationEnv>>, s: int, t: int) -> bool {
    0 <= s < slots.len() && slots[s] is Some && forward_step(blocks, s, t)
}

/// Merging the exits of `t`'s reached forward predecessors leaves binding `k`
/// branch-unresolved: one of them has it so, or two of them disagree on it.
pub open spec fn join_unresolved(blocks: Seq<CoreBlock>, slots: Seq<Option<ObligationEnv>>, t: int, k: Seq<char>) -> bool {
    ||| exists|s: int| #[trigger] is_pred(blocks, slots, s, t) && pred_exit(blocks, slots, s).contains_key(k)
        && pred_exit(blocks, slots, s)[k] == ObligationStatus::BranchUnresolved
    ||| exists|s1: int, s2: int| #[trigger] is_pred(blocks, slots, s1, t) && #[trigger] is_pred(blocks, slots, s2, t)
        && pred_exit(blocks, slots, s1).contains_key(k) && pred_exit(blocks, slots, s2).contains_key(k)
        && pred_exit(blocks, slots, s1)[k] != pred_exit(blocks, slots, s2)[k]
}

/// Some reached forward predecessor of `t` exits with binding `k` in state `v`.
pub open spec fn agreed_by(blocks: Seq<CoreBlock>, slots: Seq<Option<ObligationEnv>>, t: int, k: Seq<char>, v: ObligationStatus) -> bool {
    exists|s: int| #[trigger] is_pred(blocks, slots, s, t) && pred_exit(blocks, slots, s).contains_key(k)
        && pred_exit(blocks, slots, s)[k] == v
}

/// The merge of the exits of `t`'s reached forward predecessors: the
/// bindings any of them knows, each in the state they agree on, or
/// branch-unresolved where they do not. (The entry block adds the empty
/// environment, which changes nothing.)
pub open spec fn pred_join(blocks: Seq<CoreBlock>, slots: Seq<Option<ObligationEnv>>, t: int) -> Map<Seq<char>, ObligationStatus> {
    Map::new(
        |k: Seq<char>| exists|s: int| #[trigger] is_pred(blocks, slots, s, t) && pred_exit(blocks, slots, s).contains_key(k),
        |k: Seq<char>| if join_unresolved(blocks, slots, t, k) {
            ObligationStatus::BranchUnresolved
        } else {
            pred_exit(blocks, slots, choose|s: int| #[trigger] is_pred(blocks, slots, s, t) && pred_exit(blocks, slots, s).contains_key(k))[k]
        },
    )
}

/// Every binding of `m` is accounted for by `t`'s reached forward
/// predecessors: they leave it unresolved, or one of them exits with it in
/// the state `m` gives it.
pub open spec fn sound_value(blocks: Seq<CoreBlock>, slots: Seq<Option<ObligationEnv>>, t: int, m: Map<Seq<char>, ObligationStatus>) -> bool {
    forall|k: Seq<char>| #[trigger] m.contains_key(k) ==> join_unresolved(blocks, slots, t, k) || agreed_by(blocks, slots, t, k, m[k])
}

/// Every slot only grew from `slots` to `slots2`.
pub open spec fn grown(slots: Seq<Option<ObligationEnv>>, slots2: Seq<Option<ObligationEnv>>) -> bool {
    &&& slots.len() == slots2.len()
    &&& forall|s: int| 0 <= s < slots.len() && (#[trigger] slots[s]) is Some ==> slots2[s] is Some && absorbs(slots2[s]->0@, slots[s]->0@)
}

proof fn lemma_absorbs_key(b: Map<Seq<char>, ObligationStatus>, a: Map<Seq<char>, ObligationStatus>, k: Seq<char>)
    requires
        absorbs(b, a),
        a.contains_key(k),
    ensures
        b.contains_key(k),
        b[k] == a[k] || b[k] == ObligationStatus::BranchUnresolved,
{
    assert(merged(b, a).contains_key(k));
    assert(merged(b, a)[k] == b[k]);
}

proof fn lemma_absorbs_self(a: Map<Seq<char>, ObligationStatus>)
    ensures
        absorbs(a, a),
{
    assert(merged(a, a) =~= a);
}

proof fn lemma_after_statements_mono(a: Map<Seq<char>, ObligationStatus>, b: Map<Seq<char>, ObligationStatus>, sts: Seq<CoreStatement>, n: int)
    requires
        absorbs(b, a),
    ensures
        absorbs(after_statements(b, sts, n), after_statements(a, sts, n)),
    decreases n,
{
    if n > 0 {
        lemma_after_statements_mono(a, b, sts, n - 1);
        let pa = after_statements(a, sts, n - 1);
        let pb = after_statements(b, sts, n - 1);
        match (sts[n - 1].binding, status_after(sts[n - 1].kind)) {
            (Some(binding), Some(status)) => {
                let qa = pa.insert(binding@, status);
                let qb = pb.insert(binding@, status);
                assert forall|k: Seq<char>| qa.contains_key(k) implies qb.contains_key(k) && merged(qb, qa)[k] == qb[k] by {
                    if k != binding@ {
                        lemma_absorbs_key(pb, pa, k);
                    }
                }
                assert(merged(qb, qa) =~= qb);
            },
            _ => {},
        }
    }
}

proof fn lemma_grown_sound(blocks: Seq<CoreBlock>, slots: Seq<Option<ObligationEnv>>, slots2: Seq<Option<ObligationEnv>>, t: int, m: Map<Seq<char>, ObligationStatus>)
    requires
        grown(slots, slots2),
        sound_value(blocks, slots, t, m),
    ensures
        sound_value(blocks, slots2, t, m),
{
    assert forall|s: int| #[trigger] is_pred(blocks, slots, s, t) implies is_pred(blocks, slots2, s, t)
        && absorbs(pred_exit(blocks, slots2, s), pred_exit(blocks, slots, s)) by {
        lemma_after_statements_mono(slots[s]->0@, slots2[s]->0@, blocks[s].statements@, blocks[s].statements@.len() as int);
    }
    assert forall|k: Seq<char>| #[trigger] m.contains_key(k) implies join_unresolved(blocks, slots2, t, k) || agreed_by(blocks, slots2, t, k, m[k]) by {
        if exists|s: int| #[trigger] is_pred(blocks, slots, s, t) && pred_exit(blocks, slots, s).contains_key(k)
            && pred_exit(blocks, slots, s)[k] == ObligationStatus::BranchUnresolved {
            let s = choose|s: int| #[trigger] is_pred(blocks, slots, s, t) && pred_exit(blocks, slots, s).contains_key(k)
                && pred_exit(blocks, slots, s)[k] == ObligationStatus::BranchUnresolved;
            lemma_absorbs_key(pred_exit(blocks, slots2, s), pred_exit(blocks, slots, s), k);
            assert(is_pred(blocks, slots2, s, t));
        } else if exists|s1: int, s2: int| #[trigger] is_pred(blocks, slots, s1, t) && #[trigger] is_pred(blocks, slots, s2, t)
            && pred_exit(blocks, slots, s1).contains_key(k) && pred_exit(blocks, slots, s2).contains_key(k)
            && pred_exit(blocks, slots, s1)[k] != pred_exit(blocks, slots, s2)[k] {
            let (s1, s2) = choose|s1: int, s2: int| #[trigger] is_pred(blocks, slots, s1, t) && #[trigger] is_pred(blocks, slots, s2, t)
                && pred_exit(blocks, slots, s1).contains_key(k) && pred_exit(blocks, slots, s2).contains_key(k)
                && pred_exit(blocks, slots, s1)[k] != pred_exit(blocks, slots, s2)[k];
            lemma_absorbs_key(pred_exit(blocks, slots2, s1), pred_exit(blocks, slots, s1), k);
            lemma_absorbs_key(pred_exit(blocks, slots2, s2), pred_exit(blocks, slots, s2), k);
            assert(is_pred(blocks, slots2, s1, t));
            assert(is_pred(blocks, slots2, s2, t));
        } else {
            let s = choose|s: int| #[trigger] is_pred(blocks, slots, s, t) && pred_exit(blocks, slots, s).contains_key(k)
                && pred_exit(blocks, slots, s)[k] == m[k];
            lemma_absorbs_key(pred_exit(blocks, slots2, s), pred_exit(blocks, slots, s), k);
            assert(is_pred(blocks, slots2, s, t));
        }
    }
}

proof fn lemma_merge_sound(blocks: Seq<CoreBlock>, slots: Seq<Option<ObligationEnv>>, t: int, x: int, old: Map<Seq<char>, ObligationStatus>, exit: Map<Seq<char>, ObligationStatus>)
    requires
        sound_value(blocks, slots, t, old),
        is_pred(blocks, slots, x, t),
        absorbs(pred_exit(blocks, slots, x), exit),
    ensures
        sound_value(blocks, slots, t, merged(old, exit)),
{
    let m = merged(old, exit);
    assert forall|k: Seq<char>| #[trigger] m.contains_key(k) implies join_unresolved(blocks, slots, t, k) || agreed_by(blocks, slots, t, k, m[k]) by {
        if exit.contains_key(k) {
            lemma_absorbs_key(pred_exit(blocks, slots, x), exit, k);
            if pred_exit(blocks, slots, x)[k] == ObligationStatus::BranchUnresolved {
                assert(join_unresolved(blocks, slots, t, k));
            } else if old.contains_key(k) && old[k] != exit[k] {
                assert(old.contains_key(k));
                if !join_unresolved(blocks, slots, t, k) {
                    let s = choose|s: int| #[trigger] is_pred(blocks, slots, s, t) && pred_exit(blocks, slots, s).contains_key(k)
                        && pred_exit(blocks, slots, s)[k] == old[k];
                    assert(pred_exit(blocks, slots, s)[k] != pred_exit(blocks, slots, x)[k]);
                    assert(is_pred(blocks, slots, s, t) && is_pred(blocks, slots, x, t));
                    assert(false);
                }
            } else {
                assert(m[k] == exit[k]);
                assert(agreed_by(blocks, slots, t, k, m[k]));
            }
        } else {
            assert(old.contains_key(k));
            assert(m[k] == old[k]);
        }
    }
}

proof fn lemma_join_exact(blocks: Seq<CoreBlock>, slots: Seq<Option<ObligationEnv>>, t: int, m: Map<Seq<char>, ObligationStatus>)
    requires
        sound_value(blocks, slots, t, m),
        forall|s: int| #[trigger] is_pred(blocks, slots, s, t) ==> absorbs(m, pred_exit(blocks, slots, s)),
    ensures
        m == pred_join(blocks, slots, t),
{
    let j = pred_join(blocks, slots, t);
    assert forall|k: Seq<char>| #[trigger] m.contains_key(k) <==> j.contains_key(k) by {
        if m.contains_key(k) {
            if exists|s: int| #[trigger] is_pred(blocks, slots, s, t) && pred_exit(blocks, slots, s).contains_key(k)
                && pred_exit(blocks, slots, s)[k] == ObligationStatus::BranchUnresolved {
            } else if exists|s1: int, s2: int| #[trigger] is_pred(blocks, slots, s1, t) && #[trigger] is_pred(blocks, slots, s2, t)
                && pred_exit(blocks, slots, s1).contains_key(k) && pred_exit(blocks, slots, s2).contains_key(k)
                && pred_exit(blocks, slots, s1)[k] != pred_exit(blocks, slots, s2)[k] {
                let (s1, s2) = choose|s1: int, s2: int| #[trigger] is_pred(blocks, slots, s1, t) && #[trigger] is_pred(blocks, slots, s2, t)
                    && pred_exit(blocks, slots, s1).contains_key(k) && pred_exit(blocks, slots, s2).contains_key(k)
                    && pred_exit(blocks, slots, s1)[k] != pred_exit(blocks, slots, s2)[k];
                assert(is_pred(blocks, slots, s1, t));
            } else {
                assert(agreed_by(blocks, slots, t, k, m[k]));
            }
        }
        if j.contains_key(k) {
            let s = choose|s: int| #[trigger] is_pred(blocks, slots, s, t) && pred_exit(blocks, slots, s).contains_key(k);
            lemma_absorbs_key(m, pred_exit(blocks, slots, s), k);
        }
    }
    assert forall|k: Seq<char>| #[trigger] m.contains_key(k) implies m[k] == j[k] by {
        if exists|s: int| #[trigger] is_pred(blocks, slots, s, t) && pred_exit(blocks, slots, s).contains_key(k)
            && pred_exit(blocks, slots, s)[k] == ObligationStatus::BranchUnresolved {
            let s = choose|s: int| #[trigger] is_pred(blocks, slots, s, t) && pred_exit(blocks, slots, s).contains_key(k)
                && pred_exit(blocks, slots, s)[k] == ObligationStatus::BranchUnresolved;
            lemma_absorbs_key(m, pred_exit(blocks, slots, s), k);
        } else if exists|s1: int, s2: int| #[trigger] is_pred(blocks, slots, s1, t) && #[trigger] is_pred(blocks, slots, s2, t)
            && pred_exit(blocks, slots, s1).contains_key(k) && pred_exit(blocks, slots, s2).contains_key(k)
            && pred_exit(blocks, slots, s1)[k] != pred_exit(blocks, slots, s2)[k] {
            let (s1, s2) = choose|s1: int, s2: int| #[trigger] is_pred(blocks, slots, s1, t) && #[trigger] is_pred(blocks, slots, s2, t)
                && pred_exit(blocks, slots, s1).contains_key(k) && pred_exit(blocks, slots, s2).contains_key(k)
                && pred_exit(blocks, slots, s1)[k] != pred_exit(blocks, slots, s2)[k];
            lemma_absorbs_key(m, pred_exit(blocks, slots, s1), k);
            lemma_absorbs_key(m, pred_exit(blocks, slots, s2), k);
        } else {
            let w = choose|s: int| #[trigger] is_pred(blocks, slots, s, t) && pred_exit(blocks, slots, s).contains_key(k)
                && pred_exit(blocks, slots, s)[k] == m[k];
            assert(is_pred(blocks, slots, w, t) && pred_exit(blocks, slots, w).contains_key(k));
            let c = choose|s: int| #[trigger] is_pred(blocks, slots, s, t) && pred_exit(blocks, slots, s).contains_key(k);
            if pred_exit(blocks, slots, c)[k] != pred_exit(blocks, slots, w)[k] {
                assert(is_pred(blocks, slots, c, t) && is_pred(blocks, slots, w, t));
                assert(false);
            }
        }
    }
    assert(m =~= j);
}

/// Every reached slot is accounted for by its reached forward predecessors.
pub open spec fn all_sound(blocks: Seq<CoreBlock>, slots: Seq<Option<ObligationEnv>>) -> bool {
    forall|t: int| 0 <= t < slots.len() && (#[trigger] slots[t]) is Some ==> sound_value(blocks, slots, t, slots[t]->0@)
}

proof fn lemma_merge_step_sound(blocks: Seq<CoreBlock>, s0: Seq<Option<ObligationEnv>>, t: int, x: int, env_x: Map<Seq<char>, ObligationStatus>, exit: Map<Seq<char>, ObligationStatus>, env: ObligationEnv)
    requires
        all_sound(blocks, s0),
        0 <= t < s0.len(),
        0 <= x < s0.len(),
        s0.len() == blocks.len(),
        s0[x] is Some,
        forward_step(blocks, x, t),
        absorbs(s0[x]->0@, env_x),
        exit == after_block(env_x, blocks[x]),
        env@ == merged(match s0[t] { Some(e) => e@, None => Map::empty() }, exit),
    ensures
        all_sound(blocks, s0.update(t, Some(env))),
        grown(s0, s0.update(t, Some(env))),
        absorbs(s0.update(t, Some(env))[x]->0@, env_x),
{
    let before = match s0[t] { Some(e) => e@, None => Map::<Seq<char>, ObligationStatus>::empty() };
    let s1 = s0.update(t, Some(env));
    lemma_absorbs_self(before);
    lemma_absorbs_after_merge(before, before, exit);
    assert forall|s: int| 0 <= s < s0.len() && (#[trigger] s0[s]) is Some implies s1[s] is Some && absorbs(s1[s]->0@, s0[s]->0@) by {
        if s == t {
        } else {
            assert(s1[s] == s0[s]);
            lemma_absorbs_self(s0[s]->0@);
        }
    }
    assert(grown(s0, s1));
    lemma_after_statements_mono(env_x, s0[x]->0@, blocks[x].statements@, blocks[x].statements@.len() as int);
    assert(is_pred(blocks, s0, x, t));
    if s0[t] is Some {
        assert(sound_value(blocks, s0, t, before));
    } else {
        assert(sound_value(blocks, s0, t, before));
    }
    lemma_merge_sound(blocks, s0, t, x, before, exit);
    lemma_grown_sound(blocks, s0, s1, t, env@);
    assert forall|u: int| 0 <= u < s1.len() && (#[trigger] s1[u]) is Some implies sound_value(blocks, s1, u, s1[u]->0@) by {
        if u != t {
            assert(s1[u] == s0[u]);
            lemma_grown_sound(blocks, s0, s1, u, s0[u]->0@);
        }
    }
    if x == t {
        lemma_absorbs_after_merge(s0[x]->0@, env_x, exit);
    } else {
        assert(s1[x] == s0[x]);
    }
}

/// The entry slot of a function: the position a map of its blocks keyed by
/// id holds for its first block's id.
pub open spec fn entry_slot(blocks: Seq<CoreBlock>) -> int {
    last_block_position(blocks, blocks[0].id@, blocks.len() as int)->0
}

proof fn lemma_weight_after_merge(slots: Seq<Option<ObligationEnv>>, t: int, env: ObligationEnv, cap: nat, before: Map<Seq<char>, ObligationStatus>)
    requires
        0 <= t < slots.len(),
        before == match slots[t] { Some(e) => e@, None => Map::<Seq<char>, ObligationStatus>::empty() },
        height(before) <= height(env@),
        height(env@) <= 2 * cap,
    ensures
        total_weight(slots.update(t, Some(env)), cap) <= total_weight(slots, cap),
        (slots[t] is None || height(before) < height(env@)) ==> total_weight(slots.update(t, Some(env)), cap) < total_weight(slots, cap),
{
    lemma_total_update(slots, t, Some(env), cap);
}

/// Every block is named `bbN`.
pub open spec fn numbered_blocks(blocks: Seq<CoreBlock>) -> bool {
    forall|i: int| 0 <= i < blocks.len() ==> (#[trigger] crate::core_cfg::block_number(blocks[i].id@)) is Some
}

/// What a replay of entry environments is: the entry block's is there, every
/// one that is there is reached from it, settled under its forward edges, and
/// exactly the merge of the exits of its reached forward predecessors.
pub open spec fn is_replay_fixpoint(blocks: Seq<CoreBlock>, slots: Seq<Option<ObligationEnv>>) -> bool {
    &&& slots.len() == blocks.len()
    &&& blocks.len() > 0
    &&& slots[entry_slot(blocks)] is Some
    &&& slots_ok(blocks, slots, entry_slot(blocks))
    &&& forall|s: int| 0 <= s < slots.len() && (#[trigger] slots[s]) is Some ==> settled(blocks, slots, s)
    &&& forall|t: int| 0 <= t < slots.len() && (#[trigger] slots[t]) is Some ==> slots[t]->0@ == pred_join(blocks, slots, t)
}

proof fn lemma_forward_step_numbers(blocks: Seq<CoreBlock>, s: int, t: int)
    requires
        numbered_blocks(blocks),
        forward_step(blocks, s, t),
    ensures
        0 <= t < blocks.len(),
        crate::core_cfg::block_number(blocks[s].id@)->0 < crate::core_cfg::block_number(blocks[t].id@)->0,
{
    let j = choose|j: int| 0 <= j < successor_targets(blocks[s]).len()
        && !back_edge_between(blocks[s].id@, #[trigger] successor_targets(blocks[s])[j])
        && last_block_position(blocks, successor_targets(blocks[s])[j], blocks.len() as int) == Some(t);
    lemma_last_block_position(blocks, successor_targets(blocks[s])[j], blocks.len() as int);
    assert(crate::core_cfg::block_number(blocks[s].id@) is Some);
    assert(crate::core_cfg::block_number(blocks[t].id@) is Some);
}

proof fn lemma_path_reached(blocks: Seq<CoreBlock>, slots: Seq<Option<ObligationEnv>>, path: Seq<int>, i: int)
    requires
        is_replay_fixpoint(blocks, slots),
        path.len() >= 1,
        path[0] == entry_slot(blocks),
        forall|k: int| 0 <= k < path.len() - 1 ==> forward_step(blocks, #[trigger] path[k], path[k + 1]),
        0 <= i < path.len(),
    ensures
        0 <= path[i] < slots.len(),
        slots[path[i]] is Some,
    decreases i,
{
    if i == 0 {
        lemma_last_block_position_found(blocks, blocks[0].id@, blocks.len() as int, 0);
        lemma_last_block_position(blocks, blocks[0].id@, blocks.len() as int);
    } else {
        lemma_path_reached(blocks, slots, path, i - 1);
        assert(forward_step(blocks, path[i - 1], path[i]));
        lemma_forward_step_in_range(blocks, path[i - 1], path[i]);
        assert(settled(blocks, slots, path[i - 1]));
    }
}

proof fn lemma_fixpoints_reach_alike(blocks: Seq<CoreBlock>, s1: Seq<Option<ObligationEnv>>, s2: Seq<Option<ObligationEnv>>, t: int)
    requires
        is_replay_fixpoint(blocks, s1),
        is_replay_fixpoint(blocks, s2),
        0 <= t < blocks.len(),
        s1[t] is Some,
    ensures
        s2[t] is Some,
{
    assert(reaches(blocks, entry_slot(blocks), t));
    let path = choose|path: Seq<int>| path.len() >= 1 && path[0] == entry_slot(blocks) && path.last() == t
        && forall|i: int| 0 <= i < path.len() - 1 ==> forward_step(blocks, #[trigger] path[i], path[i + 1]);
    lemma_path_reached(blocks, s2, path, path.len() - 1);
}

/// Where every block is named `bbN`, the forward edges never return to a
/// block, and the replay's entry environments are determined: two replays
/// that both meet the fixed-point equations reach the same blocks with the
/// same environments.
pub proof fn lemma_replay_fixpoint_unique(blocks: Seq<CoreBlock>, s1: Seq<Option<ObligationEnv>>, s2: Seq<Option<ObligationEnv>>, t: int)
    requires
        numbered_blocks(blocks),
        is_replay_fixpoint(blocks, s1),
        is_replay_fixpoint(blocks, s2),
        0 <= t < blocks.len(),
    ensures
        s1[t] is Some <==> s2[t] is Some,
        s1[t] is Some ==> s1[t]->0@ == s2[t]->0@,
    decreases crate::core_cfg::block_number(blocks[t].id@)->0,
{
    if s1[t] is Some {
        lemma_fixpoints_reach_alike(blocks, s1, s2, t);
    }
    if s2[t] is Some {
        lemma_fixpoints_reach_alike(blocks, s2, s1, t);
    }
    if s1[t] is Some {
        assert forall|s: int| #[trigger] is_pred(blocks, s1, s, t) == is_pred(blocks, s2, s, t)
            && (is_pred(blocks, s1, s, t) ==> pred_exit(blocks, s1, s) == pred_exit(blocks, s2, s)) by {
            if 0 <= s < blocks.len() && forward_step(blocks, s, t) {
                lemma_forward_step_numbers(blocks, s, t);
                lemma_replay_fixpoint_unique(blocks, s1, s2, s);
            }
        }
        let j1 = pred_join(blocks, s1, t);
        let j2 = pred_join(blocks, s2, t);
        assert forall|k: Seq<char>| #[trigger] join_unresolved(blocks, s1, t, k) == join_unresolved(blocks, s2, t, k) by {
            if join_unresolved(blocks, s1, t, k) {
                if exists|s: int| #[trigger] is_pred(blocks, s1, s, t) && pred_exit(blocks, s1, s).contains_key(k)
                    && pred_exit(blocks, s1, s)[k] == ObligationStatus::BranchUnresolved {
                    let s = choose|s: int| #[trigger] is_pred(blocks, s1, s, t) && pred_exit(blocks, s1, s).contains_key(k)
                        && pred_exit(blocks, s1, s)[k] == ObligationStatus::BranchUnresolved;
                    assert(is_pred(blocks, s2, s, t));
                } else {
                    let (a, b) = choose|a: int, b: int| #[trigger] is_pred(blocks, s1, a, t) && #[trigger] is_pred(blocks, s1, b, t)
                        && pred_exit(blocks, s1, a).contains_key(k) && pred_exit(blocks, s1, b).contains_key(k)
                        && pred_exit(blocks, s1, a)[k] != pred_exit(blocks, s1, b)[k];
                    assert(is_pred(blocks, s2, a, t) && is_pred(blocks, s2, b, t));
                }
            }
            if join_unresolved(blocks, s2, t, k) {
                if exists|s: int| #[trigger] is_pred(blocks, s2, s, t) && pred_exit(blocks, s2, s).contains_key(k)
                    && pred_exit(blocks, s2, s)[k] == ObligationStatus::BranchUnresolved {
                    let s = choose|s: int| #[trigger] is_pred(blocks, s2, s, t) && pred_exit(blocks, s2, s).contains_key(k)
                        && pred_exit(blocks, s2, s)[k] == ObligationStatus::BranchUnresolved;
                    assert(is_pred(blocks, s1, s, t));
                } else {
                    let (a, b) = choose|a: int, b: int| #[trigger] is_pred(blocks, s2, a, t) && #[trigger] is_pred(blocks, s2, b, t)
                        && pred_exit(blocks, s2, a).contains_key(k) && pred_exit(blocks, s2, b).contains_key(k)
                        && pred_exit(blocks, s2, a)[k] != pred_exit(blocks, s2, b)[k];
                    assert(is_pred(blocks, s1, a, t) && is_pred(blocks, s1, b, t));
                }
            }
        }
        assert forall|k: Seq<char>| j1.contains_key(k) <==> j2.contains_key(k) by {
            if j1.contains_key(k) {
                let s = choose|s: int| #[trigger] is_pred(blocks, s1, s, t) && pred_exit(blocks, s1, s).contains_key(k);
                assert(is_pred(blocks, s2, s, t));
            }
            if j2.contains_key(k) {
                let s = choose|s: int| #[trigger] is_pred(blocks, s2, s, t) && pred_exit(blocks, s2, s).contains_key(k);
                assert(is_pred(blocks, s1, s, t));
            }
        }
        assert forall|k: Seq<char>| j1.contains_key(k) implies j1[k] == j2[k] by {
            if !join_unresolved(blocks, s1, t, k) {
                let c1 = choose|s: int| #[trigger] is_pred(blocks, s1, s, t) && pred_exit(blocks, s1, s).contains_key(k);
                let c2 = choose|s: int| #[trigger] is_pred(blocks, s2, s, t) && pred_exit(blocks, s2, s).contains_key(k);
                assert(is_pred(blocks, s1, c2, t));
                assert(pred_exit(blocks, s1, c1)[k] == pred_exit(blocks, s1, c2)[k]);
            }
        }
        assert(j1 =~= j2);
    }
}

/// The entry environments of a function's blocks, replayed to a fixed point
/// over the forward edges (back edges between `bbN` blocks are not followed):
/// the entry block starts empty, and each block's exit environment is merged
/// into the entry environment of each forward successor. The result has a
/// slot per block position; a reached block's environment stands at the last
/// position of its id.
pub fn replay_entry_envs(function: &CoreFunction) -> (slots: Vec<Option<ObligationEnv>>)
    ensures
        slots@.len() == function.blocks@.len(),
        function.blocks@.len() > 0 ==> slots@[entry_slot(function.blocks@)] is Some,
        function.blocks@.len() > 0 ==> slots_ok(function.blocks@, slots@, entry_slot(function.blocks@)),
        forall|s: int| 0 <= s < slots@.len() && (#[trigger] slots@[s]) is Some ==> settled(function.blocks@, slots@, s),
        forall|t: int| 0 <= t < slots@.len() && (#[trigger] slots@[t]) is Some ==> slots@[t]->0@ == pred_join(function.blocks@, slots@, t),
        function.blocks@.len() > 0 ==> is_replay_fixpoint(function.blocks@, slots@),
{
    let ghost bs = function.blocks@;
    let n = function.blocks.len();
    let mut slots: Vec<Option<ObligationEnv>> = Vec::new();
    if n == 0 {
        return slots;
    }
    let ghost universe = binding_universe(bs);
    let ghost cap = universe.len();
    proof {
        vstd::seq_lib::seq_to_set_is_finite(block_bindings(bs, bs.len() as int));
        lemma_last_block_position(bs, bs[0].id@, n as int);
        lemma_last_block_position_found(bs, bs[0].id@, n as int, 0);
    }
    let entry = match find_last_block(function.blocks.as_slice(), function.blocks[0].id.as_str()) {
        Some(e) => e,
        None => {
            proof {
                assert(false);
            }
            return slots;
        },
    };
    while slots.len() < n
        invariant
            slots@.len() <= n,
            n == bs.len(),
            forall|i: int| 0 <= i < slots@.len() ==> (#[trigger] slots@[i]) is None,
        decreases n - slots@.len(),
    {
        slots.push(None);
    }
    let ghost before_entry = slots@;
    slots.set(entry, Some(ObligationEnv::new()));
    let mut queue: Vec<usize> = Vec::new();
    queue.push(entry);
    let mut head: usize = 0;
    proof {
        assert(universe.finite());
        let empty = Map::<Seq<char>, ObligationStatus>::empty();
        assert(empty.dom() =~= Set::<Seq<char>>::empty());
        assert(unresolved_keys(empty) =~= Set::<Seq<char>>::empty());
        let p = seq![entry as int];
        assert(p.last() == entry as int);
        assert(reaches(bs, entry as int, entry as int));
        assert(queue@[0] == entry);
        assert(slots_ok(bs, slots@, entry as int)) by {
            assert forall|s: int| 0 <= s < slots@.len() && (#[trigger] slots@[s]) is Some implies {
                &&& slots@[s]->0.wf()
                &&& slots@[s]->0@.dom().subset_of(binding_universe(bs))
                &&& height(slots@[s]->0@) <= 2 * binding_universe(bs).len()
                &&& last_block_position(bs, bs[s].id@, bs.len() as int) == Some(s)
                &&& reaches(bs, entry as int, s)
            } by {
                if s != entry {
                    assert(slots@[s] == before_entry[s]);
                }
            }
        }
        assert(settled_unless_pending(bs, slots@, queue@, 0, -1)) by {
            assert forall|s: int| 0 <= s < slots@.len() && (#[trigger] slots@[s]) is Some && !pending(queue@, 0, s) && s != -1
                implies settled(bs, slots@, s) by {
                if s != entry {
                    assert(slots@[s] == before_entry[s]);
                }
            }
        }
        lemma_total_nonneg(slots@, cap);
        assert(all_sound(bs, slots@)) by {
            assert forall|t: int| 0 <= t < slots@.len() && (#[trigger] slots@[t]) is Some implies sound_value(bs, slots@, t, slots@[t]->0@) by {
                if t != entry {
                    assert(slots@[t] == before_entry[t]);
                }
                assert(slots@[t]->0@ =~= Map::<Seq<char>, ObligationStatus>::empty());
            }
        }
    }
    while head < queue.len()
        invariant
            bs == function.blocks@,
            n == bs.len(),
            n > 0,
            universe == binding_universe(bs),
            universe.finite(),
            cap == universe.len(),
            slots@.len() == n,
            entry < n,
            entry as int == entry_slot(bs),
            slots@[entry as int] is Some,
            head <= queue@.len(),
            forall|q: int| 0 <= q < queue@.len() ==> (#[trigger] queue@[q]) < n && slots@[queue@[q] as int] is Some,
            slots_ok(bs, slots@, entry as int),
            settled_unless_pending(bs, slots@, queue@, head as int, -1),
            all_sound(bs, slots@),
            total_weight(slots@, cap) >= 0,
        decreases total_weight(slots@, cap), queue@.len() - head,
    {
        let ghost weight0 = total_weight(slots@, cap);
        let ghost qlen0 = queue@.len();
        let x = queue[head];
        proof {
            assert(queue@[head as int] == x);
        }
        let ghost old_head = head as int;
        head = head + 1;
        let entry_env = match &slots[x] {
            Some(env) => env.copy(),
            None => {
                proof {
                    assert(false);
                }
                ObligationEnv::new()
            },
        };
        let ghost env_x = entry_env@;
        proof {
            assert(slots@[x as int] is Some);
            lemma_absorbs_self(env_x);
            lemma_after_block_within(bs, x as int, env_x);
        }
        let exit = apply_block_obligation_statements(&function.blocks[x], entry_env);
        let targets = block_successor_targets(&function.blocks[x]);
        proof {
            assert forall|s: int| 0 <= s < slots@.len() && (#[trigger] slots@[s]) is Some && !pending(queue@, head as int, s) && s != x
                implies settled(bs, slots@, s) by {
                if pending(queue@, old_head, s) {
                    let q = choose|q: int| old_head <= q < queue@.len() && queue@[q] == s;
                    assert(q != old_head);
                }
            }
        }
        let mut j: usize = 0;
        while j < targets.len()
            invariant
                bs == function.blocks@,
                n == bs.len(),
                n > 0,
                universe == binding_universe(bs),
                universe.finite(),
                cap == universe.len(),
                slots@.len() == n,
                entry < n,
                entry as int == entry_slot(bs),
                slots@[entry as int] is Some,
                0 < head <= queue@.len(),
                x < n,
                head as int == old_head + 1,
                qlen0 <= queue@.len(),
                slots@[x as int] is Some,
                exit.wf(),
                exit@ == after_block(env_x, bs[x as int]),
                exit@.dom().subset_of(universe),
                reaches(bs, entry as int, x as int),
                targets@.map_values(|t: String| t@) == successor_targets(bs[x as int]),
                slots@[x as int]->0@ != env_x ==> pending(queue@, head as int, x as int),
                forall|q: int| 0 <= q < queue@.len() ==> (#[trigger] queue@[q]) < n && slots@[queue@[q] as int] is Some,
                slots_ok(bs, slots@, entry as int),
                settled_unless_pending(bs, slots@, queue@, head as int, x as int),
                all_sound(bs, slots@),
                absorbs(slots@[x as int]->0@, env_x),
                forall|k: int| 0 <= k < j && !back_edge_between(bs[x as int].id@, #[trigger] successor_targets(bs[x as int])[k])
                    && last_block_position(bs, successor_targets(bs[x as int])[k], n as int) is Some
                    ==> slots@[last_block_position(bs, successor_targets(bs[x as int])[k], n as int)->0] is Some
                    && absorbs(slots@[last_block_position(bs, successor_targets(bs[x as int])[k], n as int)->0]->0@, exit@),
                total_weight(slots@, cap) >= 0,
                total_weight(slots@, cap) <= weight0,
                queue@.len() > qlen0 ==> total_weight(slots@, cap) < weight0,
                j <= targets@.len(),
            decreases targets@.len() - j,
        {
            let target = &targets[j];
            proof {
                assert(targets@.map_values(|t: String| t@)[j as int] == target@);
            }
            if is_back_edge_between_blocks(function.blocks[x].id.as_str(), target.as_str()) {
                j = j + 1;
                continue;
            }
            let t = match find_last_block(function.blocks.as_slice(), target.as_str()) {
                Some(t) => t,
                None => {
                    j = j + 1;
                    continue;
                },
            };
            proof {
                lemma_last_block_position(bs, target@, n as int);
                assert(forward_step(bs, x as int, t as int));
                lemma_reaches_step(bs, entry as int, x as int, t as int);
            }
            let ghost s0 = slots@;
            let ghost q0 = queue@;
            let current = slots.remove(t);
            let discovered = current.is_none();
            let mut env = match current {
                Some(e) => e,
                None => ObligationEnv::new(),
            };
            let ghost env_before = env@;
            proof {
                if discovered {
                    let empty = Map::<Seq<char>, ObligationStatus>::empty();
                    assert(empty.dom() =~= Set::<Seq<char>>::empty());
                    assert(unresolved_keys(empty) =~= Set::<Seq<char>>::empty());
                }
                assert(env_before == match s0[t as int] { Some(e) => e@, None => Map::<Seq<char>, ObligationStatus>::empty() });
            }
            let changed = merge_block_entry_env(&mut env, &exit);
            proof {
                lemma_merge_grows(env_before, exit@, universe);
                lemma_merge_absorbs(env_before, exit@);
            }
            slots.insert(t, Some(env));
            proof {
                assert(slots@ =~= s0.update(t as int, Some(env)));
                lemma_weight_after_merge(s0, t as int, env, cap, env_before);
                lemma_merge_step_sound(bs, s0, t as int, x as int, env_x, exit@, env);
            }
            if discovered || changed {
                queue.push(t);
                proof {
                    assert(queue@ =~= q0.push(t));
                    lemma_settled_after_push(bs, s0, q0, head as int, x as int, t);
                    lemma_push_pending(q0, head as int, t, t as int);
                    lemma_settled_after_merge(bs, s0, queue@, head as int, x as int, t as int, env, exit@);
                    if s0[x as int]->0@ != env_x {
                        lemma_push_pending(q0, head as int, t, x as int);
                    }
                }
            } else {
                proof {
                    assert(env@ == env_before);
                    lemma_settled_after_merge(bs, s0, queue@, head as int, x as int, t as int, env, exit@);
                }
            }
            proof {
                assert forall|q: int| 0 <= q < queue@.len() implies (#[trigger] queue@[q]) < n && slots@[queue@[q] as int] is Some by {
                    if q < q0.len() {
                        assert(queue@[q] == q0[q]);
                    }
                }
                assert(slots_ok(bs, slots@, entry as int)) by {
                    assert forall|s: int| 0 <= s < slots@.len() && (#[trigger] slots@[s]) is Some implies {
                        &&& slots@[s]->0.wf()
                        &&& slots@[s]->0@.dom().subset_of(binding_universe(bs))
                        &&& height(slots@[s]->0@) <= 2 * binding_universe(bs).len()
                        &&& last_block_position(bs, bs[s].id@, bs.len() as int) == Some(s)
                        &&& reaches(bs, entry as int, s)
                    } by {
                        if s != t {
                            assert(slots@[s] == s0[s]);
                        } else {
                            assert(bs[s].id@ == target@);
                        }
                    }
                }
                assert forall|k: int| 0 <= k < j + 1 && !back_edge_between(bs[x as int].id@, #[trigger] successor_targets(bs[x as int])[k])
                    && last_block_position(bs, successor_targets(bs[x as int])[k], n as int) is Some
                    implies slots@[last_block_position(bs, successor_targets(bs[x as int])[k], n as int)->0] is Some
                    && absorbs(slots@[last_block_position(bs, successor_targets(bs[x as int])[k], n as int)->0]->0@, exit@) by {
                    let u = last_block_position(bs, successor_targets(bs[x as int])[k], n as int)->0;
                    lemma_last_block_position(bs, successor_targets(bs[x as int])[k], n as int);
                    if u == t {
                        if k < j {
                            lemma_absorbs_after_merge(s0[u]->0@, exit@, exit@);
                        }
                    } else {
                        assert(slots@[u] == s0[u]);
                    }
                }
                lemma_total_nonneg(slots@, cap);
            }
            j = j + 1;
        }
        proof {
            if !pending(queue@, head as int, x as int) {
                assert(slots@[x as int]->0@ == env_x);
                assert forall|u: int| #[trigger] forward_step(bs, x as int, u) implies slots@[u] is Some
                    && absorbs(slots@[u]->0@, after_block(slots@[x as int]->0@, bs[x as int])) by {
                    let k = choose|k: int| 0 <= k < successor_targets(bs[x as int]).len()
                        && !back_edge_between(bs[x as int].id@, #[trigger] successor_targets(bs[x as int])[k])
                        && last_block_position(bs, successor_targets(bs[x as int])[k], bs.len() as int) == Some(u);
                }
                assert(settled(bs, slots@, x as int));
            }
            assert(settled_unless_pending(bs, slots@, queue@, head as int, -1));
        }
    }
    proof {
        assert forall|s: int| 0 <= s < slots@.len() && (#[trigger] slots@[s]) is Some implies settled(bs, slots@, s) by {
            assert(!pending(queue@, head as int, s));
        }
        assert forall|t: int| 0 <= t < slots@.len() && (#[trigger] slots@[t]) is Some implies slots@[t]->0@ == pred_join(bs, slots@, t) by {
            assert forall|s: int| #[trigger] is_pred(bs, slots@, s, t) implies absorbs(slots@[t]->0@, pred_exit(bs, slots@, s)) by {
                assert(settled(bs, slots@, s));
            }
            lemma_join_exact(bs, slots@, t, slots@[t]->0@);
        }
    }
    slots
}

/// A function's obligation replay: the entry and exit environments of its
/// reached blocks (by block position, at the last position of each id) and
/// the exit environments of its terminal blocks.
#[derive(Debug)]
pub struct FunctionObligationReplay {
    pub block_entry_envs: Vec<Option<ObligationEnv>>,
    pub block_exit_envs: Vec<Option<ObligationEnv>>,
    pub terminal_envs: Vec<ObligationEnv>,
}

/// A block ends the function: it has no edges, or one of them leaves it.
pub open spec fn terminal_block(block: CoreBlock) -> bool {
    successor_targets(block).len() == 0
        || exists|j: int| 0 <= j < successor_targets(block).len() && exit_target(#[trigger] successor_targets(block)[j])
}

/// The exit environment a map keyed by block id holds for `id`.
pub open spec fn exit_for(blocks: Seq<CoreBlock>, slots: Seq<Option<ObligationEnv>>, id: Seq<char>) -> Option<Map<Seq<char>, ObligationStatus>> {
    match last_block_position(blocks, id, blocks.len() as int) {
        Some(s) => match slots[s] {
            Some(env) => Some(after_block(env@, blocks[s])),
            None => None,
        },
        None => None,
    }
}

/// The exit environments of the first `n` blocks that end the function, in
/// block order.
pub open spec fn terminal_exits(blocks: Seq<CoreBlock>, slots: Seq<Option<ObligationEnv>>, n: int) -> Seq<Map<Seq<char>, ObligationStatus>>
    decreases n,
{
    if n <= 0 {
        Seq::empty()
    } else {
        let prev = terminal_exits(blocks, slots, n - 1);
        if terminal_block(blocks[n - 1]) && exit_for(blocks, slots, blocks[n - 1].id@) is Some {
            prev.push(exit_for(blocks, slots, blocks[n - 1].id@)->0)
        } else {
            prev
        }
    }
}

fn is_terminal(block: &CoreBlock) -> (r: bool)
    ensures
        r == terminal_block(*block),
{
    let targets = block_successor_targets(block);
    let ghost views = targets@.map_values(|t: String| t@);
    if targets.len() == 0 {
        return true;
    }
    let mut j: usize = 0;
    while j < targets.len()
        invariant
            j <= targets@.len(),
            views == targets@.map_values(|t: String| t@),
            views == successor_targets(*block),
            forall|k: int| 0 <= k < j ==> !exit_target(#[trigger] views[k]),
        decreases targets@.len() - j,
    {
        if modeled_exit_target(targets[j].as_str()) {
            proof {
                assert(views[j as int] == targets@[j as int]@);
            }
            return true;
        }
        proof {
            assert(views[j as int] == targets@[j as int]@);
        }
        j = j + 1;
    }
    false
}

/// What the replay of a function holds: an entry environment for every block
/// that the entry block reaches and for no other, each exactly the merge of the
/// exits of its reached forward predecessors (the entry block's starts empty),
/// the exit environment of each such block, and the exits of its terminal
/// blocks.
pub open spec fn replay_ok(function: CoreFunction, replay: FunctionObligationReplay) -> bool {
    &&& replay.block_entry_envs@.len() == function.blocks@.len()
    &&& function.blocks@.len() > 0 ==> replay.block_entry_envs@[entry_slot(function.blocks@)] is Some
    &&& function.blocks@.len() > 0 ==> slots_ok(function.blocks@, replay.block_entry_envs@, entry_slot(function.blocks@))
    &&& forall|s: int| 0 <= s < replay.block_entry_envs@.len() && (#[trigger] replay.block_entry_envs@[s]) is Some
        ==> settled(function.blocks@, replay.block_entry_envs@, s)
    &&& forall|t: int| 0 <= t < replay.block_entry_envs@.len() && (#[trigger] replay.block_entry_envs@[t]) is Some
        ==> replay.block_entry_envs@[t]->0@ == pred_join(function.blocks@, replay.block_entry_envs@, t)
    &&& replay.block_exit_envs@.len() == function.blocks@.len()
    &&& forall|s: int| 0 <= s < function.blocks@.len() ==> match (#[trigger] replay.block_exit_envs@[s], replay.block_entry_envs@[s]) {
        (Some(exit), Some(entry)) => exit.wf() && exit@ == after_block(entry@, function.blocks@[s]),
        (None, None) => true,
        _ => false,
    }
    &&& replay.terminal_envs@.len() == terminal_exits(function.blocks@, replay.block_entry_envs@, function.blocks@.len() as int).len()
    &&& forall|k: int| 0 <= k < replay.terminal_envs@.len() ==> (#[trigger] replay.terminal_envs@[k]).wf()
        && replay.terminal_envs@[k]@ == terminal_exits(function.blocks@, replay.block_entry_envs@, function.blocks@.len() as int)[k]
}

/// Replays a function's obligations: entry environments to a fixed point, the
/// exit environment of each reached block, and those of the blocks that end
/// the function.
pub fn function_obligation_replay(function: &CoreFunction) -> (replay: FunctionObligationReplay)
    ensures
        replay.block_entry_envs@.len() == function.blocks@.len(),
        function.blocks@.len() > 0 ==> replay.block_entry_envs@[entry_slot(function.blocks@)] is Some,
        function.blocks@.len() > 0 ==> slots_ok(function.blocks@, replay.block_entry_envs@, entry_slot(function.blocks@)),
        forall|s: int| 0 <= s < replay.block_entry_envs@.len() && (#[trigger] replay.block_entry_envs@[s]) is Some
            ==> settled(function.blocks@, replay.block_entry_envs@, s),
        forall|t: int| 0 <= t < replay.block_entry_envs@.len() && (#[trigger] replay.block_entry_envs@[t]) is Some
            ==> replay.block_entry_envs@[t]->0@ == pred_join(function.blocks@, replay.block_entry_envs@, t),
        replay.block_exit_envs@.len() == function.blocks@.len(),
        forall|s: int| 0 <= s < function.blocks@.len() ==> match (#[trigger] replay.block_exit_envs@[s], replay.block_entry_envs@[s]) {
            (Some(exit), Some(entry)) => exit.wf() && exit@ == after_block(entry@, function.blocks@[s]),
            (None, None) => true,
            _ => false,
        },
        replay.terminal_envs@.len() == terminal_exits(function.blocks@, replay.block_entry_envs@, function.blocks@.len() as int).len(),
        forall|k: int| 0 <= k < replay.terminal_envs@.len() ==> (#[trigger] replay.terminal_envs@[k]).wf()
            && replay.terminal_envs@[k]@ == terminal_exits(function.blocks@, replay.block_entry_envs@, function.blocks@.len() as int)[k],
        replay_ok(*function, replay),
{
    let entries = replay_entry_envs(function);
    let ghost bs = function.blocks@;
    let n = function.blocks.len();
    let mut exits: Vec<Option<ObligationEnv>> = Vec::new();
    let mut s: usize = 0;
    while s < n
        invariant
            bs == function.blocks@,
            n == bs.len(),
            entries@.len() == n,
            n > 0 ==> slots_ok(bs, entries@, entry_slot(bs)),
            s <= n,
            exits@.len() == s,
            forall|i: int| 0 <= i < s ==> match (#[trigger] exits@[i], entries@[i]) {
                (Some(exit), Some(entry)) => exit.wf() && exit@ == after_block(entry@, bs[i]),
                (None, None) => true,
                _ => false,
            },
        decreases n - s,
    {
        let exit = match &entries[s] {
            Some(entry) => {
                proof {
                    assert(entries@[s as int] is Some);
                }
                Some(apply_block_obligation_statements(&function.blocks[s], entry.copy()))
            },
            None => None,
        };
        exits.push(exit);
        proof {
            assert(exits@[s as int] == exit);
        }
        s = s + 1;
    }
    let mut terminals: Vec<ObligationEnv> = Vec::new();
    let mut i: usize = 0;
    while i < n
        invariant
            bs == function.blocks@,
            n == bs.len(),
            entries@.len() == n,
            exits@.len() == n,
            forall|k: int| 0 <= k < n ==> match (#[trigger] exits@[k], entries@[k]) {
                (Some(exit), Some(entry)) => exit.wf() && exit@ == after_block(entry@, bs[k]),
                (None, None) => true,
                _ => false,
            },
            i <= n,
            terminals@.len() == terminal_exits(bs, entries@, i as int).len(),
            forall|k: int| 0 <= k < terminals@.len() ==> (#[trigger] terminals@[k]).wf()
                && terminals@[k]@ == terminal_exits(bs, entries@, i as int)[k],
        decreases n - i,
    {
        if is_terminal(&function.blocks[i]) {
            match find_last_block(function.blocks.as_slice(), function.blocks[i].id.as_str()) {
                Some(slot) => {
                    proof {
                        lemma_last_block_position(bs, bs[i as int].id@, n as int);
                    }
                    match &exits[slot] {
                        Some(exit) => {
                            proof {
                                assert(exits@[slot as int] is Some);
                            }
                            let ghost before = terminals@;
                            terminals.push(exit.copy());
                            proof {
                                assert forall|k: int| 0 <= k < terminals@.len() implies (#[trigger] terminals@[k]).wf()
                                    && terminals@[k]@ == terminal_exits(bs, entries@, i + 1)[k] by {
                                    if k < before.len() {
                                        assert(terminals@[k] == before[k]);
                                    }
                                }
                            }
                        },
                        None => {
                            proof {
                                assert(exits@[slot as int] is None);
                            }
                        },
                    }
                },
                None => {
                    proof {
                        lemma_last_block_position_found(bs, bs[i as int].id@, n as int, i as int);
                    }
                },
            }
        }
        i = i + 1;
    }
    FunctionObligationReplay {
        block_entry_envs: entries,
        block_exit_envs: exits,
        terminal_envs: terminals,
    }
}

/// The merge of a sequence of environments, from the empty one.
pub open spec fn merged_all(envs: Seq<Map<Seq<char>, ObligationStatus>>) -> Map<Seq<char>, ObligationStatus>
    decreases envs.len(),
{
    if envs.len() == 0 {
        Map::empty()
    } else {
        merged(merged_all(envs.drop_last()), envs.last())
    }
}

/// Merges the environments in order, starting from the empty one.
pub fn merge_terminal_envs(terminal_envs: &[ObligationEnv]) -> (env: ObligationEnv)
    requires
        forall|k: int| 0 <= k < terminal_envs@.len() ==> (#[trigger] terminal_envs@[k]).wf(),
    ensures
        env.wf(),
        env@ == merged_all(terminal_envs@.map_values(|e: ObligationEnv| e@)),
{
    let ghost views = terminal_envs@.map_values(|e: ObligationEnv| e@);
    let mut merged_env = ObligationEnv::new();
    let mut i: usize = 0;
    proof {
        assert(views.take(0) =~= Seq::<Map<Seq<char>, ObligationStatus>>::empty());
    }
    while i < terminal_envs.len()
        invariant
            i <= terminal_envs@.len(),
            views == terminal_envs@.map_values(|e: ObligationEnv| e@),
            forall|k: int| 0 <= k < terminal_envs@.len() ==> (#[trigger] terminal_envs@[k]).wf(),
            merged_env.wf(),
            merged_env@ == merged_all(views.take(i as int)),
        decreases terminal_envs@.len() - i,
    {
        merge_block_entry_env(&mut merged_env, &terminal_envs[i]);
        proof {
            assert(views.take(i + 1).drop_last() =~= views.take(i as int));
            assert(views.take(i + 1).last() == terminal_envs@[i as int]@);
        }
        i = i + 1;
    }
    proof {
        assert(views.take(i as int) =~= views);
    }
    merged_env
}

/// The states of an environment, in binding order.
pub fn env_states(env: &ObligationEnv) -> (states: Vec<ObligationState>)
    requires
        env.wf(),
    ensures
        states@ == env.listed(),
{
    env.copy().into_states()
}

} // verus!
