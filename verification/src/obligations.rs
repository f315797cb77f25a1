//! Replay of lifecycle obligations over Core: which obligations each binding
//! holds on entry to and exit from every block, and how the states of two
//! paths merge where they meet.
use vstd::prelude::*;
use crate::core_cfg::{CoreBlock, CoreFunction, CoreStatement, CoreStatementKind, block_index,
    block_number, parse_core_edge, parsed_core_edge};
use crate::text::{seq_less, str_equals, str_less, lemma_seq_less_irreflexive,
    lemma_seq_less_transitive, lemma_seq_less_total};

verus! {

/// The state of one lifecycle obligation.
#[derive(Clone, Copy, Debug, PartialEq, Eq, Structural)]
pub enum ObligationStatus {
    Owned,
    Resolved,
    Transferred,
    Moved,
    BranchUnresolved,
    Escaped,
}

/// What a Core statement does to obligations, as an evidence event.
#[derive(Clone, Copy, Debug, PartialEq, Eq, Structural)]
pub enum ObligationEventKind {
    Create,
    Discharge,
    Transfer,
    Move,
    BranchUnresolved,
    Escape,
    UnsupportedContainer,
    Call,
}

/// A binding with the state of its obligation.
#[derive(Debug)]
pub struct ObligationState {
    pub binding: String,
    pub state: ObligationStatus,
}

/// The obligation states of the bindings at one point, by binding.
#[derive(Debug)]
pub struct ObligationEnv {
    entries: Vec<ObligationState>,
}

/// The bindings of `entries` strictly increase.
pub open spec fn bindings_increasing(entries: Seq<ObligationState>) -> bool {
    forall|i: int, j: int| 0 <= i < j < entries.len() ==> seq_less((#[trigger] entries[i]).binding@, (#[trigger] entries[j]).binding@)
}

/// The map that a list of states describes.
pub open spec fn states_map(entries: Seq<ObligationState>) -> Map<Seq<char>, ObligationStatus>
    decreases entries.len(),
{
    if entries.len() == 0 {
        Map::empty()
    } else {
        states_map(entries.drop_last()).insert(entries.last().binding@, entries.last().state)
    }
}

proof fn lemma_states_map_lookup(entries: Seq<ObligationState>, k: Seq<char>)
    requires
        bindings_increasing(entries),
    ensures
        states_map(entries).contains_key(k) <==> exists|i: int| 0 <= i < entries.len() && (#[trigger] entries[i]).binding@ == k,
        forall|i: int| 0 <= i < entries.len() && (#[trigger] entries[i]).binding@ == k ==> states_map(entries)[k] == entries[i].state,
    decreases entries.len(),
{
    if entries.len() > 0 {
        let prev = entries.drop_last();
        assert forall|i: int, j: int| 0 <= i < j < prev.len() implies seq_less((#[trigger] prev[i]).binding@, (#[trigger] prev[j]).binding@) by {
            assert(prev[i] == entries[i]);
            assert(prev[j] == entries[j]);
        }
        lemma_states_map_lookup(prev, k);
        if exists|i: int| 0 <= i < entries.len() && (#[trigger] entries[i]).binding@ == k {
            let i = choose|i: int| 0 <= i < entries.len() && (#[trigger] entries[i]).binding@ == k;
            if i < entries.len() - 1 {
                assert(prev[i] == entries[i]);
            }
        }
        assert forall|i: int| 0 <= i < entries.len() && (#[trigger] entries[i]).binding@ == k implies states_map(entries)[k] == entries[i].state by {
            if i < entries.len() - 1 {
                assert(prev[i] == entries[i]);
                assert(seq_less(entries[i].binding@, entries[entries.len() - 1].binding@));
                lemma_seq_less_irreflexive(k);
                assert(entries.last().binding@ != k);
            }
        }
        assert forall|i: int| 0 <= i < prev.len() && (#[trigger] prev[i]).binding@ == k implies exists|j: int| 0 <= j < entries.len() && (#[trigger] entries[j]).binding@ == k by {
            assert(entries[i] == prev[i]);
        }
    }
}

impl View for ObligationEnv {
    type V = Map<Seq<char>, ObligationStatus>;

    closed spec fn view(&self) -> Map<Seq<char>, ObligationStatus> {
        states_map(self.entries@)
    }
}

impl ObligationEnv {
    /// The environment's internal list is sorted by binding.
    pub closed spec fn wf(&self) -> bool {
        bindings_increasing(self.entries@)
    }

    /// The states in binding order.
    pub closed spec fn listed(&self) -> Seq<ObligationState> {
        self.entries@
    }

    pub proof fn lemma_view_listed(&self)
        ensures
            self@ == states_map(self.listed()),
            self.wf() ==> bindings_increasing(self.listed()),
    {
    }

    pub proof fn lemma_listed(&self)
        requires
            self.wf(),
        ensures
            bindings_increasing(self.listed()),
            forall|k: Seq<char>| self@.contains_key(k) <==> exists|i: int| 0 <= i < self.listed().len()
                && (#[trigger] self.listed()[i]).binding@ == k,
            forall|i: int| 0 <= i < self.listed().len() ==> self@[(#[trigger] self.listed()[i]).binding@] == self.listed()[i].state,
    {
        assert forall|k: Seq<char>| self@.contains_key(k) <==> exists|i: int| 0 <= i < self.listed().len()
            && (#[trigger] self.listed()[i]).binding@ == k by {
            lemma_states_map_lookup(self.entries@, k);
        }
        assert forall|i: int| 0 <= i < self.listed().len() implies self@[(#[trigger] self.listed()[i]).binding@] == self.listed()[i].state by {
            lemma_states_map_lookup(self.entries@, self.entries@[i].binding@);
        }
    }

    /// The states, in binding order.
    pub fn into_states(self) -> (states: Vec<ObligationState>)
        ensures
            states@ == self.listed(),
    {
        self.entries
    }

    /// A copy of the environment.
    pub fn copy(&self) -> (r: Self)
        requires
            self.wf(),
        ensures
            r.wf(),
            r@ == self@,
            r.listed() == self.listed(),
    {
        let mut entries: Vec<ObligationState> = Vec::new();
        let mut i: usize = 0;
        while i < self.entries.len()
            invariant
                i <= self.entries@.len(),
                entries@ == self.entries@.take(i as int),
            decreases self.entries@.len() - i,
        {
            let e = &self.entries[i];
            entries.push(ObligationState { binding: e.binding.clone(), state: e.state });
            proof {
                assert(entries@ =~= self.entries@.take(i + 1));
            }
            i = i + 1;
        }
        proof {
            assert(self.entries@.take(i as int) =~= self.entries@);
        }
        ObligationEnv { entries }
    }

    /// The empty environment.
    pub fn new() -> (env: Self)
        ensures
            env.wf(),
            env@ == Map::<Seq<char>, ObligationStatus>::empty(),
    {
        ObligationEnv { entries: Vec::new() }
    }

    /// The state of `binding`, if it has one.
    pub fn get(&self, binding: &str) -> (r: Option<ObligationStatus>)
        requires
            self.wf(),
        ensures
            match r {
                Some(s) => self@.contains_key(binding@) && self@[binding@] == s,
                None => !self@.contains_key(binding@),
            },
    {
        proof {
            lemma_states_map_lookup(self.entries@, binding@);
        }
        let mut i: usize = 0;
        while i < self.entries.len()
            invariant
                i <= self.entries@.len(),
                bindings_increasing(self.entries@),
                forall|j: int| 0 <= j < i ==> (#[trigger] self.entries@[j]).binding@ != binding@,
            decreases self.entries@.len() - i,
        {
            if str_equals(self.entries[i].binding.as_str(), binding) {
                proof {
                    lemma_states_map_lookup(self.entries@, binding@);
                }
                return Some(self.entries[i].state);
            }
            i = i + 1;
        }
        None
    }

    /// Sets the state of `binding`.
    pub fn insert(&mut self, binding: String, state: ObligationStatus)
        requires
            old(self).wf(),
        ensures
            final(self).wf(),
            final(self)@ == old(self)@.insert(binding@, state),
    {
        let ghost before = self.entries@;
        proof {
            lemma_states_map_lookup(before, binding@);
        }
        let mut p: usize = 0;
        while p < self.entries.len() && str_less(self.entries[p].binding.as_str(), binding.as_str())
            invariant
                p <= self.entries@.len(),
                self.entries@ == before,
                forall|j: int| 0 <= j < p ==> seq_less((#[trigger] self.entries@[j]).binding@, binding@),
            decreases self.entries@.len() - p,
        {
            p = p + 1;
        }
        if p < self.entries.len() && str_equals(self.entries[p].binding.as_str(), binding.as_str()) {
            let ghost k = binding@;
            self.entries.set(p, ObligationState { binding: binding, state: state });
            proof {
                let after = self.entries@;
                assert forall|i: int, j: int| 0 <= i < j < after.len() implies seq_less((#[trigger] after[i]).binding@, (#[trigger] after[j]).binding@) by {
                    assert(after[i].binding@ == before[i].binding@);
                    assert(after[j].binding@ == before[j].binding@);
                }
                lemma_states_map_lookup(after, k);
                assert(states_map(after) =~= states_map(before).insert(k, state)) by {
                    assert forall|key: Seq<char>| #[trigger] states_map(after).contains_key(key) <==> states_map(before).insert(k, state).contains_key(key) by {
                        lemma_states_map_lookup(after, key);
                        lemma_states_map_lookup(before, key);
                        if exists|i: int| 0 <= i < before.len() && (#[trigger] before[i]).binding@ == key {
                            let i = choose|i: int| 0 <= i < before.len() && (#[trigger] before[i]).binding@ == key;
                            assert(after[i].binding@ == key);
                        }
                        if exists|i: int| 0 <= i < after.len() && (#[trigger] after[i]).binding@ == key {
                            let i = choose|i: int| 0 <= i < after.len() && (#[trigger] after[i]).binding@ == key;
                            assert(before[i].binding@ == key);
                        }
                    }
                    assert forall|key: Seq<char>| #[trigger] states_map(after).contains_key(key) implies states_map(after)[key] == states_map(before).insert(k, state)[key] by {
                        lemma_states_map_lookup(after, key);
                        lemma_states_map_lookup(before, key);
                        let i = choose|i: int| 0 <= i < after.len() && (#[trigger] after[i]).binding@ == key;
                        assert(before[i].binding@ == key);
                        if i != p {
                            assert(after[i] == before[i]);
                        }
                    }
                }
            }
        } else {
            let ghost k = binding@;
            proof {
                if p < before.len() {
                    lemma_seq_less_total(before[p as int].binding@, k);
                }
            }
            self.entries.insert(p, ObligationState { binding: binding, state: state });
            proof {
                let after = self.entries@;
                assert(after =~= before.insert(p as int, after[p as int]));
                assert forall|i: int, j: int| 0 <= i < j < after.len() implies seq_less((#[trigger] after[i]).binding@, (#[trigger] after[j]).binding@) by {
                    if i < p && j == p {
                    } else if i < p && j > p {
                        assert(after[j] == before[j - 1]);
                    } else if i == p {
                        assert(after[j] == before[j - 1]);
                        if j - 1 > p {
                            lemma_seq_less_transitive(k, before[p as int].binding@, before[j - 1].binding@);
                        }
                    } else if i > p {
                        assert(after[i] == before[i - 1]);
                        assert(after[j] == before[j - 1]);
                    }
                }
                assert forall|key: Seq<char>| #[trigger] states_map(after).contains_key(key) <==> states_map(before).insert(k, state).contains_key(key) by {
                    lemma_states_map_lookup(after, key);
                    lemma_states_map_lookup(before, key);
                    if exists|i: int| 0 <= i < before.len() && (#[trigger] before[i]).binding@ == key {
                        let i = choose|i: int| 0 <= i < before.len() && (#[trigger] before[i]).binding@ == key;
                        if i < p {
                            assert(after[i] == before[i]);
                        } else {
                            assert(after[i + 1] == before[i]);
                        }
                    }
                    if exists|i: int| 0 <= i < after.len() && (#[trigger] after[i]).binding@ == key {
                        let i = choose|i: int| 0 <= i < after.len() && (#[trigger] after[i]).binding@ == key;
                        if i < p {
                            assert(after[i] == before[i]);
                        } else if i > p {
                            assert(after[i] == before[i - 1]);
                        }
                    }
                }
                assert forall|key: Seq<char>| #[trigger] states_map(after).contains_key(key) implies states_map(after)[key] == states_map(before).insert(k, state)[key] by {
                    lemma_states_map_lookup(after, key);
                    lemma_states_map_lookup(before, key);
                    let i = choose|i: int| 0 <= i < after.len() && (#[trigger] after[i]).binding@ == key;
                    if i < p {
                        assert(after[i] == before[i]);
                        lemma_seq_less_irreflexive(k);
                    } else if i > p {
                        assert(after[i] == before[i - 1]);
                        assert(seq_less(k, key));
                        lemma_seq_less_irreflexive(k);
                    }
                }
                assert(states_map(after) =~= states_map(before).insert(k, state));
            }
        }
    }
}

/// The state a statement gives its binding, for statements that change one.
pub open spec fn status_after(kind: CoreStatementKind) -> Option<ObligationStatus> {
    match kind {
        CoreStatementKind::ObligationCreate => Some(ObligationStatus::Owned),
        CoreStatementKind::ObligationDischarge => Some(ObligationStatus::Resolved),
        CoreStatementKind::ObligationTransfer => Some(ObligationStatus::Transferred),
        CoreStatementKind::ObligationMove => Some(ObligationStatus::Moved),
        CoreStatementKind::ObligationBranchUnresolved => Some(ObligationStatus::BranchUnresolved),
        CoreStatementKind::ObligationEscape => Some(ObligationStatus::Escaped),
        CoreStatementKind::UnsupportedContainer | CoreStatementKind::Call => None,
    }
}

/// The environment after a statement: its binding, if it has one, takes the
/// state the statement gives.
pub open spec fn after_statement(env: Map<Seq<char>, ObligationStatus>, statement: CoreStatement) -> Map<Seq<char>, ObligationStatus> {
    match (statement.binding, status_after(statement.kind)) {
        (Some(binding), Some(status)) => env.insert(binding@, status),
        _ => env,
    }
}

/// What a statement does to the obligation of its binding `b`: a creation
/// owns it, a discharge resolves it, a transfer transfers it, a move moves
/// it, a branch-unresolved statement leaves it unresolved and an escape makes
/// it escaped; calls and unsupported containers change nothing, and no
/// statement touches any other binding. In particular only a discharge
/// resolves an obligation that was not resolved before.
pub proof fn lemma_statement_effects(env: Map<Seq<char>, ObligationStatus>, statement: CoreStatement, k: Seq<char>)
    ensures
        ({
            let after = after_statement(env, statement);
            &&& (statement.binding is Some && statement.binding->0@ == k) ==> (match statement.kind {
                CoreStatementKind::ObligationCreate => after.contains_key(k) && after[k] == ObligationStatus::Owned,
                CoreStatementKind::ObligationDischarge => after.contains_key(k) && after[k] == ObligationStatus::Resolved,
                CoreStatementKind::ObligationTransfer => after.contains_key(k) && after[k] == ObligationStatus::Transferred,
                CoreStatementKind::ObligationMove => after.contains_key(k) && after[k] == ObligationStatus::Moved,
                CoreStatementKind::ObligationBranchUnresolved => after.contains_key(k) && after[k] == ObligationStatus::BranchUnresolved,
                CoreStatementKind::ObligationEscape => after.contains_key(k) && after[k] == ObligationStatus::Escaped,
                CoreStatementKind::UnsupportedContainer | CoreStatementKind::Call => after == env,
            })
            &&& !(statement.binding is Some && statement.binding->0@ == k) ==> (after.contains_key(k) == env.contains_key(k)
                && (env.contains_key(k) ==> after[k] == env[k]))
            &&& (after.contains_key(k) && after[k] == ObligationStatus::Resolved
                && !(env.contains_key(k) && env[k] == ObligationStatus::Resolved))
                ==> statement.kind == CoreStatementKind::ObligationDischarge
        }),
{
}

/// Applies one statement to the environment.
pub fn apply_obligation_statement(statement: &CoreStatement, current_env: &mut ObligationEnv)
    requires
        old(current_env).wf(),
    ensures
        final(current_env).wf(),
        final(current_env)@ == after_statement(old(current_env)@, *statement),
{
    let status = match statement.kind {
        CoreStatementKind::ObligationCreate => ObligationStatus::Owned,
        CoreStatementKind::ObligationDischarge => ObligationStatus::Resolved,
        CoreStatementKind::ObligationTransfer => ObligationStatus::Transferred,
        CoreStatementKind::ObligationMove => ObligationStatus::Moved,
        CoreStatementKind::ObligationBranchUnresolved => ObligationStatus::BranchUnresolved,
        CoreStatementKind::ObligationEscape => ObligationStatus::Escaped,
        CoreStatementKind::UnsupportedContainer | CoreStatementKind::Call => {
            return;
        },
    };
    if let Some(binding) = &statement.binding {
        current_env.insert(binding.clone(), status);
    }
}

/// The evidence event a statement kind gives.
pub open spec fn event_kind_of(kind: CoreStatementKind) -> ObligationEventKind {
    match kind {
        CoreStatementKind::ObligationCreate => ObligationEventKind::Create,
        CoreStatementKind::ObligationDischarge => ObligationEventKind::Discharge,
        CoreStatementKind::ObligationTransfer => ObligationEventKind::Transfer,
        CoreStatementKind::ObligationMove => ObligationEventKind::Move,
        CoreStatementKind::ObligationBranchUnresolved => ObligationEventKind::BranchUnresolved,
        CoreStatementKind::ObligationEscape => ObligationEventKind::Escape,
        CoreStatementKind::UnsupportedContainer => ObligationEventKind::UnsupportedContainer,
        CoreStatementKind::Call => ObligationEventKind::Call,
    }
}

/// The evidence event of a statement kind (every kind gives one).
pub fn obligation_event_kind(kind: &CoreStatementKind) -> (r: Option<ObligationEventKind>)
    ensures
        r == Some(event_kind_of(*kind)),
{
    match kind {
        CoreStatementKind::ObligationCreate => Some(ObligationEventKind::Create),
        CoreStatementKind::ObligationDischarge => Some(ObligationEventKind::Discharge),
        CoreStatementKind::ObligationTransfer => Some(ObligationEventKind::Transfer),
        CoreStatementKind::ObligationMove => Some(ObligationEventKind::Move),
        CoreStatementKind::ObligationBranchUnresolved => Some(ObligationEventKind::BranchUnresolved),
        CoreStatementKind::ObligationEscape => Some(ObligationEventKind::Escape),
        CoreStatementKind::UnsupportedContainer => Some(ObligationEventKind::UnsupportedContainer),
        CoreStatementKind::Call => Some(ObligationEventKind::Call),
    }
}

/// Where two paths meet: a binding known on one path keeps its state; one
/// known on both keeps a state they agree on and becomes branch-unresolved
/// where they differ.
pub open spec fn merged(current: Map<Seq<char>, ObligationStatus>, incoming: Map<Seq<char>, ObligationStatus>) -> Map<Seq<char>, ObligationStatus> {
    Map::new(
        |k: Seq<char>| current.contains_key(k) || incoming.contains_key(k),
        |k: Seq<char>| if incoming.contains_key(k) {
            if current.contains_key(k) && current[k] != incoming[k] {
                ObligationStatus::BranchUnresolved
            } else {
                incoming[k]
            }
        } else {
            current[k]
        },
    )
}

/// Merges the states of `incoming` into `current`; says whether `current`
/// changed.
pub fn merge_block_entry_env(current: &mut ObligationEnv, incoming: &ObligationEnv) -> (changed: bool)
    requires
        old(current).wf(),
        incoming.wf(),
    ensures
        final(current).wf(),
        final(current)@ == merged(old(current)@, incoming@),
        changed == (final(current)@ != old(current)@),
{
    let ghost start = current@;
    let ghost inc = incoming.entries@;
    let mut changed = false;
    let mut i: usize = 0;
    proof {
        assert(merged(start, states_map(inc.take(0))) =~= start);
    }
    while i < incoming.entries.len()
        invariant
            i <= inc.len(),
            inc == incoming.entries@,
            bindings_increasing(inc),
            current.wf(),
            current@ == merged(start, states_map(inc.take(i as int))),
            changed == (current@ != start),
        decreases inc.len() - i,
    {
        let entry = &incoming.entries[i];
        let ghost k = entry.binding@;
        let ghost prefix = inc.take(i as int);
        proof {
            assert(inc.take(i + 1) =~= prefix.push(inc[i as int]));
            assert(inc.take(i + 1).drop_last() =~= prefix);
            assert forall|j: int, l: int| 0 <= j < l < prefix.len() implies seq_less((#[trigger] prefix[j]).binding@, (#[trigger] prefix[l]).binding@) by {
                assert(prefix[j] == inc[j]);
                assert(prefix[l] == inc[l]);
            }
            lemma_states_map_lookup(prefix, k);
            assert forall|j: int| 0 <= j < prefix.len() implies (#[trigger] prefix[j]).binding@ != k by {
                assert(prefix[j] == inc[j]);
                assert(seq_less(inc[j].binding@, inc[i as int].binding@));
                lemma_seq_less_irreflexive(k);
            }
            assert(!states_map(prefix).contains_key(k));
        }
        let ghost before = current@;
        match current.get(entry.binding.as_str()) {
            Some(c) => {
                if c != entry.state {
                    let was_changed = c != ObligationStatus::BranchUnresolved;
                    current.insert(entry.binding.clone(), ObligationStatus::BranchUnresolved);
                    proof {
                        assert(current@ =~= merged(start, states_map(inc.take(i + 1))));
                        if was_changed {
                            assert(start.contains_key(k) && start[k] == c);
                            assert(current@[k] != start[k]);
                        } else {
                            assert(current@ =~= before);
                        }
                    }
                    if was_changed {
                        changed = true;
                    }
                } else {
                    proof {
                        assert(current@ =~= merged(start, states_map(inc.take(i + 1))));
                    }
                }
            },
            None => {
                current.insert(entry.binding.clone(), entry.state);
                proof {
                    assert(current@ =~= merged(start, states_map(inc.take(i + 1))));
                    assert(!start.contains_key(k));
                    assert(current@.contains_key(k));
                }
                changed = true;
            },
        }
        i = i + 1;
    }
    proof {
        assert(inc.take(i as int) =~= inc);
    }
    changed
}

/// The environment after a block's first `n` statements.
pub open spec fn after_statements(env: Map<Seq<char>, ObligationStatus>, statements: Seq<CoreStatement>, n: int) -> Map<Seq<char>, ObligationStatus>
    decreases n,
{
    if n <= 0 {
        env
    } else {
        after_statement(after_statements(env, statements, n - 1), statements[n - 1])
    }
}

/// The environment after all of a block's statements.
pub open spec fn after_block(env: Map<Seq<char>, ObligationStatus>, block: CoreBlock) -> Map<Seq<char>, ObligationStatus> {
    after_statements(env, block.statements@, block.statements@.len() as int)
}

/// Applies all of a block's statements, in order.
pub fn apply_block_obligation_statements(block: &CoreBlock, env: ObligationEnv) -> (r: ObligationEnv)
    requires
        env.wf(),
    ensures
        r.wf(),
        r@ == after_block(env@, *block),
{
    let ghost start = env@;
    let mut env = env;
    let mut i: usize = 0;
    while i < block.statements.len()
        invariant
            i <= block.statements@.len(),
            env.wf(),
            env@ == after_statements(start, block.statements@, i as int),
        decreases block.statements@.len() - i,
    {
        apply_obligation_statement(&block.statements[i], &mut env);
        i = i + 1;
    }
    env
}

/// The targets of a block's first `n` terminators' edges, in order.
pub open spec fn terminator_targets(block: CoreBlock, n: int) -> Seq<Seq<char>>
    decreases n,
{
    if n <= 0 {
        Seq::empty()
    } else {
        terminator_targets(block, n - 1) + block.terminators@[n - 1].edges@.map_values(|e: String| parsed_core_edge(e@).target)
    }
}

/// The targets of all of a block's edges, in order.
pub open spec fn successor_targets(block: CoreBlock) -> Seq<Seq<char>> {
    terminator_targets(block, block.terminators@.len() as int)
}

/// The target of a Core edge string.
pub fn core_successor_target(edge: &str) -> (target: String)
    ensures
        target@ == parsed_core_edge(edge@).target,
{
    parse_core_edge(edge).target
}

/// The targets of all of a block's edges, in order.
pub fn block_successor_targets(block: &CoreBlock) -> (targets: Vec<String>)
    ensures
        targets@.map_values(|s: String| s@) == successor_targets(*block),
{
    let mut targets: Vec<String> = Vec::new();
    let mut t: usize = 0;
    proof {
        assert(targets@.map_values(|s: String| s@) =~= terminator_targets(*block, 0));
    }
    while t < block.terminators.len()
        invariant
            t <= block.terminators@.len(),
            targets@.map_values(|s: String| s@) == terminator_targets(*block, t as int),
        decreases block.terminators@.len() - t,
    {
        let edges = &block.terminators[t].edges;
        let ghost base = targets@.map_values(|s: String| s@);
        let mut e: usize = 0;
        while e < edges.len()
            invariant
                t < block.terminators@.len(),
                *edges == block.terminators@[t as int].edges,
                e <= edges@.len(),
                targets@.map_values(|s: String| s@) == base + edges@.take(e as int).map_values(|x: String| parsed_core_edge(x@).target),
            decreases edges@.len() - e,
        {
            let target = core_successor_target(edges[e].as_str());
            let ghost before = targets@;
            targets.push(target);
            proof {
                assert(edges@.take(e + 1) =~= edges@.take(e as int).push(edges@[e as int]));
                assert(targets@.map_values(|s: String| s@) =~= before.map_values(|s: String| s@).push(target@));
                assert(edges@.take(e + 1).map_values(|x: String| parsed_core_edge(x@).target)
                    =~= edges@.take(e as int).map_values(|x: String| parsed_core_edge(x@).target).push(target@));
            }
            e = e + 1;
        }
        proof {
            assert(edges@.take(e as int) =~= edges@);
        }
        t = t + 1;
    }
    targets
}

/// An edge that does not go forward between two `bbN` blocks.
pub open spec fn back_edge_between(source: Seq<char>, target: Seq<char>) -> bool {
    match (block_number(source), block_number(target)) {
        (Some(s), Some(t)) => t <= s,
        _ => false,
    }
}

/// Whether an edge from `source` to `target` does not go forward between two
/// `bbN` blocks.
pub fn is_back_edge_between_blocks(source: &str, target: &str) -> (r: bool)
    ensures
        r == back_edge_between(source@, target@),
{
    let source_index = match block_index(source) {
        Some(i) => i,
        None => return false,
    };
    let target_index = match block_index(target) {
        Some(i) => i,
        None => return false,
    };
    target_index <= source_index
}

/// The targets by which a function leaves: return, error exit, panic and the
/// exit of a broken loop.
pub open spec fn exit_target(target: Seq<char>) -> bool {
    target == "return"@ || target == "error_exit"@ || target == "panic"@ || target == "break_exit"@
}

/// Whether a target leaves the function.
pub fn modeled_exit_target(target: &str) -> (r: bool)
    ensures
        r == exit_target(target@),
{
    str_equals(target, "return") || str_equals(target, "error_exit") || str_equals(target, "panic")
        || str_equals(target, "break_exit")
}

} // verus!
