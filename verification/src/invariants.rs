//! Loop invariant evidence: for each loop back edge, the obligations created
//! in the loop, the states they are in where the loop is entered and where it
//! jumps back, whether a `no_pending` invariant is preserved, and the
//! templates and user directive it rests on.
use vstd::prelude::*;
use crate::core_cfg::{CoreFunction, CoreLoopBackEdgeFact, clone_span, opt_chars};
use crate::config::{clone_opt_string, owned};
use crate::evidence::{InvariantConfidence, ObligationEvent, confidence_named, created_in_loop,
    created_bindings_for_loop, env_states_for_bindings, invariant_confidence, states_for,
    no_pending_kind, no_pending_obligation_kind, range_span, find_offset, source_span_for_user_invariant};
use crate::obligations::{ObligationEnv, ObligationState, ObligationStatus};
use crate::scenario::{ScenarioLifecycleTemplate, ScenarioProgram};
use crate::source_spans::SourceSpan;
use crate::strings::{chars_of, string_from_chars};
use crate::templates::{HashEvidence, InvariantTemplateSource, invariant_template_source,
    lifecycle_template_version, sorted_strict, template_for_binding, template_hash, template_hash_text, template_of,
    template_source_of, template_version, texts, type_for_binding, type_of, bindings_of_type};
use crate::text::{utf8_len, push_all, push_str, seq_less, str_equals, lemma_seq_less_irreflexive,
    lemma_seq_less_transitive, lemma_seq_less_total};

verus! {

/// A `#[kobo::invariant(expression = "...")]` directive on the target function.
#[derive(Debug)]
pub struct UserLoopInvariantDirective {
    pub expression: String,
    pub obligation_kind: Option<String>,
    pub loop_label: Option<String>,
    pub source_span: SourceSpan,
}

/// Who stated an invariant.
#[derive(Clone, Copy, Debug, PartialEq, Eq, Structural)]
pub enum InvariantTier {
    User,
    Inferred,
}

/// Whether the replay shows an invariant holding at entry and at the back edge.
#[derive(Clone, Copy, Debug, PartialEq, Eq, Structural)]
pub enum InvariantPreservation {
    Preserved,
    Failed,
}

/// The predicate a user invariant states.
#[derive(Clone, Copy, Debug, PartialEq, Eq, Structural)]
pub enum UserInvariantPredicate {
    NoPending,
}

/// The template an invariant follows.
#[derive(Debug)]
pub struct InvariantTemplateEvidence {
    pub id: String,
    pub version: String,
    pub schema_hash: String,
    pub source: InvariantTemplateSource,
    pub confidence: InvariantConfidence,
    pub obligation_kind: String,
    pub lifecycle_owner: String,
}

/// The template one obligation of a loop follows.
#[derive(Debug)]
pub struct InvariantBindingTemplateEvidence {
    pub binding: String,
    pub id: String,
    pub version: String,
    pub schema_hash: String,
    pub source: InvariantTemplateSource,
    pub confidence: InvariantConfidence,
    pub obligation_kind: String,
    pub lifecycle_owner: String,
}

/// The fact a user invariant states about a loop.
#[derive(Debug)]
pub struct UserInvariantFactEvidence {
    pub loop_id: String,
    pub predicate: UserInvariantPredicate,
    pub obligation_kind: String,
    pub lifecycle_owner: Option<String>,
    pub template_id: Option<String>,
    pub template_version: Option<String>,
    pub domain_bindings: Vec<String>,
}

/// The invariant evidence of one loop back edge.
#[derive(Debug)]
pub struct LoopInvariantEvidence {
    pub id: String,
    pub function: String,
    pub loop_id: String,
    pub loop_label: Option<String>,
    pub entry_block: String,
    pub back_edge_source: String,
    pub back_edge_target: String,
    pub tier: InvariantTier,
    pub expression: String,
    pub source_span: SourceSpan,
    pub obligations_created: Vec<String>,
    pub entry_states: Vec<ObligationState>,
    pub back_edge_states: Vec<ObligationState>,
    pub preservation: InvariantPreservation,
    pub template: Option<InvariantTemplateEvidence>,
    pub binding_templates: Vec<InvariantBindingTemplateEvidence>,
    pub user_fact: Option<UserInvariantFactEvidence>,
    pub downgrade_reason: Option<String>,
}

/// An invariant template, as text.
pub struct TemplateView {
    pub id: Seq<char>,
    pub version: Seq<char>,
    pub schema_hash: Seq<char>,
    pub source: InvariantTemplateSource,
    pub confidence: InvariantConfidence,
    pub obligation_kind: Seq<char>,
    pub lifecycle_owner: Seq<char>,
}

/// A binding's template, as text.
pub struct BindingTemplateView {
    pub binding: Seq<char>,
    pub template: TemplateView,
}

/// A user invariant fact, as text.
pub struct UserFactView {
    pub loop_id: Seq<char>,
    pub obligation_kind: Seq<char>,
    pub lifecycle_owner: Option<Seq<char>>,
    pub template_id: Option<Seq<char>>,
    pub template_version: Option<Seq<char>>,
    pub domain_bindings: Seq<Seq<char>>,
}

/// Loop invariant evidence, as text.
pub struct LoopInvariantView {
    pub id: Seq<char>,
    pub function: Seq<char>,
    pub loop_id: Seq<char>,
    pub loop_label: Option<Seq<char>>,
    pub entry_block: Seq<char>,
    pub back_edge_source: Seq<char>,
    pub back_edge_target: Seq<char>,
    pub tier: InvariantTier,
    pub expression: Seq<char>,
    pub source_span: SourceSpan,
    pub obligations_created: Seq<Seq<char>>,
    pub entry_states: Seq<ObligationState>,
    pub back_edge_states: Seq<ObligationState>,
    pub preservation: InvariantPreservation,
    pub template: Option<TemplateView>,
    pub binding_templates: Seq<BindingTemplateView>,
    pub user_fact: Option<UserFactView>,
    pub downgrade_reason: Option<Seq<char>>,
}

impl View for InvariantTemplateEvidence {
    type V = TemplateView;

    open spec fn view(&self) -> TemplateView {
        TemplateView {
            id: self.id@,
            version: self.version@,
            schema_hash: self.schema_hash@,
            source: self.source,
            confidence: self.confidence,
            obligation_kind: self.obligation_kind@,
            lifecycle_owner: self.lifecycle_owner@,
        }
    }
}

impl View for InvariantBindingTemplateEvidence {
    type V = BindingTemplateView;

    open spec fn view(&self) -> BindingTemplateView {
        BindingTemplateView {
            binding: self.binding@,
            template: TemplateView {
                id: self.id@,
                version: self.version@,
                schema_hash: self.schema_hash@,
                source: self.source,
                confidence: self.confidence,
                obligation_kind: self.obligation_kind@,
                lifecycle_owner: self.lifecycle_owner@,
            },
        }
    }
}

impl View for UserInvariantFactEvidence {
    type V = UserFactView;

    open spec fn view(&self) -> UserFactView {
        UserFactView {
            loop_id: self.loop_id@,
            obligation_kind: self.obligation_kind@,
            lifecycle_owner: opt_chars(self.lifecycle_owner),
            template_id: opt_chars(self.template_id),
            template_version: opt_chars(self.template_version),
            domain_bindings: texts(self.domain_bindings@),
        }
    }
}

impl View for LoopInvariantEvidence {
    type V = LoopInvariantView;

    open spec fn view(&self) -> LoopInvariantView {
        LoopInvariantView {
            id: self.id@,
            function: self.function@,
            loop_id: self.loop_id@,
            loop_label: opt_chars(self.loop_label),
            entry_block: self.entry_block@,
            back_edge_source: self.back_edge_source@,
            back_edge_target: self.back_edge_target@,
            tier: self.tier,
            expression: self.expression@,
            source_span: self.source_span,
            obligations_created: texts(self.obligations_created@),
            entry_states: self.entry_states@,
            back_edge_states: self.back_edge_states@,
            preservation: self.preservation,
            template: match self.template {
                Some(t) => Some(t@),
                None => None,
            },
            binding_templates: self.binding_templates@.map_values(|b: InvariantBindingTemplateEvidence| b@),
            user_fact: match self.user_fact {
                Some(f) => Some(f@),
                None => None,
            },
            downgrade_reason: opt_chars(self.downgrade_reason),
        }
    }
}

/// The number of loop facts that belong to function `function`.
pub open spec fn loops_of(facts: Seq<CoreLoopBackEdgeFact>, function: Seq<char>) -> nat
    decreases facts.len(),
{
    if facts.len() == 0 {
        0
    } else {
        loops_of(facts.drop_last(), function) + if facts.last().function@ == function { 1nat } else { 0nat }
    }
}

/// The user directive that applies to `fact`: one with a loop label applies to
/// the loop of that label; one without applies where the function has a
/// single loop.
pub open spec fn directive_for(directive: Option<UserLoopInvariantDirective>, fact: CoreLoopBackEdgeFact, facts: Seq<CoreLoopBackEdgeFact>) -> Option<UserLoopInvariantDirective> {
    match directive {
        None => None,
        Some(d) => match d.loop_label {
            Some(label) => if fact.loop_label matches Some(l) && l@ == label@ { Some(d) } else { None },
            None => if loops_of(facts, fact.function@) == 1 { Some(d) } else { None },
        },
    }
}

/// The user directive that applies to `fact`.
pub fn user_invariant_for_fact<'a>(directive: &'a Option<UserLoopInvariantDirective>, fact: &CoreLoopBackEdgeFact, loop_facts: &[CoreLoopBackEdgeFact]) -> (r: Option<&'a UserLoopInvariantDirective>)
    ensures
        match r {
            Some(d) => directive_for(*directive, *fact, loop_facts@) == Some(*d),
            None => directive_for(*directive, *fact, loop_facts@) is None,
        },
{
    let d = match directive {
        Some(d) => d,
        None => return None,
    };
    match &d.loop_label {
        Some(label) => {
            match &fact.loop_label {
                Some(l) => if str_equals(l.as_str(), label.as_str()) {
                    Some(d)
                } else {
                    None
                },
                None => None,
            }
        },
        None => {
            let mut count: usize = 0;
            let mut i: usize = 0;
            while i < loop_facts.len()
                invariant
                    i <= loop_facts@.len(),
                    count == loops_of(loop_facts@.take(i as int), fact.function@),
                    count <= i,
                decreases loop_facts@.len() - i,
            {
                proof {
                    assert(loop_facts@.take(i + 1).drop_last() =~= loop_facts@.take(i as int));
                }
                if str_equals(loop_facts[i].function.as_str(), fact.function.as_str()) {
                    count = count + 1;
                }
                i = i + 1;
            }
            proof {
                assert(loop_facts@.take(i as int) =~= loop_facts@);
            }
            if count == 1 {
                Some(d)
            } else {
                None
            }
        },
    }
}

/// The obligation kind a directive names.
pub open spec fn kind_of(directive: Option<UserLoopInvariantDirective>) -> Option<Seq<char>> {
    match directive {
        Some(d) => opt_chars(d.obligation_kind),
        None => None,
    }
}

/// The strictly sorted list of the bindings whose obligation type is `kind`.
pub open spec fn type_domain(ops: Seq<crate::scenario::ScenarioOperation>, kind: Seq<char>) -> Seq<Seq<char>> {
    choose|v: Seq<Seq<char>>| sorted_strict(v) && forall|x: Seq<char>| v.contains(x) <==> type_of(ops, x) == Some(kind)
}

/// Two strictly sorted lists with the same elements are the same list.
pub proof fn lemma_sorted_unique(a: Seq<Seq<char>>, b: Seq<Seq<char>>)
    requires
        sorted_strict(a),
        sorted_strict(b),
        forall|x: Seq<char>| a.contains(x) <==> b.contains(x),
    ensures
        a == b,
    decreases a.len(),
{
    if a.len() == 0 {
        if b.len() > 0 {
            assert(b.contains(b[0]));
        }
        assert(a =~= b);
    } else {
        assert(a.contains(a[0]));
        let j = choose|j: int| 0 <= j < b.len() && b[j] == a[0];
        assert(b.contains(b[0]));
        let i = choose|i: int| 0 <= i < a.len() && a[i] == b[0];
        if j > 0 {
            if i > 0 {
                assert(seq_less(a[0], a[i]));
                assert(seq_less(b[0], b[j]));
                lemma_seq_less_total(a[0], b[0]);
            } else {
                assert(seq_less(b[0], b[j]));
                lemma_seq_less_irreflexive(b[0]);
            }
        }
        assert(b[0] == a[0]);
        let ra = a.drop_first();
        let rb = b.drop_first();
        assert forall|x: Seq<char>| ra.contains(x) <==> rb.contains(x) by {
            if ra.contains(x) {
                let k = choose|k: int| 0 <= k < ra.len() && ra[k] == x;
                assert(a[k + 1] == x);
                assert(seq_less(a[0], x));
                lemma_seq_less_irreflexive(x);
                assert(a.contains(x));
                assert(b.contains(x));
                let m = choose|m: int| 0 <= m < b.len() && b[m] == x;
                assert(m != 0);
                assert(rb[m - 1] == x);
            }
            if rb.contains(x) {
                let k = choose|k: int| 0 <= k < rb.len() && rb[k] == x;
                assert(b[k + 1] == x);
                assert(seq_less(b[0], x));
                lemma_seq_less_irreflexive(x);
                assert(b.contains(x));
                assert(a.contains(x));
                let m = choose|m: int| 0 <= m < a.len() && a[m] == x;
                assert(m != 0);
                assert(ra[m - 1] == x);
            }
        }
        assert forall|p: int, q: int| 0 <= p < q < ra.len() implies seq_less(#[trigger] ra[p], #[trigger] ra[q]) by {
            assert(ra[p] == a[p + 1]);
            assert(ra[q] == a[q + 1]);
        }
        assert forall|p: int, q: int| 0 <= p < q < rb.len() implies seq_less(#[trigger] rb[p], #[trigger] rb[q]) by {
            assert(rb[p] == b[p + 1]);
            assert(rb[q] == b[q + 1]);
        }
        lemma_sorted_unique(ra, rb);
        assert(a =~= seq![a[0]] + ra);
        assert(b =~= seq![b[0]] + rb);
    }
}

/// The bindings that a directive with an obligation kind ranges over: every
/// binding created with that obligation type, in sorted order.
pub open spec fn domain_of(ops: Seq<crate::scenario::ScenarioOperation>, directive: Option<UserLoopInvariantDirective>) -> Option<Seq<Seq<char>>> {
    match kind_of(directive) {
        Some(kind) => Some(type_domain(ops, kind)),
        None => None,
    }
}

/// The bindings that a directive with an obligation kind ranges over.
pub fn user_invariant_domain_bindings(user_invariant: Option<&UserLoopInvariantDirective>, program: &ScenarioProgram) -> (r: Option<Vec<String>>)
    ensures
        match r {
            Some(v) => domain_of(program.operations@, match user_invariant { Some(d) => Some(*d), None => None }) == Some(texts(v@)),
            None => domain_of(program.operations@, match user_invariant { Some(d) => Some(*d), None => None }) is None,
        },
{
    let d = match user_invariant {
        Some(d) => d,
        None => return None,
    };
    let kind = match &d.obligation_kind {
        Some(k) => k,
        None => return None,
    };
    let found = bindings_of_type(program, kind.as_str());
    proof {
        let dom = type_domain(program.operations@, kind@);
        assert(sorted_strict(texts(found@)) && forall|x: Seq<char>| texts(found@).contains(x) <==> type_of(program.operations@, x) == Some(kind@));
        lemma_sorted_unique(texts(found@), dom);
    }
    Some(found)
}

/// A created binding counts for the loop's invariant: under a directive with an
/// obligation kind, when its obligation type is that kind; otherwise when it
/// has a lifecycle template.
pub open spec fn relevant_binding(ops: Seq<crate::scenario::ScenarioOperation>, user: Option<UserLoopInvariantDirective>, binding: Seq<char>) -> bool {
    match kind_of(user) {
        Some(kind) => type_of(ops, binding) == Some(kind),
        None => template_of(ops, binding) is Some,
    }
}

/// The created bindings that count for the loop's invariant, in order.
pub open spec fn relevant_of(ops: Seq<crate::scenario::ScenarioOperation>, user: Option<UserLoopInvariantDirective>, created: Seq<Seq<char>>) -> Seq<Seq<char>> {
    created.filter(|b: Seq<char>| relevant_binding(ops, user, b))
}

/// The bindings whose states are checked: the directive's domain where it has
/// one, else the relevant bindings.
pub open spec fn checked_of(ops: Seq<crate::scenario::ScenarioOperation>, user: Option<UserLoopInvariantDirective>, relevant: Seq<Seq<char>>) -> Seq<Seq<char>> {
    match domain_of(ops, user) {
        Some(domain) => domain,
        None => relevant,
    }
}

/// The binding whose template the invariant follows: the first relevant one,
/// else the first checked one.
pub open spec fn template_binding_of(relevant: Seq<Seq<char>>, checked: Seq<Seq<char>>) -> Option<Seq<char>> {
    if relevant.len() > 0 {
        Some(relevant[0])
    } else if checked.len() > 0 {
        Some(checked[0])
    } else {
        None
    }
}

/// The obligation type of `binding`, or `obligation` where it has none.
pub open spec fn type_or_obligation(ops: Seq<crate::scenario::ScenarioOperation>, binding: Seq<char>) -> Seq<char> {
    match type_of(ops, binding) {
        Some(t) => t,
        None => "obligation"@,
    }
}

/// The obligation kind of the invariant: the type of its template binding (the
/// empty binding where there is none), else the directive's kind, else
/// `obligation`.
pub open spec fn invariant_kind(ops: Seq<crate::scenario::ScenarioOperation>, user: Option<UserLoopInvariantDirective>, template_binding: Option<Seq<char>>) -> Seq<char> {
    match type_of(ops, match template_binding { Some(b) => b, None => Seq::empty() }) {
        Some(t) => t,
        None => match kind_of(user) {
            Some(kind) => kind,
            None => "obligation"@,
        },
    }
}

/// The evidence of a template for obligations of kind `kind`.
pub open spec fn template_view(template: ScenarioLifecycleTemplate, hashes: Seq<HashEvidence>, kind: Seq<char>) -> TemplateView {
    TemplateView {
        id: template.id@,
        version: template_version(template),
        schema_hash: template_hash_text(hashes, template.id@),
        source: template_source_of(template.source),
        confidence: confidence_named(template.confidence@),
        obligation_kind: kind,
        lifecycle_owner: template.lifecycle_owner@,
    }
}

/// The template evidence of those `bindings` that have a template, in order.
pub open spec fn binding_templates_of(ops: Seq<crate::scenario::ScenarioOperation>, hashes: Seq<HashEvidence>, bindings: Seq<Seq<char>>) -> Seq<BindingTemplateView>
    decreases bindings.len(),
{
    if bindings.len() == 0 {
        Seq::empty()
    } else {
        let prev = binding_templates_of(ops, hashes, bindings.drop_last());
        let b = bindings.last();
        match template_of(ops, b) {
            Some(t) => prev.push(BindingTemplateView {
                binding: b,
                template: template_view(t, hashes, type_or_obligation(ops, b)),
            }),
            None => prev,
        }
    }
}

/// Some checked binding is still owned, moved or unresolved on a branch.
pub open spec fn leaking(states: Seq<ObligationState>, checked: Seq<Seq<char>>) -> bool {
    exists|i: int| 0 <= i < states.len() && checked.contains((#[trigger] states[i]).binding@)
        && (states[i].state == ObligationStatus::Owned || states[i].state == ObligationStatus::Moved
            || states[i].state == ObligationStatus::BranchUnresolved)
}

/// The position of the last function named `name` among the first `n`.
pub open spec fn last_function(functions: Seq<CoreFunction>, name: Seq<char>, n: int) -> Option<int>
    decreases n,
{
    if n <= 0 {
        None
    } else if functions[n - 1].name@ == name {
        Some(n - 1)
    } else {
        last_function(functions, name, n - 1)
    }
}

/// The replayed entry environment of the block named `id`.
pub open spec fn entry_env_of(function: CoreFunction, replay: crate::replay::FunctionObligationReplay, id: Seq<char>) -> Option<ObligationEnv> {
    match crate::replay::last_block_position(function.blocks@, id, function.blocks@.len() as int) {
        Some(s) => replay.block_entry_envs@[s],
        None => None,
    }
}

/// The replayed exit environment of the block named `id`.
pub open spec fn exit_env_of(function: CoreFunction, replay: crate::replay::FunctionObligationReplay, id: Seq<char>) -> Option<ObligationEnv> {
    match crate::replay::last_block_position(function.blocks@, id, function.blocks@.len() as int) {
        Some(s) => replay.block_exit_envs@[s],
        None => None,
    }
}

/// Why a loop's invariant was downgraded, if it was.
pub open spec fn downgrade_of(has_user: bool, malformed: bool, unknown_kind: bool, entry_leak: bool, back_edge_leak: bool) -> Option<Seq<char>> {
    if has_user && malformed {
        Some("malformed user invariant expression"@)
    } else if has_user && unknown_kind {
        Some("unknown obligation kind in user invariant"@)
    } else if entry_leak {
        Some("user invariant is not true at loop entry"@)
    } else if back_edge_leak {
        Some("unresolved obligation reaches loop back-edge"@)
    } else {
        None
    }
}

/// Why a loop's invariant was downgraded, if it was.
pub fn user_invariant_downgrade_reason(user_loop_invariant: Option<&UserLoopInvariantDirective>, malformed_user_invariant: bool, unknown_user_kind: bool, entry_leak: bool, back_edge_leak: bool) -> (r: Option<String>)
    ensures
        opt_chars(r) == downgrade_of(user_loop_invariant is Some, malformed_user_invariant, unknown_user_kind, entry_leak, back_edge_leak),
{
    if user_loop_invariant.is_some() && malformed_user_invariant {
        return Some(owned("malformed user invariant expression"));
    }
    if user_loop_invariant.is_some() && unknown_user_kind {
        return Some(owned("unknown obligation kind in user invariant"));
    }
    if entry_leak {
        return Some(owned("user invariant is not true at loop entry"));
    }
    if back_edge_leak {
        Some(owned("unresolved obligation reaches loop back-edge"))
    } else {
        None
    }
}

/// The fact a user directive states about a loop, where it names a kind.
pub open spec fn user_fact_of(fact: CoreLoopBackEdgeFact, directive: UserLoopInvariantDirective, domain: Seq<Seq<char>>, template: Option<ScenarioLifecycleTemplate>) -> Option<UserFactView> {
    match directive.obligation_kind {
        Some(kind) => Some(UserFactView {
            loop_id: fact.loop_id@,
            obligation_kind: kind@,
            lifecycle_owner: match template { Some(t) => Some(t.lifecycle_owner@), None => None },
            template_id: match template { Some(t) => Some(t.id@), None => None },
            template_version: match template { Some(t) => Some(template_version(t)), None => None },
            domain_bindings: domain,
        }),
        None => None,
    }
}

pub(crate) fn clone_strings(v: &[String]) -> (r: Vec<String>)
    ensures
        r@ == v@,
{
    let mut r: Vec<String> = Vec::new();
    let mut i: usize = 0;
    while i < v.len()
        invariant
            i <= v@.len(),
            r@ == v@.take(i as int),
        decreases v@.len() - i,
    {
        r.push(v[i].clone());
        proof {
            assert(r@ =~= v@.take(i + 1));
        }
        i = i + 1;
    }
    proof {
        assert(v@.take(i as int) =~= v@);
    }
    r
}

/// The fact a user directive states about a loop, where it names a kind.
pub fn user_invariant_fact(fact: &CoreLoopBackEdgeFact, directive: &UserLoopInvariantDirective, domain_bindings: &[String], template: Option<&ScenarioLifecycleTemplate>) -> (r: Option<UserInvariantFactEvidence>)
    ensures
        match r {
            Some(f) => user_fact_of(*fact, *directive, texts(domain_bindings@), match template { Some(t) => Some(*t), None => None }) == Some(f@),
            None => user_fact_of(*fact, *directive, texts(domain_bindings@), match template { Some(t) => Some(*t), None => None }) is None,
        },
{
    let kind = match &directive.obligation_kind {
        Some(k) => k.clone(),
        None => return None,
    };
    let (owner, id, version) = match template {
        Some(t) => (Some(t.lifecycle_owner.clone()), Some(t.id.clone()), Some(lifecycle_template_version(t))),
        None => (None, None, None),
    };
    Some(UserInvariantFactEvidence {
        loop_id: fact.loop_id.clone(),
        predicate: UserInvariantPredicate::NoPending,
        obligation_kind: kind,
        lifecycle_owner: owner,
        template_id: id,
        template_version: version,
        domain_bindings: clone_strings(domain_bindings),
    })
}

/// The evidence of a template for obligations of kind `kind`.
pub fn template_evidence_for(template: &ScenarioLifecycleTemplate, template_hashes: &[HashEvidence], kind: String) -> (r: InvariantTemplateEvidence)
    ensures
        r@ == template_view(*template, template_hashes@, kind@),
{
    let hash = template_hash(template, template_hashes);
    InvariantTemplateEvidence {
        id: template.id.clone(),
        version: lifecycle_template_version(template),
        schema_hash: hash,
        source: invariant_template_source(&template.source),
        confidence: invariant_confidence(template.confidence.as_str()),
        obligation_kind: kind,
        lifecycle_owner: template.lifecycle_owner.clone(),
    }
}

/// The obligation type of `binding`, or `obligation` where it has none.
fn type_or_obligation_exec(program: &ScenarioProgram, binding: &str) -> (r: String)
    ensures
        r@ == type_or_obligation(program.operations@, binding@),
{
    match type_for_binding(program, binding) {
        Some(t) => t.clone(),
        None => owned("obligation"),
    }
}

/// The template evidence of those `bindings` that have a template, in order.
pub fn invariant_binding_templates(bindings: &[String], program: &ScenarioProgram, template_hashes: &[HashEvidence]) -> (r: Vec<InvariantBindingTemplateEvidence>)
    ensures
        r@.map_values(|b: InvariantBindingTemplateEvidence| b@) == binding_templates_of(program.operations@, template_hashes@, texts(bindings@)),
{
    let mut out: Vec<InvariantBindingTemplateEvidence> = Vec::new();
    let mut i: usize = 0;
    proof {
        assert(texts(bindings@.take(0)) =~= Seq::<Seq<char>>::empty());
        assert(out@.map_values(|b: InvariantBindingTemplateEvidence| b@) =~= Seq::<BindingTemplateView>::empty());
    }
    while i < bindings.len()
        invariant
            i <= bindings@.len(),
            out@.map_values(|b: InvariantBindingTemplateEvidence| b@) == binding_templates_of(program.operations@, template_hashes@, texts(bindings@.take(i as int))),
        decreases bindings@.len() - i,
    {
        let binding = &bindings[i];
        proof {
            assert(texts(bindings@.take(i + 1)).drop_last() =~= texts(bindings@.take(i as int)));
            assert(texts(bindings@.take(i + 1)).last() == binding@);
        }
        match template_for_binding(program, binding.as_str()) {
            Some(t) => {
                proof {
                    assert(template_of(program.operations@, binding@) == Some(*t));
                }
                let kind = type_or_obligation_exec(program, binding.as_str());
                let te = template_evidence_for(t, template_hashes, kind);
                let ghost before = out@;
                out.push(InvariantBindingTemplateEvidence {
                    binding: binding.clone(),
                    id: te.id,
                    version: te.version,
                    schema_hash: te.schema_hash,
                    source: te.source,
                    confidence: te.confidence,
                    obligation_kind: te.obligation_kind,
                    lifecycle_owner: te.lifecycle_owner,
                });
                proof {
                    assert(out@.map_values(|b: InvariantBindingTemplateEvidence| b@) =~= before.map_values(|b: InvariantBindingTemplateEvidence| b@).push(out@.last()@));
                }
            },
            None => {},
        }
        i = i + 1;
    }
    proof {
        assert(bindings@.take(i as int) =~= bindings@);
    }
    out
}

/// Whether some checked binding is still owned, moved or unresolved on a branch.
pub fn any_leak(states: &[ObligationState], checked: &[String]) -> (r: bool)
    ensures
        r == leaking(states@, texts(checked@)),
{
    let mut i: usize = 0;
    while i < states.len()
        invariant
            i <= states@.len(),
            forall|k: int| 0 <= k < i ==> !(texts(checked@).contains((#[trigger] states@[k]).binding@)
                && (states@[k].state == ObligationStatus::Owned || states@[k].state == ObligationStatus::Moved
                    || states@[k].state == ObligationStatus::BranchUnresolved)),
        decreases states@.len() - i,
    {
        let state = &states[i];
        let open = match state.state {
            ObligationStatus::Owned | ObligationStatus::Moved | ObligationStatus::BranchUnresolved => true,
            _ => false,
        };
        if open {
            let mut j: usize = 0;
            while j < checked.len()
                invariant
                    j <= checked@.len(),
                    i < states@.len(),
                    *state == states@[i as int],
                    state.state == ObligationStatus::Owned || state.state == ObligationStatus::Moved
                        || state.state == ObligationStatus::BranchUnresolved,
                    forall|q: int| 0 <= q < j ==> (#[trigger] checked@[q])@ != state.binding@,
                decreases checked@.len() - j,
            {
                if str_equals(checked[j].as_str(), state.binding.as_str()) {
                    proof {
                        assert(texts(checked@)[j as int] == state.binding@);
                        assert(texts(checked@).contains(states@[i as int].binding@));
                    }
                    return true;
                }
                j = j + 1;
            }
            proof {
                assert forall|q: int| 0 <= q < texts(checked@).len() implies texts(checked@)[q] != state.binding@ by {
                    assert(texts(checked@)[q] == checked@[q]@);
                }
            }
        }
        i = i + 1;
    }
    false
}

/// The position of the last function named `name`.
pub fn find_last_function(functions: &[CoreFunction], name: &str) -> (r: Option<usize>)
    ensures
        match r {
            Some(k) => last_function(functions@, name@, functions@.len() as int) == Some(k as int) && k < functions@.len(),
            None => last_function(functions@, name@, functions@.len() as int) is None,
        },
{
    let mut j = functions.len();
    while j > 0
        invariant
            j <= functions@.len(),
            last_function(functions@, name@, functions@.len() as int) == last_function(functions@, name@, j as int),
        decreases j,
    {
        if str_equals(functions[j - 1].name.as_str(), name) {
            return Some(j - 1);
        }
        j = j - 1;
    }
    None
}

/// A directive reference as a value.
pub open spec fn directive_value(user: Option<&UserLoopInvariantDirective>) -> Option<UserLoopInvariantDirective> {
    match user {
        Some(d) => Some(*d),
        None => None,
    }
}

/// The created bindings that count for the loop's invariant, in order.
pub fn relevant_bindings(program: &ScenarioProgram, user: Option<&UserLoopInvariantDirective>, scoped: &[String]) -> (r: Vec<String>)
    ensures
        texts(r@) == relevant_of(program.operations@, directive_value(user), texts(scoped@)),
{
    let ghost ops = program.operations@;
    let ghost u = directive_value(user);
    let ghost keep = |b: Seq<char>| relevant_binding(ops, u, b);
    let kind: Option<&String> = match user {
        Some(d) => match &d.obligation_kind {
            Some(k) => Some(k),
            None => None,
        },
        None => None,
    };
    let mut out: Vec<String> = Vec::new();
    let mut i: usize = 0;
    proof {
        assert(texts(scoped@.take(0)) =~= Seq::<Seq<char>>::empty());
        assert(texts(scoped@.take(0)).filter(keep) =~= Seq::<Seq<char>>::empty());
        assert(texts(out@) =~= Seq::<Seq<char>>::empty());
    }
    while i < scoped.len()
        invariant
            i <= scoped@.len(),
            ops == program.operations@,
            u == directive_value(user),
            kind matches Some(k) ==> kind_of(u) == Some(k@),
            kind is None ==> kind_of(u) is None,
            forall|b: Seq<char>| #[trigger] keep(b) == relevant_binding(ops, u, b),
            texts(out@) == texts(scoped@.take(i as int)).filter(keep),
        decreases scoped@.len() - i,
    {
        let binding = &scoped[i];
        let counts = match kind {
            Some(k) => match type_for_binding(program, binding.as_str()) {
                Some(t) => str_equals(t.as_str(), k.as_str()),
                None => false,
            },
            None => template_for_binding(program, binding.as_str()).is_some(),
        };
        proof {
            assert(counts == keep(binding@));
            assert(texts(scoped@.take(i + 1)).drop_last() =~= texts(scoped@.take(i as int)));
            assert(texts(scoped@.take(i + 1)).last() == binding@);
            texts(scoped@.take(i as int)).lemma_filter_push(binding@, keep);
            assert(texts(scoped@.take(i as int)).push(binding@) =~= texts(scoped@.take(i + 1)));
        }
        if counts {
            let ghost before = out@;
            out.push(binding.clone());
            proof {
                assert(texts(out@) =~= texts(before).push(binding@));
            }
        }
        i = i + 1;
    }
    proof {
        assert(scoped@.take(i as int) =~= scoped@);
        assert(keep =~= (|b: Seq<char>| relevant_binding(ops, u, b)));
    }
    out
}

/// The states of the checked bindings that an environment slot holds.
fn states_at(slot: &Option<ObligationEnv>, checked: &[String]) -> (r: Vec<ObligationState>)
    requires
        slot matches Some(e) ==> e.wf(),
    ensures
        r@ == states_for(*slot, texts(checked@)),
{
    match slot {
        Some(env) => env_states_for_bindings(env, checked),
        None => Vec::new(),
    }
}

/// The text `no_pending(<kind>)`.
fn no_pending_expression(kind: &str) -> (r: String)
    ensures
        r@ == "no_pending("@ + kind@ + ")"@,
{
    let mut out: Vec<char> = Vec::new();
    push_str(&mut out, "no_pending(");
    push_str(&mut out, kind);
    push_str(&mut out, ")");
    string_from_chars(out.as_slice())
}

/// Where a directive with a kind finds no binding of that kind, or has none.
pub open spec fn unknown_kind_of(user: Option<UserLoopInvariantDirective>, domain: Option<Seq<Seq<char>>>) -> bool {
    let malformed = match user { Some(d) => d.obligation_kind is None, None => false };
    malformed || (user is Some && match domain { Some(v) => v.len() == 0, None => true })
}

/// Whether the loop of `fact` gets invariant evidence: it has a directive or a
/// relevant created binding, and its function is among `functions`.
pub open spec fn keeps_fact(ops: Seq<crate::scenario::ScenarioOperation>, functions: Seq<CoreFunction>, facts: Seq<CoreLoopBackEdgeFact>, events: Seq<ObligationEvent>, directive: Option<UserLoopInvariantDirective>, fact: CoreLoopBackEdgeFact) -> bool {
    let user = directive_for(directive, fact, facts);
    let relevant = relevant_of(ops, user, created_in_loop(fact, events));
    !(user is None && relevant.len() == 0) && last_function(functions, fact.function@, functions.len() as int) is Some
}

/// The invariant evidence of the loop of `fact`, given the replay of each function.
pub open spec fn loop_invariant_view(ops: Seq<crate::scenario::ScenarioOperation>, functions: Seq<CoreFunction>, replays: Seq<crate::replay::FunctionObligationReplay>, facts: Seq<CoreLoopBackEdgeFact>, events: Seq<ObligationEvent>, hashes: Seq<HashEvidence>, directive: Option<UserLoopInvariantDirective>, fact: CoreLoopBackEdgeFact) -> LoopInvariantView {
    let user = directive_for(directive, fact, facts);
    let relevant = relevant_of(ops, user, created_in_loop(fact, events));
    let domain = domain_of(ops, user);
    let checked = checked_of(ops, user, relevant);
    let tb = template_binding_of(relevant, checked);
    let template = match tb { Some(b) => template_of(ops, b), None => None };
    let kind = invariant_kind(ops, user, tb);
    let f = last_function(functions, fact.function@, functions.len() as int)->0;
    let entry_states = states_for(entry_env_of(functions[f], replays[f], fact.entry_block@), checked);
    let back_states = states_for(exit_env_of(functions[f], replays[f], fact.back_edge_source@), checked);
    let entry_leak = leaking(entry_states, checked);
    let back_leak = leaking(back_states, checked);
    let malformed = match user { Some(d) => d.obligation_kind is None, None => false };
    let unknown = unknown_kind_of(user, domain);
    LoopInvariantView {
        id: fact.id@,
        function: fact.function@,
        loop_id: fact.loop_id@,
        loop_label: opt_chars(fact.loop_label),
        entry_block: fact.entry_block@,
        back_edge_source: fact.back_edge_source@,
        back_edge_target: fact.back_edge_target@,
        tier: if user is Some { InvariantTier::User } else { InvariantTier::Inferred },
        expression: match user {
            Some(d) => d.expression@,
            None => "no_pending("@ + kind + ")"@,
        },
        source_span: match user {
            Some(d) => d.source_span,
            None => fact.source_span,
        },
        obligations_created: relevant,
        entry_states: entry_states,
        back_edge_states: back_states,
        preservation: if entry_leak || back_leak || unknown {
            InvariantPreservation::Failed
        } else {
            InvariantPreservation::Preserved
        },
        template: match template {
            Some(t) => Some(template_view(t, hashes, kind)),
            None => None,
        },
        binding_templates: binding_templates_of(ops, hashes, relevant),
        user_fact: match (user, domain) {
            (Some(d), Some(v)) => user_fact_of(fact, d, v, template),
            _ => None,
        },
        downgrade_reason: downgrade_of(user is Some, malformed, unknown, entry_leak, back_leak),
    }
}

/// The invariant evidence of the kept loops among `pending`, in order.
pub open spec fn loop_invariant_views(ops: Seq<crate::scenario::ScenarioOperation>, functions: Seq<CoreFunction>, replays: Seq<crate::replay::FunctionObligationReplay>, facts: Seq<CoreLoopBackEdgeFact>, events: Seq<ObligationEvent>, hashes: Seq<HashEvidence>, directive: Option<UserLoopInvariantDirective>, pending: Seq<CoreLoopBackEdgeFact>) -> Seq<LoopInvariantView>
    decreases pending.len(),
{
    if pending.len() == 0 {
        Seq::empty()
    } else {
        let prev = loop_invariant_views(ops, functions, replays, facts, events, hashes, directive, pending.drop_last());
        if keeps_fact(ops, functions, facts, events, directive, pending.last()) {
            prev.push(loop_invariant_view(ops, functions, replays, facts, events, hashes, directive, pending.last()))
        } else {
            prev
        }
    }
}

/// Each function has its replay beside it.
pub open spec fn replays_for(functions: Seq<CoreFunction>, replays: Seq<crate::replay::FunctionObligationReplay>) -> bool {
    &&& replays.len() == functions.len()
    &&& forall|i: int| 0 <= i < functions.len() ==> crate::replay::replay_ok(#[trigger] functions[i], replays[i])
}

/// The invariant evidence of the loop of `fact`, where it gets any.
pub fn loop_invariant_for_fact(program: &ScenarioProgram, functions: &[CoreFunction], replays: &[crate::replay::FunctionObligationReplay], loop_facts: &[CoreLoopBackEdgeFact], obligation_events: &[ObligationEvent], template_hashes: &[HashEvidence], user_loop_invariant: &Option<UserLoopInvariantDirective>, fact: &CoreLoopBackEdgeFact) -> (r: Option<LoopInvariantEvidence>)
    requires
        replays_for(functions@, replays@),
    ensures
        match r {
            Some(e) => keeps_fact(program.operations@, functions@, loop_facts@, obligation_events@, *user_loop_invariant, *fact)
                && e@ == loop_invariant_view(program.operations@, functions@, replays@, loop_facts@, obligation_events@, template_hashes@, *user_loop_invariant, *fact),
            None => !keeps_fact(program.operations@, functions@, loop_facts@, obligation_events@, *user_loop_invariant, *fact),
        },
{
    let ghost ops = program.operations@;
    let user = user_invariant_for_fact(user_loop_invariant, fact, loop_facts);
    let ghost u = directive_value(user);
    let scoped = created_bindings_for_loop(fact, obligation_events);
    proof {
        assert(texts(scoped@) =~= scoped@.map_values(|b: String| b@));
    }
    let relevant = relevant_bindings(program, user, scoped.as_slice());
    let domain = user_invariant_domain_bindings(user, program);
    let checked = match &domain {
        Some(v) => clone_strings(v.as_slice()),
        None => clone_strings(relevant.as_slice()),
    };
    if user.is_none() && relevant.len() == 0 {
        return None;
    }
    let template_binding: Option<&String> = if relevant.len() > 0 {
        Some(&relevant[0])
    } else if checked.len() > 0 {
        Some(&checked[0])
    } else {
        None
    };
    let ghost tb = template_binding_of(texts(relevant@), texts(checked@));
    proof {
        if relevant@.len() > 0 {
            assert(texts(relevant@)[0] == relevant@[0]@);
        } else if checked@.len() > 0 {
            assert(texts(checked@)[0] == checked@[0]@);
        }
    }
    let template = match template_binding {
        Some(b) => template_for_binding(program, b.as_str()),
        None => None,
    };
    let binding_templates = invariant_binding_templates(relevant.as_slice(), program, template_hashes);
    let lookup: &str = match template_binding {
        Some(b) => b.as_str(),
        None => "",
    };
    proof {
        if template_binding is None {
            assert(lookup@ =~= Seq::<char>::empty()) by {
                reveal_strlit("");
            }
        }
    }
    let obligation_kind = match type_for_binding(program, lookup) {
        Some(t) => t.clone(),
        None => match user {
            Some(d) => match &d.obligation_kind {
                Some(k) => k.clone(),
                None => owned("obligation"),
            },
            None => owned("obligation"),
        },
    };
    let f = match find_last_function(functions, fact.function.as_str()) {
        Some(f) => f,
        None => return None,
    };
    let function = &functions[f];
    let replay = &replays[f];
    proof {
        assert(crate::replay::replay_ok(functions@[f as int], replays@[f as int]));
    }
    let entry_slot = crate::replay::find_last_block(function.blocks.as_slice(), fact.entry_block.as_str());
    let entry_states = match entry_slot {
        Some(s) => {
            proof {
                if replay.block_entry_envs@[s as int] is Some {
                    assert(crate::replay::slots_ok(function.blocks@, replay.block_entry_envs@, crate::replay::entry_slot(function.blocks@)));
                }
            }
            states_at(&replay.block_entry_envs[s], checked.as_slice())
        },
        None => Vec::new(),
    };
    let exit_slot = crate::replay::find_last_block(function.blocks.as_slice(), fact.back_edge_source.as_str());
    let back_edge_states = match exit_slot {
        Some(s) => {
            proof {
                let x = replay.block_exit_envs@[s as int];
                let y = replay.block_entry_envs@[s as int];
                assert(match (x, y) {
                    (Some(exit), Some(entry)) => exit.wf() && exit@ == crate::obligations::after_block(entry@, function.blocks@[s as int]),
                    (None, None) => true,
                    _ => false,
                });
            }
            states_at(&replay.block_exit_envs[s], checked.as_slice())
        },
        None => Vec::new(),
    };
    let entry_leak = any_leak(entry_states.as_slice(), checked.as_slice());
    let back_edge_leak = any_leak(back_edge_states.as_slice(), checked.as_slice());
    let malformed_user_invariant = match user {
        Some(d) => d.obligation_kind.is_none(),
        None => false,
    };
    let unknown_user_kind = malformed_user_invariant || (user.is_some() && match &domain {
        Some(v) => v.len() == 0,
        None => true,
    });
    let preservation = if entry_leak || back_edge_leak || unknown_user_kind {
        InvariantPreservation::Failed
    } else {
        InvariantPreservation::Preserved
    };
    let user_fact = match (user, &domain) {
        (Some(d), Some(v)) => user_invariant_fact(fact, d, v.as_slice(), template),
        _ => None,
    };
    let template_evidence = match template {
        Some(t) => {
            proof {
                assert(template_of(ops, tb->0) == Some(*t));
            }
            Some(template_evidence_for(t, template_hashes, obligation_kind.clone()))
        },
        None => None,
    };
    let downgrade_reason = user_invariant_downgrade_reason(user, malformed_user_invariant, unknown_user_kind, entry_leak, back_edge_leak);
    let (tier, expression, source_span) = match user {
        Some(d) => (InvariantTier::User, d.expression.clone(), clone_span(&d.source_span)),
        None => (InvariantTier::Inferred, no_pending_expression(obligation_kind.as_str()), clone_span(&fact.source_span)),
    };
    let evidence = LoopInvariantEvidence {
        id: fact.id.clone(),
        function: fact.function.clone(),
        loop_id: fact.loop_id.clone(),
        loop_label: clone_opt_string(&fact.loop_label),
        entry_block: fact.entry_block.clone(),
        back_edge_source: fact.back_edge_source.clone(),
        back_edge_target: fact.back_edge_target.clone(),
        tier,
        expression,
        source_span,
        obligations_created: relevant,
        entry_states,
        back_edge_states,
        preservation,
        template: template_evidence,
        binding_templates,
        user_fact,
        downgrade_reason,
    };
    Some(evidence)
}

/// The loop invariant evidence of every loop back edge that has a directive or
/// a relevant created binding, in fact order. The obligations are replayed per
/// function; the evidence is that of some replay of each function with the
/// replay's properties.
pub fn loop_invariant_evidence(program: &ScenarioProgram, functions: &[CoreFunction], loop_facts: &[CoreLoopBackEdgeFact], obligation_events: &[ObligationEvent], template_hashes: &[HashEvidence], user_loop_invariant: &Option<UserLoopInvariantDirective>) -> (r: Vec<LoopInvariantEvidence>)
    ensures
        exists|replays: Seq<crate::replay::FunctionObligationReplay>| replays_for(functions@, replays)
            && r@.map_values(|e: LoopInvariantEvidence| e@) == loop_invariant_views(program.operations@, functions@, replays, loop_facts@, obligation_events@, template_hashes@, *user_loop_invariant, loop_facts@),
{
    let mut replays: Vec<crate::replay::FunctionObligationReplay> = Vec::new();
    let mut k: usize = 0;
    while k < functions.len()
        invariant
            k <= functions@.len(),
            replays@.len() == k,
            forall|i: int| 0 <= i < k ==> crate::replay::replay_ok(#[trigger] functions@[i], replays@[i]),
        decreases functions@.len() - k,
    {
        replays.push(crate::replay::function_obligation_replay(&functions[k]));
        k = k + 1;
    }
    let mut out: Vec<LoopInvariantEvidence> = Vec::new();
    if loop_facts.len() == 0 {
        proof {
            assert(out@.map_values(|e: LoopInvariantEvidence| e@) =~= Seq::<LoopInvariantView>::empty());
            assert(replays_for(functions@, replays@));
            assert(out@.map_values(|e: LoopInvariantEvidence| e@) == loop_invariant_views(program.operations@, functions@, replays@, loop_facts@, obligation_events@, template_hashes@, *user_loop_invariant, loop_facts@));
        }
        return out;
    }
    let mut i: usize = 0;
    proof {
        assert(loop_facts@.take(0) =~= Seq::<CoreLoopBackEdgeFact>::empty());
        assert(out@.map_values(|e: LoopInvariantEvidence| e@) =~= Seq::<LoopInvariantView>::empty());
    }
    while i < loop_facts.len()
        invariant
            i <= loop_facts@.len(),
            replays_for(functions@, replays@),
            out@.map_values(|e: LoopInvariantEvidence| e@) == loop_invariant_views(program.operations@, functions@, replays@, loop_facts@, obligation_events@, template_hashes@, *user_loop_invariant, loop_facts@.take(i as int)),
        decreases loop_facts@.len() - i,
    {
        proof {
            assert(loop_facts@.take(i + 1).drop_last() =~= loop_facts@.take(i as int));
            assert(loop_facts@.take(i + 1).last() == loop_facts@[i as int]);
        }
        match loop_invariant_for_fact(program, functions, replays.as_slice(), loop_facts, obligation_events, template_hashes, user_loop_invariant, &loop_facts[i]) {
            Some(e) => {
                let ghost before = out@;
                out.push(e);
                proof {
                    assert(out@.map_values(|e: LoopInvariantEvidence| e@) =~= before.map_values(|e: LoopInvariantEvidence| e@).push(out@.last()@));
                }
            },
            None => {},
        }
        i = i + 1;
    }
    proof {
        assert(loop_facts@.take(i as int) =~= loop_facts@);
    }
    out
}

/// The directive that the fields of a `#[kobo::invariant(..)]` attribute
/// state: the expression, the kind a `no_pending(..)` expression names, the
/// loop label (`loop_label`, else `loop`) and where the expression stands in
/// the source. Without an `expression` field there is none.
pub fn user_loop_invariant_directive(source_path: &str, source: &str, fields: &crate::bounded::FieldMap) -> (r: Option<UserLoopInvariantDirective>)
    requires
        utf8_len(source@) < usize::MAX,
        forall|v: Seq<char>| fields@.values().contains(v) ==> utf8_len(v) <= usize::MAX,
    ensures
        match r {
            Some(d) => fields@.contains_key("expression"@) && d.expression@ == fields@["expression"@]
                && opt_chars(d.obligation_kind) == no_pending_kind(d.expression@)
                && opt_chars(d.loop_label) == (if fields@.contains_key("loop_label"@) {
                    Some(fields@["loop_label"@])
                } else if fields@.contains_key("loop"@) {
                    Some(fields@["loop"@])
                } else {
                    None
                })
                && range_span(d.source_span, source_path@, source@,
                    if d.expression@.len() == 0 { 0 } else {
                        match find_offset(source@, d.expression@) { Some(off) => off, None => 0 }
                    },
                    utf8_len(d.expression@) as int),
            None => !fields@.contains_key("expression"@),
        },
{
    let expression = match fields.get("expression") {
        Some(e) => e,
        None => return None,
    };
    proof {
        assert(fields@.values().contains(fields@["expression"@]));
    }
    let obligation_kind = no_pending_obligation_kind(expression.as_str());
    let loop_label = match fields.get("loop_label") {
        Some(l) => Some(l),
        None => fields.get("loop"),
    };
    let source_span = source_span_for_user_invariant(source_path, source, expression.as_str());
    Some(UserLoopInvariantDirective { expression, obligation_kind, loop_label, source_span })
}

} // verus!
