//! Migration patterns: where a chosen ownership tier could be improved, and
//! how the suggestions are listed for a reader.
use vstd::prelude::*;
use crate::config::owned;
use crate::debt::{Kir, KirNode, NodeKind, OwnershipTier, binding_for, find_binding};
use crate::scenario::KoboSpan;
use crate::strings::{decimal_text, push_decimal};

verus! {

/// The ownership tier chosen for one node.
#[derive(Clone, Copy, Debug, PartialEq, Eq, Structural)]
pub struct TierDecision {
    pub node: u32,
    pub tier: OwnershipTier,
}

/// Risk level for a migration pattern.
#[derive(Clone, Copy, Debug, PartialEq, Eq, Structural)]
pub enum PatternRisk {
    /// Mechanical change, no behavior change.
    Safe,
    /// Needs human review; may change semantics.
    MayChangeBehavior,
}

/// A detected migration pattern for a specific binding.
#[derive(Debug)]
pub struct MigrationPattern {
    pub name: String,
    pub binding_name: String,
    pub current_tier: OwnershipTier,
    pub suggested_tier: OwnershipTier,
    pub explanation: String,
    pub risk: PatternRisk,
    pub span: KoboSpan,
}

/// A migration pattern, as text.
pub struct MigrationPatternView {
    pub name: Seq<char>,
    pub binding_name: Seq<char>,
    pub current_tier: OwnershipTier,
    pub suggested_tier: OwnershipTier,
    pub explanation: Seq<char>,
    pub risk: PatternRisk,
    pub span: KoboSpan,
}

impl View for MigrationPattern {
    type V = MigrationPatternView;

    open spec fn view(&self) -> MigrationPatternView {
        MigrationPatternView {
            name: self.name@,
            binding_name: self.binding_name@,
            current_tier: self.current_tier,
            suggested_tier: self.suggested_tier,
            explanation: self.explanation@,
            risk: self.risk,
            span: self.span,
        }
    }
}

/// The texts of a list of patterns.
pub open spec fn pattern_views(v: Seq<MigrationPattern>) -> Seq<MigrationPatternView> {
    v.map_values(|p: MigrationPattern| p@)
}

/// The position of the first node with id `id`.
pub open spec fn node_for(nodes: Seq<KirNode>, id: u32) -> Option<int> {
    if exists|i: int| 0 <= i < nodes.len() && (#[trigger] nodes[i]).id == id {
        Some(choose|i: int| 0 <= i < nodes.len() && (#[trigger] nodes[i]).id == id
            && forall|j: int| 0 <= j < i ==> (#[trigger] nodes[j]).id != id)
    } else {
        None
    }
}

/// One pattern, as text.
pub open spec fn suggestion(name: Seq<char>, binding: Seq<char>, current: OwnershipTier, suggested: OwnershipTier, explanation: Seq<char>, risk: PatternRisk, span: KoboSpan) -> MigrationPatternView {
    MigrationPatternView { name, binding_name: binding, current_tier: current, suggested_tier: suggested, explanation, risk, span }
}

/// `seq![x]` where `cond` holds, else nothing.
pub open spec fn when(cond: bool, x: MigrationPatternView) -> Seq<MigrationPatternView> {
    if cond { seq![x] } else { Seq::empty() }
}

/// Rc to Arc where an Rc must be Send.
pub open spec fn rc_to_arc(d: TierDecision, name: Seq<char>, facts: Option<crate::debt::SharedBindingFacts>, span: KoboSpan) -> Seq<MigrationPatternView> {
    when(d.tier == OwnershipTier::RcShared && (facts matches Some(f) && f.needs_send),
        suggestion("Rc→Arc escalation"@, name, OwnershipTier::RcShared, OwnershipTier::ArcShared,
            "Your binding crossed a spawn boundary — Rc is not Send"@, PatternRisk::Safe, span))
}

/// RefCell to RwLock where a mutable Rc must be Send.
pub open spec fn refcell_to_rwlock(d: TierDecision, name: Seq<char>, facts: Option<crate::debt::SharedBindingFacts>, span: KoboSpan) -> Seq<MigrationPatternView> {
    when(d.tier == OwnershipTier::RcMutShared && (facts matches Some(f) && f.needs_send),
        suggestion("RefCell→RwLock"@, name, OwnershipTier::RcMutShared, OwnershipTier::ArcMutShared,
            "Your binding is mutably shared in async context — RefCell is not Send"@,
            PatternRisk::MayChangeBehavior, span))
}

/// A clone that can be a borrow.
pub open spec fn clone_to_borrow(d: TierDecision, name: Seq<char>, elision: bool, alias: bool, span: KoboSpan) -> Seq<MigrationPatternView> {
    when(elision && !alias,
        suggestion("Clone elimination"@, name, d.tier, d.tier, "This clone can be replaced with a borrow"@,
            PatternRisk::Safe, span))
}

/// A clone that can be a lifetime parameter.
pub open spec fn clone_to_lifetime(d: TierDecision, name: Seq<char>, fallback: bool, span: KoboSpan) -> Seq<MigrationPatternView> {
    when(fallback,
        suggestion("Lifetime insertion"@, name, d.tier, d.tier, "This clone can be replaced with &'a T"@,
            PatternRisk::MayChangeBehavior, span))
}

/// An Arc that need not be Send.
pub open spec fn arc_to_rc(d: TierDecision, name: Seq<char>, facts: Option<crate::debt::SharedBindingFacts>, span: KoboSpan) -> Seq<MigrationPatternView> {
    when(d.tier == OwnershipTier::ArcShared && (facts matches Some(f) && !f.needs_send),
        suggestion("Arc de-escalation"@, name, OwnershipTier::ArcShared, OwnershipTier::RcShared,
            "This Arc is only used in single-threaded context — Rc is cheaper"@, PatternRisk::Safe, span))
}

/// A Box that neither escapes nor is shared.
pub open spec fn box_to_plain(d: TierDecision, name: Seq<char>, facts: Option<crate::debt::SharedBindingFacts>, span: KoboSpan) -> Seq<MigrationPatternView> {
    when(d.tier == OwnershipTier::BoxOwned && (facts matches Some(f) && !f.has_escape && !f.needs_sharing),
        suggestion("Box→PlainOwned"@, name, OwnershipTier::BoxOwned, OwnershipTier::PlainOwned,
            "This Box is unnecessary; value fits on stack"@, PatternRisk::Safe, span))
}

/// The patterns of one decision, in the order they are checked: Rc to Arc
/// where an Rc must be Send; RefCell to RwLock where a mutable Rc must be
/// Send; a clone that can be a borrow; a clone that can be a lifetime; an Arc
/// that need not be Send; and a Box that neither escapes nor is shared. Only
/// declarations are considered; a declaration without binding facts is named
/// `node_<id>` and gets none of the patterns that read those facts.
pub open spec fn patterns_for(kir: Kir, d: TierDecision) -> Seq<MigrationPatternView> {
    match node_for(kir.nodes@, d.node) {
        None => Seq::empty(),
        Some(n) => {
            let node = kir.nodes@[n];
            if node.kind != NodeKind::Decl {
                Seq::empty()
            } else {
                let b = binding_for(kir.bindings@, d.node);
                let name = match b {
                    Some(i) => kir.bindings@[i].binding_name@,
                    None => "node_"@ + decimal_text(d.node as nat),
                };
                let shared = match b { Some(i) => Some(kir.bindings@[i].shared_facts), None => None };
                let elision = match b { Some(i) => kir.bindings@[i].has_clone_elision, None => false };
                let alias = match b { Some(i) => kir.bindings@[i].plain_clone_alias, None => false };
                let fallback = match b { Some(i) => kir.bindings@[i].has_elision_fallback, None => false };
                let span = node.span;
                rc_to_arc(d, name, shared, span) + refcell_to_rwlock(d, name, shared, span)
                    + clone_to_borrow(d, name, elision, alias, span) + clone_to_lifetime(d, name, fallback, span)
                    + arc_to_rc(d, name, shared, span) + box_to_plain(d, name, shared, span)
            }
        },
    }
}

/// The patterns of the first `n` decisions, in order.
pub open spec fn patterns_upto(kir: Kir, decisions: Seq<TierDecision>, n: int) -> Seq<MigrationPatternView>
    decreases n,
{
    if n <= 0 {
        Seq::empty()
    } else {
        patterns_upto(kir, decisions, n - 1) + patterns_for(kir, decisions[n - 1])
    }
}

proof fn lemma_concat_contains<A>(a: Seq<A>, b: Seq<A>, x: A)
    requires
        (a + b).contains(x),
    ensures
        a.contains(x) || b.contains(x),
{
    let j = choose|j: int| 0 <= j < (a + b).len() && (a + b)[j] == x;
    if j < a.len() {
        assert(a[j] == x);
    } else {
        assert(b[j - a.len()] == x);
    }
}

/// The binding facts a decision's patterns read, where its node has any.
pub open spec fn decision_facts(kir: Kir, d: TierDecision) -> Option<crate::debt::TransformBindingFacts> {
    match binding_for(kir.bindings@, d.node) {
        Some(b) => Some(kir.bindings@[b]),
        None => None,
    }
}

/// A pattern that turns an Arc into an Rc is only suggested for an Arc
/// binding that need not be Send; one that turns an Rc into an Arc only for
/// an Rc binding that must be Send.
pub proof fn lemma_decision_send_patterns(kir: Kir, d: TierDecision, p: MigrationPatternView)
    requires
        patterns_for(kir, d).contains(p),
    ensures
        p.current_tier == OwnershipTier::ArcShared && p.suggested_tier == OwnershipTier::RcShared ==> {
            &&& d.tier == OwnershipTier::ArcShared
            &&& decision_facts(kir, d) matches Some(f)
            &&& !f.shared_facts.needs_send
            &&& p.binding_name == f.binding_name@
        },
        p.current_tier == OwnershipTier::RcShared && p.suggested_tier == OwnershipTier::ArcShared ==> {
            &&& d.tier == OwnershipTier::RcShared
            &&& decision_facts(kir, d) matches Some(f)
            &&& f.shared_facts.needs_send
            &&& p.binding_name == f.binding_name@
        },
{
    let n = node_for(kir.nodes@, d.node)->0;
    let node = kir.nodes@[n];
    let b = binding_for(kir.bindings@, d.node);
    let name = match b {
        Some(i) => kir.bindings@[i].binding_name@,
        None => "node_"@ + decimal_text(d.node as nat),
    };
    let shared = match b { Some(i) => Some(kir.bindings@[i].shared_facts), None => None };
    let elision = match b { Some(i) => kir.bindings@[i].has_clone_elision, None => false };
    let alias = match b { Some(i) => kir.bindings@[i].plain_clone_alias, None => false };
    let fallback = match b { Some(i) => kir.bindings@[i].has_elision_fallback, None => false };
    let span = node.span;
    let s1 = rc_to_arc(d, name, shared, span);
    let s2 = refcell_to_rwlock(d, name, shared, span);
    let s3 = clone_to_borrow(d, name, elision, alias, span);
    let s4 = clone_to_lifetime(d, name, fallback, span);
    let s5 = arc_to_rc(d, name, shared, span);
    let s6 = box_to_plain(d, name, shared, span);
    assert(patterns_for(kir, d) == s1 + s2 + s3 + s4 + s5 + s6);
    lemma_concat_contains(s1 + s2 + s3 + s4 + s5, s6, p);
    if (s1 + s2 + s3 + s4 + s5).contains(p) {
        lemma_concat_contains(s1 + s2 + s3 + s4, s5, p);
        if (s1 + s2 + s3 + s4).contains(p) {
            lemma_concat_contains(s1 + s2 + s3, s4, p);
            if (s1 + s2 + s3).contains(p) {
                lemma_concat_contains(s1 + s2, s3, p);
                if (s1 + s2).contains(p) {
                    lemma_concat_contains(s1, s2, p);
                }
            }
        }
    }
}

/// Over all decisions: every pattern turning an Arc into an Rc comes from a
/// decision for an Arc binding that need not be Send, and every pattern
/// turning an Rc into an Arc from one for an Rc binding that must be Send.
pub proof fn lemma_send_patterns(kir: Kir, decisions: Seq<TierDecision>, n: int, p: MigrationPatternView)
    requires
        patterns_upto(kir, decisions, n).contains(p),
    ensures
        p.current_tier == OwnershipTier::ArcShared && p.suggested_tier == OwnershipTier::RcShared ==>
            exists|k: int| 0 <= k < n && (#[trigger] decisions[k]).tier == OwnershipTier::ArcShared
                && (decision_facts(kir, decisions[k]) matches Some(f) && !f.shared_facts.needs_send
                && p.binding_name == f.binding_name@),
        p.current_tier == OwnershipTier::RcShared && p.suggested_tier == OwnershipTier::ArcShared ==>
            exists|k: int| 0 <= k < n && (#[trigger] decisions[k]).tier == OwnershipTier::RcShared
                && (decision_facts(kir, decisions[k]) matches Some(f) && f.shared_facts.needs_send
                && p.binding_name == f.binding_name@),
    decreases n,
{
    if n > 0 {
        lemma_concat_contains(patterns_upto(kir, decisions, n - 1), patterns_for(kir, decisions[n - 1]), p);
        if patterns_upto(kir, decisions, n - 1).contains(p) {
            lemma_send_patterns(kir, decisions, n - 1, p);
        } else {
            lemma_decision_send_patterns(kir, decisions[n - 1], p);
        }
    }
}

/// The position of the first node with id `id`.
pub fn find_node(nodes: &[KirNode], id: u32) -> (r: Option<usize>)
    ensures
        match r {
            Some(i) => node_for(nodes@, id) == Some(i as int) && i < nodes@.len(),
            None => node_for(nodes@, id) is None,
        },
{
    let mut i: usize = 0;
    while i < nodes.len()
        invariant
            i <= nodes@.len(),
            forall|j: int| 0 <= j < i ==> (#[trigger] nodes@[j]).id != id,
        decreases nodes@.len() - i,
    {
        if nodes[i].id == id {
            proof {
                let w = node_for(nodes@, id)->0;
                assert(nodes@[i as int].id == id);
                if w < i {
                } else if w > i {
                }
            }
            return Some(i);
        }
        i = i + 1;
    }
    None
}

fn push_suggestion(out: &mut Vec<MigrationPattern>, name: &str, binding: &String, current: OwnershipTier, suggested: OwnershipTier, explanation: &str, risk: PatternRisk, span: KoboSpan)
    ensures
        pattern_views(final(out)@) == pattern_views(old(out)@).push(suggestion(name@, binding@, current, suggested, explanation@, risk, span)),
{
    let ghost before = out@;
    out.push(MigrationPattern {
        name: owned(name),
        binding_name: binding.clone(),
        current_tier: current,
        suggested_tier: suggested,
        explanation: owned(explanation),
        risk,
        span,
    });
    proof {
        assert(pattern_views(out@) =~= pattern_views(before).push(out@.last()@));
    }
}

#[verifier::spinoff_prover]
#[verifier::rlimit(50)]
fn patterns_of_decision(kir: &Kir, d: TierDecision, out: &mut Vec<MigrationPattern>)
    ensures
        pattern_views(final(out)@) == pattern_views(old(out)@) + patterns_for(*kir, d),
{
    let ghost start = pattern_views(out@);
    let n = match find_node(kir.nodes.as_slice(), d.node) {
        Some(n) => n,
        None => {
            proof {
                assert(pattern_views(out@) =~= start + Seq::<MigrationPatternView>::empty());
            }
            return;
        },
    };
    let node = kir.nodes[n];
    if node.kind != NodeKind::Decl {
        proof {
            assert(pattern_views(out@) =~= start + Seq::<MigrationPatternView>::empty());
        }
        return;
    }
    let b = find_binding(kir.bindings.as_slice(), d.node);
    let name = match b {
        Some(i) => kir.bindings[i].binding_name.clone(),
        None => {
            let mut text = owned("node_");
            push_decimal(&mut text, d.node as u64);
            text
        },
    };
    let (shared, elision, alias, fallback) = match b {
        Some(i) => (Some(kir.bindings[i].shared_facts), kir.bindings[i].has_clone_elision,
            kir.bindings[i].plain_clone_alias, kir.bindings[i].has_elision_fallback),
        None => (None, false, false, false),
    };
    let span = node.span;
    let ghost w1 = rc_to_arc(d, name@, shared, span);
    let ghost w2 = refcell_to_rwlock(d, name@, shared, span);
    let ghost w3 = clone_to_borrow(d, name@, elision, alias, span);
    let ghost w4 = clone_to_lifetime(d, name@, fallback, span);
    let ghost w5 = arc_to_rc(d, name@, shared, span);
    let ghost w6 = box_to_plain(d, name@, shared, span);
    proof {
        assert(patterns_for(*kir, d) == w1 + w2 + w3 + w4 + w5 + w6);
    }
    let ghost s0 = pattern_views(out@);
    match shared {
        Some(f) => if d.tier == OwnershipTier::RcShared && f.needs_send {
            push_suggestion(out, "Rc→Arc escalation", &name, OwnershipTier::RcShared, OwnershipTier::ArcShared,
                "Your binding crossed a spawn boundary — Rc is not Send", PatternRisk::Safe, span);
        },
        None => {},
    }
    let ghost s1 = pattern_views(out@);
    proof {
        assert(s1 =~= s0 + w1);
    }
    match shared {
        Some(f) => if d.tier == OwnershipTier::RcMutShared && f.needs_send {
            push_suggestion(out, "RefCell→RwLock", &name, OwnershipTier::RcMutShared, OwnershipTier::ArcMutShared,
                "Your binding is mutably shared in async context — RefCell is not Send", PatternRisk::MayChangeBehavior, span);
        },
        None => {},
    }
    let ghost s2 = pattern_views(out@);
    proof {
        assert(s2 =~= s1 + w2);
    }
    if elision && !alias {
        push_suggestion(out, "Clone elimination", &name, d.tier, d.tier,
            "This clone can be replaced with a borrow", PatternRisk::Safe, span);
    }
    let ghost s3 = pattern_views(out@);
    proof {
        assert(s3 =~= s2 + w3);
    }
    if fallback {
        push_suggestion(out, "Lifetime insertion", &name, d.tier, d.tier,
            "This clone can be replaced with &'a T", PatternRisk::MayChangeBehavior, span);
    }
    let ghost s4 = pattern_views(out@);
    proof {
        assert(s4 =~= s3 + w4);
    }
    match shared {
        Some(f) => if d.tier == OwnershipTier::ArcShared && !f.needs_send {
            push_suggestion(out, "Arc de-escalation", &name, OwnershipTier::ArcShared, OwnershipTier::RcShared,
                "This Arc is only used in single-threaded context — Rc is cheaper", PatternRisk::Safe, span);
        },
        None => {},
    }
    let ghost s5 = pattern_views(out@);
    proof {
        assert(s5 =~= s4 + w5);
    }
    match shared {
        Some(f) => if d.tier == OwnershipTier::BoxOwned && !f.has_escape && !f.needs_sharing {
            push_suggestion(out, "Box→PlainOwned", &name, OwnershipTier::BoxOwned, OwnershipTier::PlainOwned,
                "This Box is unnecessary; value fits on stack", PatternRisk::Safe, span);
        },
        None => {},
    }
    proof {
        let s6 = pattern_views(out@);
        assert(s6 =~= s5 + w6);
        assert(s6 =~= start + (w1 + w2 + w3 + w4 + w5 + w6));
    }
}

/// The migration patterns of every decision, in decision order.
pub fn detect_migration_patterns(kir: &Kir, decisions: &[TierDecision]) -> (patterns: Vec<MigrationPattern>)
    ensures
        pattern_views(patterns@) == patterns_upto(*kir, decisions@, decisions@.len() as int),
{
    let mut patterns: Vec<MigrationPattern> = Vec::new();
    let mut i: usize = 0;
    proof {
        assert(pattern_views(patterns@) =~= Seq::<MigrationPatternView>::empty());
    }
    while i < decisions.len()
        invariant
            i <= decisions@.len(),
            pattern_views(patterns@) == patterns_upto(*kir, decisions@, i as int),
        decreases decisions@.len() - i,
    {
        patterns_of_decision(kir, decisions[i], &mut patterns);
        i = i + 1;
    }
    patterns
}

/// The name `{:?}` gives an ownership tier.
pub open spec fn tier_name(tier: OwnershipTier) -> Seq<char> {
    match tier {
        OwnershipTier::PlainOwned => "PlainOwned"@,
        OwnershipTier::BoxOwned => "BoxOwned"@,
        OwnershipTier::RcShared => "RcShared"@,
        OwnershipTier::RcMutShared => "RcMutShared"@,
        OwnershipTier::ArcShared => "ArcShared"@,
        OwnershipTier::ArcMutShared => "ArcMutShared"@,
        OwnershipTier::Scoped => "Scoped"@,
        OwnershipTier::Undecided => "Undecided"@,
    }
}

/// The name of an ownership tier.
pub fn tier_label(tier: OwnershipTier) -> (r: &'static str)
    ensures
        r@ == tier_name(tier),
{
    proof {
        reveal_strlit("PlainOwned");
        reveal_strlit("BoxOwned");
        reveal_strlit("RcShared");
        reveal_strlit("RcMutShared");
        reveal_strlit("ArcShared");
        reveal_strlit("ArcMutShared");
        reveal_strlit("Scoped");
        reveal_strlit("Undecided");
    }
    match tier {
        OwnershipTier::PlainOwned => "PlainOwned",
        OwnershipTier::BoxOwned => "BoxOwned",
        OwnershipTier::RcShared => "RcShared",
        OwnershipTier::RcMutShared => "RcMutShared",
        OwnershipTier::ArcShared => "ArcShared",
        OwnershipTier::ArcMutShared => "ArcMutShared",
        OwnershipTier::Scoped => "Scoped",
        OwnershipTier::Undecided => "Undecided",
    }
}

/// How a risk is labelled.
pub open spec fn risk_label(risk: PatternRisk) -> Seq<char> {
    match risk {
        PatternRisk::Safe => "safe"@,
        PatternRisk::MayChangeBehavior => "needs review"@,
    }
}

/// The entry of the `i`-th pattern (counted from zero).
pub open spec fn pattern_entry(i: int, p: MigrationPatternView) -> Seq<char> {
    "  "@ + decimal_text((i + 1) as nat) + ". ["@ + p.name + "] '"@ + p.binding_name + "': "@
        + tier_name(p.current_tier) + " → "@ + tier_name(p.suggested_tier) + "\n     "@ + p.explanation
        + " ("@ + risk_label(p.risk) + ")\n\n"@
}

/// The entries of the first `n` patterns, in order.
pub open spec fn pattern_entries(ps: Seq<MigrationPatternView>, n: int) -> Seq<char>
    decreases n,
{
    if n <= 0 {
        Seq::empty()
    } else {
        pattern_entries(ps, n - 1) + pattern_entry(n - 1, ps[n - 1])
    }
}

/// The listing of migration patterns a reader sees.
pub open spec fn patterns_text(ps: Seq<MigrationPatternView>) -> Seq<char> {
    if ps.len() == 0 {
        "No migration patterns detected."@
    } else {
        decimal_text(ps.len()) + " migration pattern(s) detected:\n\n"@ + pattern_entries(ps, ps.len() as int)
    }
}

fn push_entry(out: &mut String, i: usize, p: &MigrationPattern)
    requires
        i < u64::MAX,
    ensures
        final(out)@ == old(out)@ + pattern_entry(i as int, p@),
{
    let ghost before = out@;
    out.append("  ");
    push_decimal(out, i as u64 + 1);
    out.append(". [");
    out.append(p.name.as_str());
    out.append("] '");
    out.append(p.binding_name.as_str());
    out.append("': ");
    let ghost mid = out@;
    out.append(tier_label(p.current_tier));
    out.append(" → ");
    out.append(tier_label(p.suggested_tier));
    out.append("\n     ");
    out.append(p.explanation.as_str());
    out.append(" (");
    match p.risk {
        PatternRisk::Safe => out.append("safe"),
        PatternRisk::MayChangeBehavior => out.append("needs review"),
    }
    out.append(")\n\n");
    proof {
        assert(mid =~= before + "  "@ + decimal_text((i + 1) as nat) + ". ["@ + p.name@ + "] '"@ + p.binding_name@ + "': "@);
        assert(out@ =~= before + pattern_entry(i as int, p@));
    }
}

/// Lists migration patterns for a reader.
pub fn format_patterns(patterns: &[MigrationPattern]) -> (out: String)
    requires
        patterns@.len() < u64::MAX,
    ensures
        out@ == patterns_text(pattern_views(patterns@)),
{
    if patterns.len() == 0 {
        return owned("No migration patterns detected.");
    }
    let ghost ps = pattern_views(patterns@);
    let mut out = String::new();
    push_decimal(&mut out, patterns.len() as u64);
    out.append(" migration pattern(s) detected:\n\n");
    let ghost head = out@;
    let mut i: usize = 0;
    while i < patterns.len()
        invariant
            i <= patterns@.len(),
            patterns@.len() < u64::MAX,
            ps == pattern_views(patterns@),
            out@ == head + pattern_entries(ps, i as int),
        decreases patterns@.len() - i,
    {
        push_entry(&mut out, i, &patterns[i]);
        proof {
            assert(ps[i as int] == patterns@[i as int]@);
        }
        i = i + 1;
    }
    out
}

} // verus!
