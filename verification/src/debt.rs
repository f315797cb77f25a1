//! Ownership debt: the declarations of the lowered program by ownership tier,
//! how hard each shared-mutable site is to migrate, and the structural
//! warnings raised early about it.
use vstd::prelude::*;
use crate::config::{clone_opt_string, owned};
use crate::scenario::KoboSpan;
use crate::strings::{decimal_text, push_decimal};
use crate::text::str_equals;

verus! {

/// How a lowered binding owns its value.
#[derive(Clone, Copy, Debug, PartialEq, Eq, Structural)]
pub enum OwnershipTier {
    PlainOwned,
    BoxOwned,
    RcShared,
    RcMutShared,
    ArcShared,
    ArcMutShared,
    Scoped,
    Undecided,
}

/// The kind of a lowered node, as far as debt reporting tells them apart.
#[derive(Clone, Copy, Debug, PartialEq, Eq, Structural)]
pub enum NodeKind {
    Decl,
    Other,
}

/// A node of the lowered program.
#[derive(Clone, Copy, Debug, PartialEq, Eq, Structural)]
pub struct KirNode {
    pub id: u32,
    pub kind: NodeKind,
    pub ownership: OwnershipTier,
    pub span: KoboSpan,
}

/// What the transform learned about how a binding is shared.
#[derive(Clone, Copy, Debug, PartialEq, Eq, Structural)]
pub struct SharedBindingFacts {
    pub mutable_sites: usize,
    pub has_escape: bool,
    pub needs_sharing: bool,
    pub needs_send: bool,
    pub live_borrow_at_move: bool,
    /// The binding escapes in a way the ownership solver cannot resolve.
    pub unsolvable_escape: bool,
}

/// What the transform learned about one binding.
#[derive(Debug)]
pub struct TransformBindingFacts {
    pub node: u32,
    pub binding_name: String,
    pub shared_facts: SharedBindingFacts,
    /// A clone of this binding can be elided.
    pub has_clone_elision: bool,
    /// Eliding the clone falls back to a lifetime parameter.
    pub has_elision_fallback: bool,
    pub plain_clone_alias: bool,
}

/// A structural pattern that makes shared mutable state hard to migrate.
#[derive(Debug)]
pub enum WarnEarlyPattern {
    /// Two structs hold Rc links to each other through these field pairs.
    BidirectionalRcLinks { struct_name: String, field_pairs: Vec<(String, String)> },
    /// A tree whose children point back to their parent.
    ParentChildBackPointer { struct_name: String, children_field: String, parent_field: String },
    /// One binding mutated from three or more call sites.
    SharedMutableAt3PlusSites { binding_id: u32, site_count: usize },
    /// A struct that contains itself without indirection.
    SelfReferentialStruct { struct_name: String },
}

/// A structural pattern, as text.
pub enum PatternView {
    BidirectionalRcLinks { struct_name: Seq<char>, field_pairs: Seq<(Seq<char>, Seq<char>)> },
    ParentChildBackPointer { struct_name: Seq<char>, children_field: Seq<char>, parent_field: Seq<char> },
    SharedMutableAt3PlusSites { binding_id: u32, site_count: usize },
    SelfReferentialStruct { struct_name: Seq<char> },
}

/// The texts of a list of string pairs.
pub open spec fn pair_texts(pairs: Seq<(String, String)>) -> Seq<(Seq<char>, Seq<char>)> {
    pairs.map_values(|p: (String, String)| (p.0@, p.1@))
}

impl View for WarnEarlyPattern {
    type V = PatternView;

    open spec fn view(&self) -> PatternView {
        match self {
            WarnEarlyPattern::BidirectionalRcLinks { struct_name, field_pairs } =>
                PatternView::BidirectionalRcLinks { struct_name: struct_name@, field_pairs: pair_texts(field_pairs@) },
            WarnEarlyPattern::ParentChildBackPointer { struct_name, children_field, parent_field } =>
                PatternView::ParentChildBackPointer {
                    struct_name: struct_name@,
                    children_field: children_field@,
                    parent_field: parent_field@,
                },
            WarnEarlyPattern::SharedMutableAt3PlusSites { binding_id, site_count } =>
                PatternView::SharedMutableAt3PlusSites { binding_id: *binding_id, site_count: *site_count },
            WarnEarlyPattern::SelfReferentialStruct { struct_name } =>
                PatternView::SelfReferentialStruct { struct_name: struct_name@ },
        }
    }
}

/// A structural warning about one node.
#[derive(Debug)]
pub struct WarnEarlyFact {
    pub node_id: u32,
    pub span: KoboSpan,
    pub pattern: WarnEarlyPattern,
    pub suppressed: bool,
    pub known_debt_reason: Option<String>,
    pub struct_name: String,
}

/// A structural warning, as text.
pub struct FactView {
    pub node_id: u32,
    pub span: KoboSpan,
    pub pattern: PatternView,
    pub suppressed: bool,
    pub known_debt_reason: Option<Seq<char>>,
    pub struct_name: Seq<char>,
}

impl View for WarnEarlyFact {
    type V = FactView;

    open spec fn view(&self) -> FactView {
        FactView {
            node_id: self.node_id,
            span: self.span,
            pattern: self.pattern@,
            suppressed: self.suppressed,
            known_debt_reason: match self.known_debt_reason {
                Some(r) => Some(r@),
                None => None,
            },
            struct_name: self.struct_name@,
        }
    }
}

/// The texts of a list of warnings.
pub open spec fn fact_views(facts: Seq<WarnEarlyFact>) -> Seq<FactView> {
    facts.map_values(|f: WarnEarlyFact| f@)
}

/// The lowered program, as far as debt reporting reads it.
#[derive(Debug)]
pub struct Kir {
    pub nodes: Vec<KirNode>,
    pub bindings: Vec<TransformBindingFacts>,
    pub warn_early_facts: Vec<WarnEarlyFact>,
}

/// How hard a shared-mutable site is to migrate.
#[derive(Clone, Copy, Debug, PartialEq, Eq, Structural)]
pub enum DebtComplexityTier {
    Tier1,
    Tier2,
    Tier3,
}

/// The pattern names a self-referential struct.
pub open spec fn is_self_referential(p: WarnEarlyPattern) -> bool {
    p is SelfReferentialStruct
}

/// The pattern is one of the link, back-pointer and many-site patterns.
pub open spec fn is_linking(p: WarnEarlyPattern) -> bool {
    p is BidirectionalRcLinks || p is ParentChildBackPointer || p is SharedMutableAt3PlusSites
}

/// The position of the first binding fact of node `node`.
pub open spec fn binding_for(bindings: Seq<TransformBindingFacts>, node: u32) -> Option<int> {
    if exists|i: int| 0 <= i < bindings.len() && (#[trigger] bindings[i]).node == node {
        Some(choose|i: int| 0 <= i < bindings.len() && (#[trigger] bindings[i]).node == node
            && forall|j: int| 0 <= j < i ==> (#[trigger] bindings[j]).node != node)
    } else {
        None
    }
}

/// How hard the site at node `site` is to migrate: a self-referential struct
/// warning, or an unsolvable escape in the site's binding facts, makes it
/// tier 3; a link, back-pointer or many-site warning, or a
/// binding mutated from two or more places, tier 2; anything else tier 1.
/// Suppressed warnings do not count.
pub open spec fn site_tier(site: u32, bindings: Seq<TransformBindingFacts>, facts: Seq<WarnEarlyFact>) -> DebtComplexityTier {
    if exists|i: int| 0 <= i < facts.len() && (#[trigger] facts[i]).node_id == site && !facts[i].suppressed
        && is_self_referential(facts[i].pattern) {
        DebtComplexityTier::Tier3
    } else if binding_for(bindings, site) matches Some(b) && bindings[b].shared_facts.unsolvable_escape {
        DebtComplexityTier::Tier3
    } else if exists|i: int| 0 <= i < facts.len() && (#[trigger] facts[i]).node_id == site && !facts[i].suppressed
        && is_linking(facts[i].pattern) {
        DebtComplexityTier::Tier2
    } else if binding_for(bindings, site) matches Some(b) && bindings[b].shared_facts.mutable_sites >= 2 {
        DebtComplexityTier::Tier2
    } else {
        DebtComplexityTier::Tier1
    }
}

/// The first binding fact of node `node`.
pub fn find_binding(bindings: &[TransformBindingFacts], node: u32) -> (r: Option<usize>)
    ensures
        match r {
            Some(i) => binding_for(bindings@, node) == Some(i as int) && i < bindings@.len(),
            None => binding_for(bindings@, node) is None,
        },
{
    let mut i: usize = 0;
    while i < bindings.len()
        invariant
            i <= bindings@.len(),
            forall|j: int| 0 <= j < i ==> (#[trigger] bindings@[j]).node != node,
        decreases bindings@.len() - i,
    {
        if bindings[i].node == node {
            proof {
                let w = binding_for(bindings@, node)->0;
                assert(bindings@[i as int].node == node);
                if w < i {
                } else if w > i {
                }
            }
            return Some(i);
        }
        i = i + 1;
    }
    None
}

/// How hard the shared-mutable site at node `site` is to migrate.
pub fn classify_site(site: u32, kir: &Kir, warn_facts: &[WarnEarlyFact]) -> (tier: DebtComplexityTier)
    ensures
        tier == site_tier(site, kir.bindings@, warn_facts@),
{
    let mut i: usize = 0;
    while i < warn_facts.len()
        invariant
            i <= warn_facts@.len(),
            forall|j: int| 0 <= j < i ==> !((#[trigger] warn_facts@[j]).node_id == site && !warn_facts@[j].suppressed
                && is_self_referential(warn_facts@[j].pattern)),
        decreases warn_facts@.len() - i,
    {
        let fact = &warn_facts[i];
        if fact.node_id == site && !fact.suppressed {
            if let WarnEarlyPattern::SelfReferentialStruct { .. } = &fact.pattern {
                return DebtComplexityTier::Tier3;
            }
        }
        i = i + 1;
    }
    let binding = find_binding(kir.bindings.as_slice(), site);
    match binding {
        Some(b) => if kir.bindings[b].shared_facts.unsolvable_escape {
            return DebtComplexityTier::Tier3;
        },
        None => {},
    }
    let mut i: usize = 0;
    while i < warn_facts.len()
        invariant
            i <= warn_facts@.len(),
            forall|j: int| 0 <= j < warn_facts@.len() ==> !((#[trigger] warn_facts@[j]).node_id == site && !warn_facts@[j].suppressed
                && is_self_referential(warn_facts@[j].pattern)),
            !(binding_for(kir.bindings@, site) matches Some(b) && kir.bindings@[b].shared_facts.unsolvable_escape),
            forall|j: int| 0 <= j < i ==> !((#[trigger] warn_facts@[j]).node_id == site && !warn_facts@[j].suppressed
                && is_linking(warn_facts@[j].pattern)),
        decreases warn_facts@.len() - i,
    {
        let fact = &warn_facts[i];
        if fact.node_id == site && !fact.suppressed {
            match &fact.pattern {
                WarnEarlyPattern::BidirectionalRcLinks { .. } | WarnEarlyPattern::ParentChildBackPointer { .. }
                | WarnEarlyPattern::SharedMutableAt3PlusSites { .. } => {
                    return DebtComplexityTier::Tier2;
                },
                _ => {},
            }
        }
        i = i + 1;
    }
    match binding {
        Some(b) => if kir.bindings[b].shared_facts.mutable_sites >= 2 {
            return DebtComplexityTier::Tier2;
        },
        None => {},
    }
    DebtComplexityTier::Tier1
}

/// How many declarations hold each wrapper.
#[derive(Clone, Copy, Debug, PartialEq, Eq, Structural)]
pub struct WrapperInventory {
    pub plain_owned: usize,
    pub box_owned: usize,
    pub rc_shared: usize,
    pub arc_shared: usize,
    pub rc_mut_shared: usize,
}

/// How many shared-mutable sites fall in each complexity tier.
#[derive(Clone, Copy, Debug, PartialEq, Eq, Structural)]
pub struct ComplexityBreakdown {
    pub tier1: usize,
    pub tier2: usize,
    pub tier3: usize,
}

/// One shared-mutable site of the report.
#[derive(Debug)]
pub struct DebtSiteRecord {
    pub node_id: u32,
    pub span: KoboSpan,
    pub tier: OwnershipTier,
    pub complexity_estimate: DebtComplexityTier,
    pub warn_early: Vec<WarnEarlyPattern>,
    pub suppressed: bool,
    pub binding_name: String,
}

/// A structural warning that a `known_debt` annotation acknowledges.
#[derive(Debug)]
pub struct AcknowledgedDebtRecord {
    pub node_id: u32,
    pub span: KoboSpan,
    pub reason: String,
    pub pattern: WarnEarlyPattern,
    pub struct_name: String,
}

/// The ownership debt of a lowered program.
#[derive(Debug)]
pub struct DebtReport {
    pub schema_version: u32,
    pub file_count: usize,
    pub line_count: usize,
    pub inventory: WrapperInventory,
    pub sites: Vec<DebtSiteRecord>,
    pub complexity: ComplexityBreakdown,
    pub warn_early: Vec<WarnEarlyFact>,
    pub acknowledged: Vec<AcknowledgedDebtRecord>,
}

impl DebtReport {
    /// An empty report of schema version 1.
    pub fn new() -> (r: Self)
        ensures
            r.schema_version == 1,
            r.file_count == 0,
            r.line_count == 0,
            r.inventory == (WrapperInventory { plain_owned: 0, box_owned: 0, rc_shared: 0, arc_shared: 0, rc_mut_shared: 0 }),
            r.sites@.len() == 0,
            r.complexity == (ComplexityBreakdown { tier1: 0, tier2: 0, tier3: 0 }),
            r.warn_early@.len() == 0,
            r.acknowledged@.len() == 0,
    {
        DebtReport {
            schema_version: 1,
            file_count: 0,
            line_count: 0,
            inventory: WrapperInventory { plain_owned: 0, box_owned: 0, rc_shared: 0, arc_shared: 0, rc_mut_shared: 0 },
            sites: Vec::new(),
            complexity: ComplexityBreakdown { tier1: 0, tier2: 0, tier3: 0 },
            warn_early: Vec::new(),
            acknowledged: Vec::new(),
        }
    }
}

/// A copy of a pattern.
pub fn clone_pattern(p: &WarnEarlyPattern) -> (r: WarnEarlyPattern)
    ensures
        r@ == p@,
{
    match p {
        WarnEarlyPattern::BidirectionalRcLinks { struct_name, field_pairs } => {
            let mut pairs: Vec<(String, String)> = Vec::new();
            let mut i: usize = 0;
            while i < field_pairs.len()
                invariant
                    i <= field_pairs@.len(),
                    pair_texts(pairs@) == pair_texts(field_pairs@.take(i as int)),
                decreases field_pairs@.len() - i,
            {
                let (a, b) = &field_pairs[i];
                let ghost before = pairs@;
                pairs.push((a.clone(), b.clone()));
                proof {
                    assert(pair_texts(pairs@) =~= pair_texts(before).push((a@, b@)));
                    assert(pair_texts(field_pairs@.take(i + 1)) =~= pair_texts(field_pairs@.take(i as int)).push((a@, b@)));
                }
                i = i + 1;
            }
            proof {
                assert(field_pairs@.take(i as int) =~= field_pairs@);
            }
            WarnEarlyPattern::BidirectionalRcLinks { struct_name: struct_name.clone(), field_pairs: pairs }
        },
        WarnEarlyPattern::ParentChildBackPointer { struct_name, children_field, parent_field } => {
            WarnEarlyPattern::ParentChildBackPointer {
                struct_name: struct_name.clone(),
                children_field: children_field.clone(),
                parent_field: parent_field.clone(),
            }
        },
        WarnEarlyPattern::SharedMutableAt3PlusSites { binding_id, site_count } => {
            WarnEarlyPattern::SharedMutableAt3PlusSites { binding_id: *binding_id, site_count: *site_count }
        },
        WarnEarlyPattern::SelfReferentialStruct { struct_name } => {
            WarnEarlyPattern::SelfReferentialStruct { struct_name: struct_name.clone() }
        },
    }
}

/// A copy of a warning.
pub fn clone_fact(f: &WarnEarlyFact) -> (r: WarnEarlyFact)
    ensures
        r@ == f@,
{
    WarnEarlyFact {
        node_id: f.node_id,
        span: f.span,
        pattern: clone_pattern(&f.pattern),
        suppressed: f.suppressed,
        known_debt_reason: clone_opt_string(&f.known_debt_reason),
        struct_name: f.struct_name.clone(),
    }
}

/// A declaration node with ownership tier `tier`.
pub open spec fn decl_of(n: KirNode, tier: OwnershipTier) -> bool {
    n.kind == NodeKind::Decl && n.ownership == tier
}

/// The number of declarations with ownership tier `tier`.
pub open spec fn tier_count(nodes: Seq<KirNode>, tier: OwnershipTier) -> nat {
    nodes.filter(|n: KirNode| decl_of(n, tier)).len()
}

/// The shared-mutable declarations, in node order.
pub open spec fn rc_sites(nodes: Seq<KirNode>) -> Seq<KirNode> {
    nodes.filter(|n: KirNode| decl_of(n, OwnershipTier::RcMutShared))
}

/// The number of shared-mutable declarations whose site falls in `tier`.
pub open spec fn complexity_count(kir: Kir, tier: DebtComplexityTier) -> nat {
    rc_sites(kir.nodes@).filter(|n: KirNode| site_tier(n.id, kir.bindings@, kir.warn_early_facts@) == tier).len()
}

/// The name a site is reported under: its binding's name, else `_<id>`.
pub open spec fn site_name(bindings: Seq<TransformBindingFacts>, id: u32) -> Seq<char> {
    match binding_for(bindings, id) {
        Some(b) => bindings[b].binding_name@,
        None => "_"@ + decimal_text(id as nat),
    }
}

/// The active warnings of node `id`.
pub open spec fn active_of(facts: Seq<WarnEarlyFact>, id: u32) -> Seq<WarnEarlyFact> {
    facts.filter(|f: WarnEarlyFact| f.node_id == id && !f.suppressed)
}

/// `r` is the record of the shared-mutable site `n`.
pub open spec fn site_record_of(r: DebtSiteRecord, n: KirNode, kir: Kir) -> bool {
    &&& r.node_id == n.id
    &&& r.span == n.span
    &&& r.tier == n.ownership
    &&& r.complexity_estimate == site_tier(n.id, kir.bindings@, kir.warn_early_facts@)
    &&& r.warn_early@.map_values(|p: WarnEarlyPattern| p@) == active_of(kir.warn_early_facts@, n.id).map_values(|f: WarnEarlyFact| f.pattern@)
    &&& r.suppressed == exists|i: int| 0 <= i < kir.warn_early_facts@.len()
        && (#[trigger] kir.warn_early_facts@[i]).node_id == n.id && kir.warn_early_facts@[i].suppressed
    &&& r.binding_name@ == site_name(kir.bindings@, n.id)
}

/// `a` acknowledges the suppressed warning `f`.
pub open spec fn acknowledgement_of(a: AcknowledgedDebtRecord, f: WarnEarlyFact) -> bool {
    &&& a.node_id == f.node_id
    &&& a.span == f.span
    &&& a.reason@ == match f.known_debt_reason { Some(r) => r@, None => Seq::empty() }
    &&& a.pattern@ == f.pattern@
    &&& a.struct_name == f.struct_name
}

fn count_tiers(kir: &Kir) -> (inventory: WrapperInventory)
    ensures
        inventory.plain_owned == tier_count(kir.nodes@, OwnershipTier::PlainOwned),
        inventory.box_owned == tier_count(kir.nodes@, OwnershipTier::BoxOwned),
        inventory.rc_shared == tier_count(kir.nodes@, OwnershipTier::RcShared),
        inventory.arc_shared == tier_count(kir.nodes@, OwnershipTier::ArcShared),
        inventory.rc_mut_shared == tier_count(kir.nodes@, OwnershipTier::RcMutShared),
{
    let ghost nodes = kir.nodes@;
    let ghost p0 = |n: KirNode| decl_of(n, OwnershipTier::PlainOwned);
    let ghost p1 = |n: KirNode| decl_of(n, OwnershipTier::BoxOwned);
    let ghost p2 = |n: KirNode| decl_of(n, OwnershipTier::RcShared);
    let ghost p3 = |n: KirNode| decl_of(n, OwnershipTier::ArcShared);
    let ghost p4 = |n: KirNode| decl_of(n, OwnershipTier::RcMutShared);
    let mut inv = WrapperInventory { plain_owned: 0, box_owned: 0, rc_shared: 0, arc_shared: 0, rc_mut_shared: 0 };
    let mut i: usize = 0;
    proof {
        assert(nodes.take(0).filter(p0) =~= Seq::<KirNode>::empty());
        assert(nodes.take(0).filter(p1) =~= Seq::<KirNode>::empty());
        assert(nodes.take(0).filter(p2) =~= Seq::<KirNode>::empty());
        assert(nodes.take(0).filter(p3) =~= Seq::<KirNode>::empty());
        assert(nodes.take(0).filter(p4) =~= Seq::<KirNode>::empty());
    }
    while i < kir.nodes.len()
        invariant
            i <= nodes.len(),
            nodes == kir.nodes@,
            forall|n: KirNode| #[trigger] p0(n) == decl_of(n, OwnershipTier::PlainOwned),
            forall|n: KirNode| #[trigger] p1(n) == decl_of(n, OwnershipTier::BoxOwned),
            forall|n: KirNode| #[trigger] p2(n) == decl_of(n, OwnershipTier::RcShared),
            forall|n: KirNode| #[trigger] p3(n) == decl_of(n, OwnershipTier::ArcShared),
            forall|n: KirNode| #[trigger] p4(n) == decl_of(n, OwnershipTier::RcMutShared),
            inv.plain_owned == nodes.take(i as int).filter(p0).len(),
            inv.box_owned == nodes.take(i as int).filter(p1).len(),
            inv.rc_shared == nodes.take(i as int).filter(p2).len(),
            inv.arc_shared == nodes.take(i as int).filter(p3).len(),
            inv.rc_mut_shared == nodes.take(i as int).filter(p4).len(),
            inv.plain_owned <= i && inv.box_owned <= i && inv.rc_shared <= i && inv.arc_shared <= i && inv.rc_mut_shared <= i,
        decreases nodes.len() - i,
    {
        let node = kir.nodes[i];
        proof {
            assert(nodes.take(i + 1).drop_last() =~= nodes.take(i as int));
            assert(nodes.take(i as int).push(node) =~= nodes.take(i + 1));
            nodes.take(i as int).lemma_filter_push(node, p0);
            nodes.take(i as int).lemma_filter_push(node, p1);
            nodes.take(i as int).lemma_filter_push(node, p2);
            nodes.take(i as int).lemma_filter_push(node, p3);
            nodes.take(i as int).lemma_filter_push(node, p4);
        }
        if node.kind == NodeKind::Decl {
            match node.ownership {
                OwnershipTier::PlainOwned => inv.plain_owned = inv.plain_owned + 1,
                OwnershipTier::BoxOwned => inv.box_owned = inv.box_owned + 1,
                OwnershipTier::RcShared => inv.rc_shared = inv.rc_shared + 1,
                OwnershipTier::ArcShared => inv.arc_shared = inv.arc_shared + 1,
                OwnershipTier::RcMutShared => inv.rc_mut_shared = inv.rc_mut_shared + 1,
                _ => {},
            }
        }
        i = i + 1;
    }
    proof {
        assert(nodes.take(i as int) =~= nodes);
        assert(p0 =~= (|n: KirNode| decl_of(n, OwnershipTier::PlainOwned)));
        assert(p1 =~= (|n: KirNode| decl_of(n, OwnershipTier::BoxOwned)));
        assert(p2 =~= (|n: KirNode| decl_of(n, OwnershipTier::RcShared)));
        assert(p3 =~= (|n: KirNode| decl_of(n, OwnershipTier::ArcShared)));
        assert(p4 =~= (|n: KirNode| decl_of(n, OwnershipTier::RcMutShared)));
    }
    inv
}

/// The record of the shared-mutable site `node`.
fn site_record(node: KirNode, kir: &Kir) -> (r: DebtSiteRecord)
    ensures
        site_record_of(r, node, *kir),
{
    let tier = classify_site(node.id, kir, kir.warn_early_facts.as_slice());
    let facts = &kir.warn_early_facts;
    let ghost keep = |f: WarnEarlyFact| f.node_id == node.id && !f.suppressed;
    let mut patterns: Vec<WarnEarlyPattern> = Vec::new();
    let mut suppressed = false;
    let mut i: usize = 0;
    proof {
        assert(facts@.take(0).filter(keep).map_values(|f: WarnEarlyFact| f.pattern@) =~= Seq::<PatternView>::empty());
        assert(patterns@.map_values(|p: WarnEarlyPattern| p@) =~= Seq::<PatternView>::empty());
    }
    while i < facts.len()
        invariant
            i <= facts@.len(),
            forall|f: WarnEarlyFact| #[trigger] keep(f) == (f.node_id == node.id && !f.suppressed),
            patterns@.map_values(|p: WarnEarlyPattern| p@) == facts@.take(i as int).filter(keep).map_values(|f: WarnEarlyFact| f.pattern@),
            suppressed == exists|j: int| 0 <= j < i && (#[trigger] facts@[j]).node_id == node.id && facts@[j].suppressed,
        decreases facts@.len() - i,
    {
        let fact = &facts[i];
        proof {
            assert(facts@.take(i + 1).drop_last() =~= facts@.take(i as int));
            assert(facts@.take(i as int).push(*fact) =~= facts@.take(i + 1));
            facts@.take(i as int).lemma_filter_push(*fact, keep);
        }
        if fact.node_id == node.id && !fact.suppressed {
            let ghost before = patterns@;
            patterns.push(clone_pattern(&fact.pattern));
            proof {
                assert(patterns@.map_values(|p: WarnEarlyPattern| p@) =~= before.map_values(|p: WarnEarlyPattern| p@).push(fact.pattern@));
                assert(facts@.take(i + 1).filter(keep).map_values(|f: WarnEarlyFact| f.pattern@)
                    =~= facts@.take(i as int).filter(keep).map_values(|f: WarnEarlyFact| f.pattern@).push(fact.pattern@));
            }
        }
        if fact.node_id == node.id && fact.suppressed {
            suppressed = true;
        }
        i = i + 1;
    }
    proof {
        assert(facts@.take(i as int) =~= facts@);
        assert(keep =~= (|f: WarnEarlyFact| f.node_id == node.id && !f.suppressed));
    }
    let binding_name = match find_binding(kir.bindings.as_slice(), node.id) {
        Some(b) => kir.bindings[b].binding_name.clone(),
        None => {
            let mut name = owned("_");
            push_decimal(&mut name, node.id as u64);
            name
        },
    };
    DebtSiteRecord {
        node_id: node.id,
        span: node.span,
        tier: node.ownership,
        complexity_estimate: tier,
        warn_early: patterns,
        suppressed,
        binding_name,
    }
}

/// The ownership debt of `kir`: its declarations counted by wrapper, a
/// record of each shared-mutable site with its complexity, the active
/// structural warnings and the acknowledged ones. Every shared-mutable site
/// falls in exactly one complexity tier.
pub fn build_debt_report(kir: &Kir, file_count: usize, line_count: usize) -> (report: DebtReport)
    ensures
        report.schema_version == 1,
        report.file_count == file_count,
        report.line_count == line_count,
        report.inventory.plain_owned == tier_count(kir.nodes@, OwnershipTier::PlainOwned),
        report.inventory.box_owned == tier_count(kir.nodes@, OwnershipTier::BoxOwned),
        report.inventory.rc_shared == tier_count(kir.nodes@, OwnershipTier::RcShared),
        report.inventory.arc_shared == tier_count(kir.nodes@, OwnershipTier::ArcShared),
        report.inventory.rc_mut_shared == tier_count(kir.nodes@, OwnershipTier::RcMutShared),
        report.sites@.len() == rc_sites(kir.nodes@).len(),
        forall|k: int| 0 <= k < report.sites@.len() ==> site_record_of(#[trigger] report.sites@[k], rc_sites(kir.nodes@)[k], *kir),
        report.complexity.tier1 == complexity_count(*kir, DebtComplexityTier::Tier1),
        report.complexity.tier2 == complexity_count(*kir, DebtComplexityTier::Tier2),
        report.complexity.tier3 == complexity_count(*kir, DebtComplexityTier::Tier3),
        report.complexity.tier1 + report.complexity.tier2 + report.complexity.tier3 == report.inventory.rc_mut_shared,
        fact_views(report.warn_early@) == fact_views(kir.warn_early_facts@.filter(|f: WarnEarlyFact| !f.suppressed)),
        report.acknowledged@.len() == kir.warn_early_facts@.filter(|f: WarnEarlyFact| f.suppressed).len(),
        forall|k: int| 0 <= k < report.acknowledged@.len() ==> acknowledgement_of(#[trigger] report.acknowledged@[k],
            kir.warn_early_facts@.filter(|f: WarnEarlyFact| f.suppressed)[k]),
{
    let mut report = DebtReport::new();
    report.file_count = file_count;
    report.line_count = line_count;
    report.inventory = count_tiers(kir);
    let ghost nodes = kir.nodes@;
    let ghost rc = |n: KirNode| decl_of(n, OwnershipTier::RcMutShared);
    let ghost t1 = |n: KirNode| site_tier(n.id, kir.bindings@, kir.warn_early_facts@) == DebtComplexityTier::Tier1;
    let ghost t2 = |n: KirNode| site_tier(n.id, kir.bindings@, kir.warn_early_facts@) == DebtComplexityTier::Tier2;
    let ghost t3 = |n: KirNode| site_tier(n.id, kir.bindings@, kir.warn_early_facts@) == DebtComplexityTier::Tier3;
    let mut sites: Vec<DebtSiteRecord> = Vec::new();
    let mut complexity = ComplexityBreakdown { tier1: 0, tier2: 0, tier3: 0 };
    let mut i: usize = 0;
    proof {
        assert(nodes.take(0).filter(rc) =~= Seq::<KirNode>::empty());
        assert(Seq::<KirNode>::empty().filter(t1) =~= Seq::<KirNode>::empty());
        assert(Seq::<KirNode>::empty().filter(t2) =~= Seq::<KirNode>::empty());
        assert(Seq::<KirNode>::empty().filter(t3) =~= Seq::<KirNode>::empty());
    }
    while i < kir.nodes.len()
        invariant
            i <= nodes.len(),
            nodes == kir.nodes@,
            forall|n: KirNode| #[trigger] rc(n) == decl_of(n, OwnershipTier::RcMutShared),
            forall|n: KirNode| #[trigger] t1(n) == (site_tier(n.id, kir.bindings@, kir.warn_early_facts@) == DebtComplexityTier::Tier1),
            forall|n: KirNode| #[trigger] t2(n) == (site_tier(n.id, kir.bindings@, kir.warn_early_facts@) == DebtComplexityTier::Tier2),
            forall|n: KirNode| #[trigger] t3(n) == (site_tier(n.id, kir.bindings@, kir.warn_early_facts@) == DebtComplexityTier::Tier3),
            sites@.len() == nodes.take(i as int).filter(rc).len(),
            forall|k: int| 0 <= k < sites@.len() ==> site_record_of(#[trigger] sites@[k], nodes.take(i as int).filter(rc)[k], *kir),
            complexity.tier1 == nodes.take(i as int).filter(rc).filter(t1).len(),
            complexity.tier2 == nodes.take(i as int).filter(rc).filter(t2).len(),
            complexity.tier3 == nodes.take(i as int).filter(rc).filter(t3).len(),
            complexity.tier1 + complexity.tier2 + complexity.tier3 == sites@.len(),
            sites@.len() <= i,
        decreases nodes.len() - i,
    {
        let node = kir.nodes[i];
        let ghost prefix = nodes.take(i as int).filter(rc);
        proof {
            assert(nodes.take(i + 1).drop_last() =~= nodes.take(i as int));
            assert(nodes.take(i as int).push(node) =~= nodes.take(i + 1));
            nodes.take(i as int).lemma_filter_push(node, rc);
        }
        if node.kind == NodeKind::Decl && node.ownership == OwnershipTier::RcMutShared {
            let record = site_record(node, kir);
            proof {
                prefix.lemma_filter_push(node, t1);
                prefix.lemma_filter_push(node, t2);
                prefix.lemma_filter_push(node, t3);
            }
            match record.complexity_estimate {
                DebtComplexityTier::Tier1 => complexity.tier1 = complexity.tier1 + 1,
                DebtComplexityTier::Tier2 => complexity.tier2 = complexity.tier2 + 1,
                DebtComplexityTier::Tier3 => complexity.tier3 = complexity.tier3 + 1,
            }
            sites.push(record);
            proof {
                assert forall|k: int| 0 <= k < sites@.len() implies site_record_of(#[trigger] sites@[k], nodes.take(i + 1).filter(rc)[k], *kir) by {
                    if k < prefix.len() {
                        assert(nodes.take(i + 1).filter(rc)[k] == prefix[k]);
                    }
                }
            }
        }
        i = i + 1;
    }
    proof {
        assert(nodes.take(i as int) =~= nodes);
        assert(rc =~= (|n: KirNode| decl_of(n, OwnershipTier::RcMutShared)));
        assert(t1 =~= (|n: KirNode| site_tier(n.id, kir.bindings@, kir.warn_early_facts@) == DebtComplexityTier::Tier1));
        assert(t2 =~= (|n: KirNode| site_tier(n.id, kir.bindings@, kir.warn_early_facts@) == DebtComplexityTier::Tier2));
        assert(t3 =~= (|n: KirNode| site_tier(n.id, kir.bindings@, kir.warn_early_facts@) == DebtComplexityTier::Tier3));
    }
    report.sites = sites;
    report.complexity = complexity;
    let facts = &kir.warn_early_facts;
    let ghost active = |f: WarnEarlyFact| !f.suppressed;
    let ghost quiet = |f: WarnEarlyFact| f.suppressed;
    let mut warn: Vec<WarnEarlyFact> = Vec::new();
    let mut acknowledged: Vec<AcknowledgedDebtRecord> = Vec::new();
    let mut j: usize = 0;
    proof {
        assert(facts@.take(0).filter(active) =~= Seq::<WarnEarlyFact>::empty());
        assert(facts@.take(0).filter(quiet) =~= Seq::<WarnEarlyFact>::empty());
    }
    while j < facts.len()
        invariant
            j <= facts@.len(),
            forall|f: WarnEarlyFact| #[trigger] active(f) == !f.suppressed,
            forall|f: WarnEarlyFact| #[trigger] quiet(f) == f.suppressed,
            fact_views(warn@) == fact_views(facts@.take(j as int).filter(active)),
            acknowledged@.len() == facts@.take(j as int).filter(quiet).len(),
            forall|k: int| 0 <= k < acknowledged@.len() ==> acknowledgement_of(#[trigger] acknowledged@[k], facts@.take(j as int).filter(quiet)[k]),
        decreases facts@.len() - j,
    {
        let fact = &facts[j];
        let ghost before = facts@.take(j as int).filter(quiet);
        proof {
            assert(facts@.take(j + 1).drop_last() =~= facts@.take(j as int));
            assert(facts@.take(j as int).push(*fact) =~= facts@.take(j + 1));
            facts@.take(j as int).lemma_filter_push(*fact, active);
            facts@.take(j as int).lemma_filter_push(*fact, quiet);
        }
        if fact.suppressed {
            let reason = match &fact.known_debt_reason {
                Some(r) => r.clone(),
                None => String::new(),
            };
            acknowledged.push(AcknowledgedDebtRecord {
                node_id: fact.node_id,
                span: fact.span,
                reason,
                pattern: clone_pattern(&fact.pattern),
                struct_name: fact.struct_name.clone(),
            });
            proof {
                assert forall|k: int| 0 <= k < acknowledged@.len() implies acknowledgement_of(#[trigger] acknowledged@[k], facts@.take(j + 1).filter(quiet)[k]) by {
                    if k < before.len() {
                        assert(facts@.take(j + 1).filter(quiet)[k] == before[k]);
                    }
                }
            }
        } else {
            let ghost wbefore = warn@;
            warn.push(clone_fact(fact));
            proof {
                assert(fact_views(warn@) =~= fact_views(wbefore).push(fact@));
                assert(fact_views(facts@.take(j + 1).filter(active)) =~= fact_views(facts@.take(j as int).filter(active)).push(fact@));
            }
        }
        j = j + 1;
    }
    proof {
        assert(facts@.take(j as int) =~= facts@);
        assert(active =~= (|f: WarnEarlyFact| !f.suppressed));
        assert(quiet =~= (|f: WarnEarlyFact| f.suppressed));
    }
    report.warn_early = warn;
    report.acknowledged = acknowledged;
    report
}

/// Structural warnings by pattern; suppressed ones are acknowledged.
#[derive(Debug)]
pub struct GroupedWarnings {
    pub bidirectional: Vec<WarnEarlyFact>,
    pub parent_child: Vec<WarnEarlyFact>,
    pub shared_mutable: Vec<WarnEarlyFact>,
    pub self_referential: Vec<WarnEarlyFact>,
    pub acknowledged: Vec<WarnEarlyFact>,
}

/// An active warning of the bidirectional-link pattern.
pub open spec fn active_links(v: FactView) -> bool {
    !v.suppressed && v.pattern is BidirectionalRcLinks
}

/// An active warning of the back-pointer pattern.
pub open spec fn active_back_pointer(v: FactView) -> bool {
    !v.suppressed && v.pattern is ParentChildBackPointer
}

/// An active warning of the many-site pattern.
pub open spec fn active_many_sites(v: FactView) -> bool {
    !v.suppressed && v.pattern is SharedMutableAt3PlusSites
}

/// An active warning of the self-reference pattern.
pub open spec fn active_self_reference(v: FactView) -> bool {
    !v.suppressed && v.pattern is SelfReferentialStruct
}

/// A suppressed warning.
pub open spec fn acknowledged_fact(v: FactView) -> bool {
    v.suppressed
}

/// Sorts warnings into their pattern's group, in order; suppressed warnings
/// go to the acknowledged group whatever their pattern.
pub fn group_by_pattern(facts: &[WarnEarlyFact]) -> (grouped: GroupedWarnings)
    ensures
        fact_views(grouped.bidirectional@) == fact_views(facts@).filter(|v: FactView| active_links(v)),
        fact_views(grouped.parent_child@) == fact_views(facts@).filter(|v: FactView| active_back_pointer(v)),
        fact_views(grouped.shared_mutable@) == fact_views(facts@).filter(|v: FactView| active_many_sites(v)),
        fact_views(grouped.self_referential@) == fact_views(facts@).filter(|v: FactView| active_self_reference(v)),
        fact_views(grouped.acknowledged@) == fact_views(facts@).filter(|v: FactView| acknowledged_fact(v)),
{
    let ghost p1 = |v: FactView| active_links(v);
    let ghost p2 = |v: FactView| active_back_pointer(v);
    let ghost p3 = |v: FactView| active_many_sites(v);
    let ghost p4 = |v: FactView| active_self_reference(v);
    let ghost pa = |v: FactView| acknowledged_fact(v);
    let mut grouped = GroupedWarnings {
        bidirectional: Vec::new(),
        parent_child: Vec::new(),
        shared_mutable: Vec::new(),
        self_referential: Vec::new(),
        acknowledged: Vec::new(),
    };
    let mut i: usize = 0;
    proof {
        assert(fact_views(facts@.take(0)) =~= Seq::<FactView>::empty());
        assert(fact_views(grouped.bidirectional@) =~= Seq::<FactView>::empty());
        assert(fact_views(grouped.parent_child@) =~= Seq::<FactView>::empty());
        assert(fact_views(grouped.shared_mutable@) =~= Seq::<FactView>::empty());
        assert(fact_views(grouped.self_referential@) =~= Seq::<FactView>::empty());
        assert(fact_views(grouped.acknowledged@) =~= Seq::<FactView>::empty());
    }
    while i < facts.len()
        invariant
            i <= facts@.len(),
            forall|v: FactView| #[trigger] p1(v) == active_links(v),
            forall|v: FactView| #[trigger] p2(v) == active_back_pointer(v),
            forall|v: FactView| #[trigger] p3(v) == active_many_sites(v),
            forall|v: FactView| #[trigger] p4(v) == active_self_reference(v),
            forall|v: FactView| #[trigger] pa(v) == acknowledged_fact(v),
            fact_views(grouped.bidirectional@) == fact_views(facts@.take(i as int)).filter(p1),
            fact_views(grouped.parent_child@) == fact_views(facts@.take(i as int)).filter(p2),
            fact_views(grouped.shared_mutable@) == fact_views(facts@.take(i as int)).filter(p3),
            fact_views(grouped.self_referential@) == fact_views(facts@.take(i as int)).filter(p4),
            fact_views(grouped.acknowledged@) == fact_views(facts@.take(i as int)).filter(pa),
        decreases facts@.len() - i,
    {
        let fact = &facts[i];
        let ghost prev = fact_views(facts@.take(i as int));
        proof {
            assert(fact_views(facts@.take(i + 1)) =~= prev.push(fact@));
            prev.lemma_filter_push(fact@, p1);
            prev.lemma_filter_push(fact@, p2);
            prev.lemma_filter_push(fact@, p3);
            prev.lemma_filter_push(fact@, p4);
            prev.lemma_filter_push(fact@, pa);
        }
        let copy = clone_fact(fact);
        if fact.suppressed {
            let ghost before = grouped.acknowledged@;
            grouped.acknowledged.push(copy);
            proof {
                assert(fact_views(grouped.acknowledged@) =~= fact_views(before).push(fact@));
            }
        } else {
            match &fact.pattern {
                WarnEarlyPattern::BidirectionalRcLinks { .. } => {
                    let ghost before = grouped.bidirectional@;
                    grouped.bidirectional.push(copy);
                    proof {
                        assert(fact_views(grouped.bidirectional@) =~= fact_views(before).push(fact@));
                    }
                },
                WarnEarlyPattern::ParentChildBackPointer { .. } => {
                    let ghost before = grouped.parent_child@;
                    grouped.parent_child.push(copy);
                    proof {
                        assert(fact_views(grouped.parent_child@) =~= fact_views(before).push(fact@));
                    }
                },
                WarnEarlyPattern::SharedMutableAt3PlusSites { .. } => {
                    let ghost before = grouped.shared_mutable@;
                    grouped.shared_mutable.push(copy);
                    proof {
                        assert(fact_views(grouped.shared_mutable@) =~= fact_views(before).push(fact@));
                    }
                },
                WarnEarlyPattern::SelfReferentialStruct { .. } => {
                    let ghost before = grouped.self_referential@;
                    grouped.self_referential.push(copy);
                    proof {
                        assert(fact_views(grouped.self_referential@) =~= fact_views(before).push(fact@));
                    }
                },
            }
        }
        i = i + 1;
    }
    proof {
        assert(facts@.take(i as int) =~= facts@);
        assert(p1 =~= (|v: FactView| active_links(v)));
        assert(p2 =~= (|v: FactView| active_back_pointer(v)));
        assert(p3 =~= (|v: FactView| active_many_sites(v)));
        assert(p4 =~= (|v: FactView| active_self_reference(v)));
        assert(pa =~= (|v: FactView| acknowledged_fact(v)));
    }
    grouped
}

/// The warning code of a pattern.
pub open spec fn code_of(p: PatternView) -> Seq<char> {
    match p {
        PatternView::BidirectionalRcLinks { .. } => "K0080-P1"@,
        PatternView::ParentChildBackPointer { .. } => "K0080-P2"@,
        PatternView::SharedMutableAt3PlusSites { .. } => "K0080-P3"@,
        PatternView::SelfReferentialStruct { .. } => "K0080-P4"@,
    }
}

/// The warning code of a pattern.
pub fn pattern_code(pattern: &WarnEarlyPattern) -> (code: &'static str)
    ensures
        code@ == code_of(pattern@),
{
    proof {
        reveal_strlit("K0080-P1");
        reveal_strlit("K0080-P2");
        reveal_strlit("K0080-P3");
        reveal_strlit("K0080-P4");
    }
    match pattern {
        WarnEarlyPattern::BidirectionalRcLinks { .. } => "K0080-P1",
        WarnEarlyPattern::ParentChildBackPointer { .. } => "K0080-P2",
        WarnEarlyPattern::SharedMutableAt3PlusSites { .. } => "K0080-P3",
        WarnEarlyPattern::SelfReferentialStruct { .. } => "K0080-P4",
    }
}

/// The lines naming each linked field pair.
pub open spec fn pairs_text(pairs: Seq<(Seq<char>, Seq<char>)>) -> Seq<char>
    decreases pairs.len(),
{
    if pairs.len() == 0 {
        Seq::empty()
    } else {
        pairs_text(pairs.drop_last()) + "  = fields `"@ + pairs.last().0 + "` ↔ `"@ + pairs.last().1
            + "` form a bidirectional link\n"@
    }
}

/// The lines of one active structural warning.
pub open spec fn warning_text(v: FactView) -> Seq<char> {
    match v.pattern {
        PatternView::BidirectionalRcLinks { struct_name, field_pairs } =>
            "  note[K0080-P1]: bidirectional Rc links in `"@ + struct_name + "`\n"@ + pairs_text(field_pairs)
                + "  = migration: consider Weak<T> for one direction or arena allocation\n"@,
        PatternView::ParentChildBackPointer { struct_name, children_field, parent_field } =>
            "  note[K0080-P2]: parent↔child back-pointer in `"@ + struct_name + "`\n"@
                + "  = `"@ + children_field + "` (children) ↔ `"@ + parent_field + "` (parent)\n"@
                + "  = migration: use Weak<T> for the parent direction to break the cycle\n"@,
        PatternView::SharedMutableAt3PlusSites { binding_id, site_count } =>
            "  note[K0080-P3]: shared mutable state at "@ + decimal_text(site_count as nat)
                + " call sites (binding KirNodeId("@ + decimal_text(binding_id as nat) + "))\n"@
                + "  = migration: consider actor pattern or message-passing interface\n"@,
        PatternView::SelfReferentialStruct { struct_name } =>
            "  note[K0080-P4]: self-referential struct `"@ + struct_name + "` without Rc/Box indirection\n"@
                + "  = migration: wrap the recursive field in Box<T> or Rc<T>\n"@,
    }
}

/// The lines of a list of warnings, in order.
pub open spec fn warnings_text(vs: Seq<FactView>) -> Seq<char>
    decreases vs.len(),
{
    if vs.len() == 0 {
        Seq::empty()
    } else {
        warnings_text(vs.drop_last()) + warning_text(vs.last())
    }
}

/// The line of one acknowledged warning.
pub open spec fn ack_text(v: FactView) -> Seq<char> {
    "  ["@ + code_of(v.pattern) + "] `"@ + v.struct_name + "` — "@
        + match v.known_debt_reason { Some(r) => r, None => "<no reason provided>"@ } + "\n"@
}

/// The lines of a list of acknowledged warnings, in order.
pub open spec fn acks_text(vs: Seq<FactView>) -> Seq<char>
    decreases vs.len(),
{
    if vs.len() == 0 {
        Seq::empty()
    } else {
        acks_text(vs.drop_last()) + ack_text(vs.last())
    }
}

/// The structural-warnings section of a report: the active warnings grouped
/// by pattern, then the acknowledged ones; empty when no warning is active,
/// so that the caller leaves the section out.
pub open spec fn warn_early_text(facts: Seq<WarnEarlyFact>) -> Seq<char> {
    let vs = fact_views(facts);
    let g1 = vs.filter(|v: FactView| active_links(v));
    let g2 = vs.filter(|v: FactView| active_back_pointer(v));
    let g3 = vs.filter(|v: FactView| active_many_sites(v));
    let g4 = vs.filter(|v: FactView| active_self_reference(v));
    let ack = vs.filter(|v: FactView| acknowledged_fact(v));
    let total = g1.len() + g2.len() + g3.len() + g4.len();
    if total == 0 {
        Seq::empty()
    } else {
        "Structural warnings:\n"@ + warnings_text(g1) + warnings_text(g2) + warnings_text(g3) + warnings_text(g4)
            + (if ack.len() > 0 { "Acknowledged debt:\n"@ + acks_text(ack) } else { Seq::empty() })
    }
}

fn push_warning(out: &mut String, fact: &WarnEarlyFact)
    ensures
        final(out)@ == old(out)@ + warning_text(fact@),
{
    let ghost start = out@;
    match &fact.pattern {
        WarnEarlyPattern::BidirectionalRcLinks { struct_name, field_pairs } => {
            out.append("  note[K0080-P1]: bidirectional Rc links in `");
            out.append(struct_name.as_str());
            out.append("`\n");
            let ghost head = out@;
            let mut i: usize = 0;
            proof {
                assert(pair_texts(field_pairs@.take(0)) =~= Seq::<(Seq<char>, Seq<char>)>::empty());
                assert(out@ =~= head + pairs_text(pair_texts(field_pairs@.take(0))));
            }
            while i < field_pairs.len()
                invariant
                    i <= field_pairs@.len(),
                    out@ == head + pairs_text(pair_texts(field_pairs@.take(i as int))),
                decreases field_pairs@.len() - i,
            {
                let (a, b) = &field_pairs[i];
                out.append("  = fields `");
                out.append(a.as_str());
                out.append("` ↔ `");
                out.append(b.as_str());
                out.append("` form a bidirectional link\n");
                proof {
                    let prev = pair_texts(field_pairs@.take(i as int));
                    assert(pair_texts(field_pairs@.take(i + 1)) =~= prev.push((a@, b@)));
                    assert(pair_texts(field_pairs@.take(i + 1)).drop_last() =~= prev);
                }
                i = i + 1;
            }
            proof {
                assert(field_pairs@.take(i as int) =~= field_pairs@);
            }
            out.append("  = migration: consider Weak<T> for one direction or arena allocation\n");
        },
        WarnEarlyPattern::ParentChildBackPointer { struct_name, children_field, parent_field } => {
            out.append("  note[K0080-P2]: parent↔child back-pointer in `");
            out.append(struct_name.as_str());
            out.append("`\n");
            out.append("  = `");
            out.append(children_field.as_str());
            out.append("` (children) ↔ `");
            out.append(parent_field.as_str());
            out.append("` (parent)\n");
            out.append("  = migration: use Weak<T> for the parent direction to break the cycle\n");
        },
        WarnEarlyPattern::SharedMutableAt3PlusSites { binding_id, site_count } => {
            out.append("  note[K0080-P3]: shared mutable state at ");
            push_decimal(out, *site_count as u64);
            out.append(" call sites (binding KirNodeId(");
            push_decimal(out, *binding_id as u64);
            out.append("))\n");
            out.append("  = migration: consider actor pattern or message-passing interface\n");
        },
        WarnEarlyPattern::SelfReferentialStruct { struct_name } => {
            out.append("  note[K0080-P4]: self-referential struct `");
            out.append(struct_name.as_str());
            out.append("` without Rc/Box indirection\n");
            out.append("  = migration: wrap the recursive field in Box<T> or Rc<T>\n");
        },
    }
    proof {
        assert(out@ =~= start + warning_text(fact@));
    }
}

fn push_warnings(out: &mut String, facts: &[WarnEarlyFact])
    ensures
        final(out)@ == old(out)@ + warnings_text(fact_views(facts@)),
{
    let ghost start = out@;
    let mut i: usize = 0;
    proof {
        assert(fact_views(facts@.take(0)) =~= Seq::<FactView>::empty());
        assert(out@ =~= start + warnings_text(fact_views(facts@.take(0))));
    }
    while i < facts.len()
        invariant
            i <= facts@.len(),
            out@ == start + warnings_text(fact_views(facts@.take(i as int))),
        decreases facts@.len() - i,
    {
        push_warning(out, &facts[i]);
        proof {
            assert(fact_views(facts@.take(i + 1)) =~= fact_views(facts@.take(i as int)).push(facts@[i as int]@));
            assert(fact_views(facts@.take(i + 1)).drop_last() =~= fact_views(facts@.take(i as int)));
        }
        i = i + 1;
    }
    proof {
        assert(facts@.take(i as int) =~= facts@);
    }
}

fn push_acks(out: &mut String, facts: &[WarnEarlyFact])
    ensures
        final(out)@ == old(out)@ + acks_text(fact_views(facts@)),
{
    let ghost start = out@;
    let mut i: usize = 0;
    proof {
        assert(fact_views(facts@.take(0)) =~= Seq::<FactView>::empty());
        assert(out@ =~= start + acks_text(fact_views(facts@.take(0))));
    }
    while i < facts.len()
        invariant
            i <= facts@.len(),
            out@ == start + acks_text(fact_views(facts@.take(i as int))),
        decreases facts@.len() - i,
    {
        let fact = &facts[i];
        let ghost before = out@;
        out.append("  [");
        out.append(pattern_code(&fact.pattern));
        out.append("] `");
        out.append(fact.struct_name.as_str());
        out.append("` — ");
        match &fact.known_debt_reason {
            Some(r) => out.append(r.as_str()),
            None => out.append("<no reason provided>"),
        }
        out.append("\n");
        proof {
            assert(out@ =~= before + ack_text(fact@));
            assert(fact_views(facts@.take(i + 1)) =~= fact_views(facts@.take(i as int)).push(fact@));
            assert(fact_views(facts@.take(i + 1)).drop_last() =~= fact_views(facts@.take(i as int)));
        }
        i = i + 1;
    }
    proof {
        assert(facts@.take(i as int) =~= facts@);
    }
}

/// The structural-warnings section of `kobo debt` output.
pub fn format_warn_early(report: &DebtReport) -> (out: String)
    ensures
        out@ == warn_early_text(report.warn_early@),
{
    let grouped = group_by_pattern(report.warn_early.as_slice());
    let total_active = grouped.bidirectional.len() as u128 + grouped.parent_child.len() as u128
        + grouped.shared_mutable.len() as u128 + grouped.self_referential.len() as u128;
    proof {
        let vs = fact_views(report.warn_early@);
        assert(fact_views(grouped.bidirectional@).len() == grouped.bidirectional@.len());
        assert(fact_views(grouped.parent_child@).len() == grouped.parent_child@.len());
        assert(fact_views(grouped.shared_mutable@).len() == grouped.shared_mutable@.len());
        assert(fact_views(grouped.self_referential@).len() == grouped.self_referential@.len());
        assert(fact_views(grouped.acknowledged@).len() == grouped.acknowledged@.len());
    }
    let mut out = String::new();
    if total_active == 0 {
        return out;
    }
    out.append("Structural warnings:\n");
    push_warnings(&mut out, grouped.bidirectional.as_slice());
    push_warnings(&mut out, grouped.parent_child.as_slice());
    push_warnings(&mut out, grouped.shared_mutable.as_slice());
    push_warnings(&mut out, grouped.self_referential.as_slice());
    let ghost mid = out@;
    if grouped.acknowledged.len() > 0 {
        out.append("Acknowledged debt:\n");
        push_acks(&mut out, grouped.acknowledged.as_slice());
    }
    proof {
        assert(out@ =~= warn_early_text(report.warn_early@));
    }
    out
}

} // verus!
