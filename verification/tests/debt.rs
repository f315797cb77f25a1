use kobo_driver::borrow_report::{build_borrow_report, BindingUsage, BorrowConflictKind, BorrowFixPattern, BorrowKind, UseEvent};
use kobo_driver::debt::{
    build_debt_report, classify_site, format_warn_early, group_by_pattern, DebtComplexityTier, DebtReport, Kir,
    KirNode, NodeKind, OwnershipTier, SharedBindingFacts, TransformBindingFacts, WarnEarlyFact, WarnEarlyPattern,
    AcknowledgedDebtRecord,
};
use kobo_driver::migration::{detect_migration_patterns, format_patterns, MigrationPattern, PatternRisk, TierDecision};
use kobo_driver::scenario::KoboSpan;

fn span(start: u32, end: u32) -> KoboSpan {
    KoboSpan { file_id: 0, start, end }
}

fn dummy_span() -> KoboSpan {
    span(0, 1)
}

fn default_shared_facts() -> SharedBindingFacts {
    SharedBindingFacts { mutable_sites: 0, has_escape: false, needs_sharing: false, needs_send: false, live_borrow_at_move: false, unsolvable_escape: false }
}

fn make_node(id: u32, tier: OwnershipTier) -> KirNode {
    KirNode { id, kind: NodeKind::Decl, ownership: tier, span: dummy_span() }
}

fn make_kir_with_node(id: u32, tier: OwnershipTier) -> Kir {
    Kir { nodes: vec![make_node(id, tier)], bindings: vec![], warn_early_facts: vec![] }
}

fn p4_fact(node_id: u32) -> WarnEarlyFact {
    WarnEarlyFact {
        node_id,
        span: dummy_span(),
        pattern: WarnEarlyPattern::SelfReferentialStruct { struct_name: "Cyclic".to_owned() },
        suppressed: false,
        known_debt_reason: None,
        struct_name: "Cyclic".to_owned(),
    }
}

fn p1_fact_for(node_id: u32) -> WarnEarlyFact {
    WarnEarlyFact {
        node_id,
        span: dummy_span(),
        pattern: WarnEarlyPattern::BidirectionalRcLinks {
            struct_name: "Node".to_owned(),
            field_pairs: vec![("a".to_owned(), "b".to_owned())],
        },
        suppressed: false,
        known_debt_reason: None,
        struct_name: "Node".to_owned(),
    }
}

fn p3_fact(node_id: u32) -> WarnEarlyFact {
    WarnEarlyFact {
        node_id,
        span: dummy_span(),
        pattern: WarnEarlyPattern::SharedMutableAt3PlusSites { binding_id: node_id, site_count: 3 },
        suppressed: false,
        known_debt_reason: None,
        struct_name: String::new(),
    }
}

fn p1_fact(suppressed: bool) -> WarnEarlyFact {
    WarnEarlyFact {
        node_id: 1,
        span: span(0, 0),
        pattern: WarnEarlyPattern::BidirectionalRcLinks {
            struct_name: "Node".to_owned(),
            field_pairs: vec![("parent".to_owned(), "child".to_owned())],
        },
        suppressed,
        known_debt_reason: if suppressed { Some("will use arena".to_owned()) } else { None },
        struct_name: "Node".to_owned(),
    }
}

fn p2_fact(suppressed: bool) -> WarnEarlyFact {
    WarnEarlyFact {
        node_id: 2,
        span: span(0, 0),
        pattern: WarnEarlyPattern::ParentChildBackPointer {
            struct_name: "Tree".to_owned(),
            children_field: "children".to_owned(),
            parent_field: "parent".to_owned(),
        },
        suppressed,
        known_debt_reason: if suppressed { Some("known tree pattern".to_owned()) } else { None },
        struct_name: "Tree".to_owned(),
    }
}

#[test]
fn zero_patterns_is_tier1() {
    let kir = make_kir_with_node(1, OwnershipTier::RcMutShared);
    assert_eq!(classify_site(1, &kir, &[]), DebtComplexityTier::Tier1);
}

#[test]
fn p1_pattern_is_tier2() {
    let kir = make_kir_with_node(1, OwnershipTier::RcMutShared);
    assert_eq!(classify_site(1, &kir, &[p1_fact_for(1)]), DebtComplexityTier::Tier2);
}

#[test]
fn p4_pattern_is_tier3() {
    let kir = make_kir_with_node(1, OwnershipTier::RcMutShared);
    assert_eq!(classify_site(1, &kir, &[p4_fact(1)]), DebtComplexityTier::Tier3);
}

#[test]
fn p4_overrides_p1_to_tier3() {
    let kir = make_kir_with_node(1, OwnershipTier::RcMutShared);
    assert_eq!(classify_site(1, &kir, &[p1_fact_for(1), p4_fact(1)]), DebtComplexityTier::Tier3);
}

#[test]
fn p1_and_p3_is_tier2() {
    let kir = make_kir_with_node(1, OwnershipTier::RcMutShared);
    assert_eq!(classify_site(1, &kir, &[p1_fact_for(1), p3_fact(1)]), DebtComplexityTier::Tier2);
}

#[test]
fn suppressed_p4_falls_to_tier1() {
    let kir = make_kir_with_node(1, OwnershipTier::RcMutShared);
    let mut fact = p4_fact(1);
    fact.suppressed = true;
    assert_eq!(classify_site(1, &kir, &[fact]), DebtComplexityTier::Tier1);
}

#[test]
fn mutation_from_two_sites_is_tier2_and_other_nodes_do_not_count() {
    let mut kir = make_kir_with_node(1, OwnershipTier::RcMutShared);
    kir.bindings.push(binding(1, "state", SharedBindingFacts { mutable_sites: 2, ..default_shared_facts() }));
    assert_eq!(classify_site(1, &kir, &[p4_fact(2)]), DebtComplexityTier::Tier2);
}

#[test]
fn inventory_counts_match_exactly() {
    let nodes = vec![
        make_node(1, OwnershipTier::PlainOwned),
        make_node(2, OwnershipTier::PlainOwned),
        make_node(3, OwnershipTier::PlainOwned),
        make_node(4, OwnershipTier::RcShared),
        make_node(5, OwnershipTier::RcShared),
        make_node(6, OwnershipTier::RcMutShared),
        make_node(7, OwnershipTier::RcMutShared),
        make_node(8, OwnershipTier::RcMutShared),
        make_node(9, OwnershipTier::RcMutShared),
    ];
    let kir = Kir { nodes, bindings: vec![], warn_early_facts: vec![] };
    let report = build_debt_report(&kir, 1, 100);
    assert_eq!(report.inventory.plain_owned, 3);
    assert_eq!(report.inventory.rc_shared, 2);
    assert_eq!(report.inventory.rc_mut_shared, 4);
}

#[test]
fn complexity_breakdown_invariant_holds() {
    let nodes = vec![
        make_node(1, OwnershipTier::RcMutShared),
        make_node(2, OwnershipTier::RcMutShared),
        make_node(3, OwnershipTier::RcMutShared),
    ];
    let kir = Kir { nodes, bindings: vec![], warn_early_facts: vec![] };
    let report = build_debt_report(&kir, 1, 50);
    let sum = report.complexity.tier1 + report.complexity.tier2 + report.complexity.tier3;
    assert_eq!(sum, report.inventory.rc_mut_shared, "tier1 + tier2 + tier3 must equal rc_mut_shared");
}

#[test]
fn active_warn_fact_goes_to_warn_early() {
    let mut kir = make_kir_with_node(1, OwnershipTier::RcMutShared);
    kir.warn_early_facts = vec![WarnEarlyFact {
        node_id: 1,
        span: dummy_span(),
        pattern: WarnEarlyPattern::SelfReferentialStruct { struct_name: "Chain".to_owned() },
        suppressed: false,
        known_debt_reason: None,
        struct_name: "Chain".to_owned(),
    }];
    let report = build_debt_report(&kir, 1, 10);
    assert_eq!(report.warn_early.len(), 1);
    assert_eq!(report.acknowledged.len(), 0);
}

#[test]
fn suppressed_warn_fact_goes_to_acknowledged() {
    let mut kir = make_kir_with_node(1, OwnershipTier::RcMutShared);
    kir.warn_early_facts = vec![WarnEarlyFact {
        node_id: 1,
        span: dummy_span(),
        pattern: WarnEarlyPattern::BidirectionalRcLinks {
            struct_name: "Node".to_owned(),
            field_pairs: vec![("a".to_owned(), "b".to_owned())],
        },
        suppressed: true,
        known_debt_reason: Some("will use arena".to_owned()),
        struct_name: "Node".to_owned(),
    }];
    let report = build_debt_report(&kir, 1, 10);
    assert_eq!(report.warn_early.len(), 0);
    assert_eq!(report.acknowledged.len(), 1);
    assert_eq!(report.acknowledged[0].reason, "will use arena");
}

#[test]
fn schema_version_is_one() {
    let kir = Kir { nodes: vec![], bindings: vec![], warn_early_facts: vec![] };
    let report = build_debt_report(&kir, 0, 0);
    assert_eq!(report.schema_version, 1);
}

#[test]
fn debt_sites_record_name_patterns_and_tier() {
    let mut kir = Kir {
        nodes: vec![make_node(1, OwnershipTier::RcMutShared), make_node(2, OwnershipTier::RcMutShared), make_node(3, OwnershipTier::BoxOwned)],
        bindings: vec![binding(2, "shared", default_shared_facts())],
        warn_early_facts: vec![p1_fact_for(2), p4_fact(2), p4_fact(9)],
    };
    kir.warn_early_facts[1].suppressed = true;
    kir.nodes[0].kind = NodeKind::Other;
    let report = build_debt_report(&kir, 2, 30);
    assert_eq!((report.file_count, report.line_count), (2, 30));
    assert_eq!(report.inventory.box_owned, 1);
    assert_eq!(report.inventory.rc_mut_shared, 1);
    assert_eq!(report.sites.len(), 1);
    let site = &report.sites[0];
    assert_eq!(site.node_id, 2);
    assert_eq!(site.binding_name, "shared");
    assert!(site.suppressed);
    assert_eq!(site.warn_early.len(), 1);
    assert_eq!(site.complexity_estimate, DebtComplexityTier::Tier2);
    assert_eq!((report.complexity.tier1, report.complexity.tier2, report.complexity.tier3), (0, 1, 0));
    assert_eq!(report.warn_early.len(), 2);
    assert_eq!(report.acknowledged.len(), 1);
    assert_eq!(report.acknowledged[0].reason, "");
    let unnamed = build_debt_report(&make_kir_with_node(7, OwnershipTier::RcMutShared), 0, 0);
    assert_eq!(unnamed.sites[0].binding_name, "_7");
}

#[test]
fn empty_facts_produce_empty_string() {
    let report = DebtReport::new();
    let out = format_warn_early(&report);
    assert!(out.is_empty(), "no structural warnings section expected");
}

#[test]
fn active_p1_appears_in_structural_warnings() {
    let mut report = DebtReport::new();
    report.warn_early.push(p1_fact(false));
    let out = format_warn_early(&report);
    assert!(out.contains("K0080-P1"), "should mention K0080-P1");
    assert!(out.contains("Node"), "should mention struct name");
    assert!(!out.contains("Acknowledged"), "no acknowledged section expected");
}

#[test]
fn suppressed_p2_appears_in_acknowledged() {
    let mut report = DebtReport::new();
    report.warn_early.push(p1_fact(false));
    report.acknowledged.push(AcknowledgedDebtRecord {
        node_id: 0,
        span: span(0, 0),
        reason: "known tree pattern".to_owned(),
        pattern: WarnEarlyPattern::ParentChildBackPointer {
            struct_name: "Tree".to_owned(),
            children_field: "children".to_owned(),
            parent_field: "parent".to_owned(),
        },
        struct_name: "Tree".to_owned(),
    });
    let grouped = group_by_pattern(&[p1_fact(false), p2_fact(true)]);
    assert_eq!(grouped.bidirectional.len(), 1);
    assert_eq!(grouped.acknowledged.len(), 1);
}

#[test]
fn group_by_pattern_routes_correctly() {
    let facts = [p1_fact(false), p2_fact(false), p1_fact(true)];
    let grouped = group_by_pattern(&facts);
    assert_eq!(grouped.bidirectional.len(), 1);
    assert_eq!(grouped.parent_child.len(), 1);
    assert_eq!(grouped.acknowledged.len(), 1);
    assert_eq!(grouped.shared_mutable.len(), 0);
    assert_eq!(grouped.self_referential.len(), 0);
}

#[test]
fn multi_pair_p1_renders_all_pairs() {
    let mut report = DebtReport::new();
    report.warn_early.push(WarnEarlyFact {
        node_id: 1,
        span: span(0, 0),
        pattern: WarnEarlyPattern::BidirectionalRcLinks {
            struct_name: "GraphNode".to_owned(),
            field_pairs: vec![
                ("parent".to_owned(), "left".to_owned()),
                ("parent".to_owned(), "right".to_owned()),
                ("left".to_owned(), "right".to_owned()),
            ],
        },
        suppressed: false,
        known_debt_reason: None,
        struct_name: "GraphNode".to_owned(),
    });
    let out = format_warn_early(&report);
    assert!(out.contains("parent` ↔ `left"), "first pair missing");
    assert!(out.contains("parent` ↔ `right"), "second pair missing");
    assert!(out.contains("left` ↔ `right"), "third pair missing");
}

#[test]
fn warn_early_text_is_exact() {
    let mut report = DebtReport::new();
    report.warn_early.push(p2_fact(false));
    report.warn_early.push(p3_fact(4));
    report.warn_early.push(p1_fact(true));
    let mut unexplained = p4_fact(5);
    unexplained.suppressed = true;
    report.warn_early.push(unexplained);
    let out = format_warn_early(&report);
    assert_eq!(
        out,
        "Structural warnings:\n\
         \x20 note[K0080-P2]: parent↔child back-pointer in `Tree`\n\
         \x20 = `children` (children) ↔ `parent` (parent)\n\
         \x20 = migration: use Weak<T> for the parent direction to break the cycle\n\
         \x20 note[K0080-P3]: shared mutable state at 3 call sites (binding KirNodeId(4))\n\
         \x20 = migration: consider actor pattern or message-passing interface\n\
         Acknowledged debt:\n\
         \x20 [K0080-P1] `Node` — will use arena\n\
         \x20 [K0080-P4] `Cyclic` — <no reason provided>\n"
    );
}

fn binding(node: u32, name: &str, shared: SharedBindingFacts) -> TransformBindingFacts {
    TransformBindingFacts {
        node,
        binding_name: name.to_owned(),
        shared_facts: shared,
        has_clone_elision: false,
        has_elision_fallback: false,
        plain_clone_alias: false,
    }
}

fn make_kir_and_decisions(bindings: Vec<(TransformBindingFacts, OwnershipTier)>) -> (Kir, Vec<TierDecision>) {
    let nodes = bindings.iter().map(|(b, tier)| make_node(b.node, *tier)).collect();
    let decisions = bindings.iter().map(|(b, tier)| TierDecision { node: b.node, tier: *tier }).collect();
    let kir = Kir { nodes, bindings: bindings.into_iter().map(|(b, _)| b).collect(), warn_early_facts: vec![] };
    (kir, decisions)
}

fn make_binding(id: u32, name: &str, needs_sharing: bool, needs_send: bool, has_escape: bool) -> TransformBindingFacts {
    binding(id, name, SharedBindingFacts { needs_sharing, needs_send, has_escape, ..default_shared_facts() })
}

#[test]
fn detect_arc_deescalation_pattern() {
    let (kir, decisions) = make_kir_and_decisions(vec![(make_binding(1, "data", true, false, false), OwnershipTier::ArcShared)]);
    let patterns = detect_migration_patterns(&kir, &decisions);
    let deesc = patterns.iter().find(|p| p.name == "Arc de-escalation");
    assert!(deesc.is_some(), "should detect Arc de-escalation");
    assert_eq!(deesc.unwrap().suggested_tier, OwnershipTier::RcShared);
    assert_eq!(deesc.unwrap().risk, PatternRisk::Safe);
}

#[test]
fn detect_rc_to_arc_escalation() {
    let (kir, decisions) = make_kir_and_decisions(vec![(make_binding(1, "state", true, true, false), OwnershipTier::RcShared)]);
    let patterns = detect_migration_patterns(&kir, &decisions);
    let esc = patterns.iter().find(|p| p.name == "Rc→Arc escalation");
    assert!(esc.is_some(), "should detect Rc→Arc escalation");
    assert_eq!(esc.unwrap().suggested_tier, OwnershipTier::ArcShared);
}

#[test]
fn detect_box_to_plain_pattern() {
    let (kir, decisions) = make_kir_and_decisions(vec![(make_binding(1, "buf", false, false, false), OwnershipTier::BoxOwned)]);
    let patterns = detect_migration_patterns(&kir, &decisions);
    let debox = patterns.iter().find(|p| p.name == "Box→PlainOwned");
    assert!(debox.is_some(), "should detect Box→PlainOwned");
    assert_eq!(debox.unwrap().suggested_tier, OwnershipTier::PlainOwned);
}

#[test]
fn no_pattern_when_tier_matches_needs() {
    let (kir, decisions) = make_kir_and_decisions(vec![(make_binding(1, "data", true, false, false), OwnershipTier::RcShared)]);
    let patterns = detect_migration_patterns(&kir, &decisions);
    assert!(patterns.is_empty(), "no patterns when tier matches actual needs");
}

#[test]
fn clone_patterns_and_unknown_nodes() {
    let mut b = make_binding(1, "x", false, true, false);
    b.has_clone_elision = true;
    b.has_elision_fallback = true;
    let (mut kir, mut decisions) = make_kir_and_decisions(vec![(b, OwnershipTier::RcMutShared)]);
    decisions.push(TierDecision { node: 42, tier: OwnershipTier::BoxOwned });
    kir.nodes.push(KirNode { id: 43, kind: NodeKind::Other, ownership: OwnershipTier::BoxOwned, span: dummy_span() });
    decisions.push(TierDecision { node: 43, tier: OwnershipTier::BoxOwned });
    kir.nodes.push(make_node(44, OwnershipTier::BoxOwned));
    decisions.push(TierDecision { node: 44, tier: OwnershipTier::BoxOwned });
    let patterns = detect_migration_patterns(&kir, &decisions);
    let names: Vec<&str> = patterns.iter().map(|p| p.name.as_str()).collect();
    assert_eq!(names, vec!["RefCell→RwLock", "Clone elimination", "Lifetime insertion"]);
    assert_eq!(patterns[0].risk, PatternRisk::MayChangeBehavior);
    assert_eq!(patterns[1].current_tier, OwnershipTier::RcMutShared);
    assert_eq!(patterns[2].explanation, "This clone can be replaced with &'a T");
}

#[test]
fn format_patterns_empty() {
    assert_eq!(format_patterns(&[]), "No migration patterns detected.");
}

#[test]
fn format_patterns_non_empty() {
    let patterns = vec![MigrationPattern {
        name: "Arc de-escalation".to_owned(),
        binding_name: "data".to_owned(),
        current_tier: OwnershipTier::ArcShared,
        suggested_tier: OwnershipTier::RcShared,
        explanation: "This Arc is only used in single-threaded context".to_owned(),
        risk: PatternRisk::Safe,
        span: KoboSpan { file_id: 0, start: 0, end: 10 },
    }];
    let output = format_patterns(&patterns);
    assert!(output.contains("Arc de-escalation"));
    assert!(output.contains("data"));
    assert!(output.contains("safe"));
    assert_eq!(
        output,
        "1 migration pattern(s) detected:\n\n  1. [Arc de-escalation] 'data': ArcShared → RcShared\n     This Arc is only used in single-threaded context (safe)\n\n"
    );
}

#[test]
fn borrow_overlap_detected_for_immut_and_mut() {
    let usage = BindingUsage {
        declaration: span(0, 5),
        uses: vec![
            UseEvent::Borrowed { kind: BorrowKind::Immutable, span: span(10, 20) },
            UseEvent::Borrowed { kind: BorrowKind::Mutable, span: span(15, 25) },
        ],
    };
    let report = build_borrow_report("data", &usage, &default_shared_facts());
    assert!(!report.overlapping_sites.is_empty(), "should detect overlapping borrows");
    assert!(report.overlapping_sites[0].fix_pattern.is_some());
    assert_eq!(report.overlapping_sites[0].conflict_kind, BorrowConflictKind::ReadWriteOverlap);
    assert_eq!(report.overlapping_sites[0].immutable_spans, vec![span(10, 20)]);
    assert_eq!(report.overlapping_sites[0].mutable_spans, vec![span(15, 25)]);
    assert_eq!(report.bindings_with_overlaps, 1);
}

#[test]
fn no_overlap_for_sequential_immutable_borrows() {
    let usage = BindingUsage {
        declaration: span(0, 5),
        uses: vec![
            UseEvent::Borrowed { kind: BorrowKind::Immutable, span: span(10, 20) },
            UseEvent::Borrowed { kind: BorrowKind::Immutable, span: span(25, 35) },
        ],
    };
    let report = build_borrow_report("x", &usage, &default_shared_facts());
    assert!(report.overlapping_sites.is_empty(), "immutable-only borrows should not conflict");
    assert_eq!(report.bindings_with_overlaps, 0);
    assert_eq!((report.schema_version, report.total_bindings_analyzed), (1, 1));
}

#[test]
fn overlap_with_live_borrow_at_move() {
    let usage = BindingUsage {
        declaration: span(0, 5),
        uses: vec![
            UseEvent::Borrowed { kind: BorrowKind::Immutable, span: span(10, 30) },
            UseEvent::Moved { span: span(20, 25) },
        ],
    };
    let facts = SharedBindingFacts { live_borrow_at_move: true, ..default_shared_facts() };
    let report = build_borrow_report("v", &usage, &facts);
    assert!(!report.overlapping_sites.is_empty(), "live borrow at move should be reported");
    assert!(matches!(report.overlapping_sites[0].fix_pattern, Some(BorrowFixPattern::Clone)));
}

#[test]
fn overlapping_spans_are_listed_once_in_discovery_order() {
    let usage = BindingUsage {
        declaration: span(0, 1),
        uses: vec![
            UseEvent::Borrowed { kind: BorrowKind::Immutable, span: span(10, 20) },
            UseEvent::Borrowed { kind: BorrowKind::Mutable, span: span(30, 40) },
            UseEvent::Borrowed { kind: BorrowKind::Immutable, span: span(35, 50) },
            UseEvent::Borrowed { kind: BorrowKind::Mutable, span: span(15, 16) },
            UseEvent::Borrowed { kind: BorrowKind::Immutable, span: span(10, 20) },
            UseEvent::Moved { span: span(12, 13) },
            UseEvent::Other { span: span(0, 100) },
        ],
    };
    let report = build_borrow_report("d", &usage, &default_shared_facts());
    assert_eq!(report.overlapping_sites.len(), 1);
    assert_eq!(report.overlapping_sites[0].immutable_spans, vec![span(10, 20), span(35, 50)]);
    assert_eq!(report.overlapping_sites[0].mutable_spans, vec![span(15, 16), span(30, 40)]);
    let live = SharedBindingFacts { live_borrow_at_move: true, ..default_shared_facts() };
    let report = build_borrow_report("d", &usage, &live);
    // the read-write site, then one escape for each borrow overlapping the move
    assert_eq!(report.overlapping_sites.len(), 3);
    let escaped: Vec<KoboSpan> = report.overlapping_sites[1..].iter().map(|s| s.immutable_spans[0]).collect();
    assert_eq!(escaped, vec![span(10, 20), span(10, 20)]);
    assert!(report.overlapping_sites[1..].iter().all(|s| s.conflict_kind == BorrowConflictKind::LifetimeEscape && s.mutable_spans.is_empty()));
}

#[test]
fn unsolvable_escape_in_binding_facts_is_tier3() {
    let mut kir = make_kir_with_node(1, OwnershipTier::RcMutShared);
    kir.bindings.push(binding(1, "state", SharedBindingFacts { unsolvable_escape: true, ..default_shared_facts() }));
    assert_eq!(classify_site(1, &kir, &[p1_fact_for(1)]), DebtComplexityTier::Tier3);
    assert_eq!(classify_site(2, &kir, &[]), DebtComplexityTier::Tier1);
}

#[test]
fn only_suppressed_warnings_give_an_empty_section() {
    let mut report = DebtReport::new();
    report.warn_early.push(p1_fact(true));
    assert_eq!(format_warn_early(&report), "");
}
