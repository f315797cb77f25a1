use kobo_driver::core_cfg::{parse_legacy_loop_exit_edge, push_unique_loop_region, ParsedLoopEdgeKind};
use kobo_driver::live_locals::live_declared_locals;

fn chars(s: &str) -> Vec<char> {
    s.chars().collect()
}

fn strings(items: &[&str]) -> Vec<String> {
    items.iter().map(|s| s.to_string()).collect()
}

#[test]
fn legacy_loop_exit_edges() {
    let s = chars("break:bb1:bb9:x");
    let e = parse_legacy_loop_exit_edge(&s, 0).expect("edge");
    assert_eq!(e.target, "bb9:x");
    assert_eq!(e.loop_entry_block.as_deref(), Some("bb1"));
    assert_eq!(e.loop_edge_kind, Some(ParsedLoopEdgeKind::Break));
    assert!(e.loop_id.is_none());
    let s = chars("xloop_exit:condition:bb2");
    let e = parse_legacy_loop_exit_edge(&s, 11).expect("edge");
    assert_eq!(e.target, "condition_exit");
    assert_eq!(e.loop_entry_block.as_deref(), Some("bb2"));
    assert_eq!(e.loop_edge_kind, Some(ParsedLoopEdgeKind::Condition));
    let s = chars("odd:bb3");
    let e = parse_legacy_loop_exit_edge(&s, 0).unwrap();
    assert_eq!(e.target, "odd_exit");
    assert_eq!(e.loop_edge_kind, None);
    assert!(parse_legacy_loop_exit_edge(&chars("break"), 0).is_none());
}

#[test]
fn loop_regions_are_kept_once() {
    let mut regions = strings(&["L1"]);
    push_unique_loop_region(&mut regions, "L2".to_string());
    push_unique_loop_region(&mut regions, "L1".to_string());
    push_unique_loop_region(&mut regions, "L2".to_string());
    assert_eq!(regions, strings(&["L1", "L2"]));
}

#[test]
fn live_locals_are_declared_used_and_not_underscored() {
    let declared = strings(&["_guard", "a", "b", "c"]);
    let live = strings(&["c", "a", "_guard", "z"]);
    assert_eq!(live_declared_locals(&live, &declared), strings(&["a", "c"]));
    assert!(live_declared_locals(&[], &declared).is_empty());
    assert!(live_declared_locals(&live, &[]).is_empty());
}
