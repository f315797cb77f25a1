use kobo_driver::core_cfg::{
    block_index, block_span, core_cfg_edges, core_cfg_nodes, core_loop_exit_facts, core_loop_facts,
    is_legacy_back_edge, is_loop_back_edge, loop_exit_kind, loop_labels_by_id, loop_region_blocks,
    parse_core_edge, CoreBlock, CoreCfgEdge, CoreFunction, CoreStatement, CoreStatementKind,
    CoreTerminator, LoopRegionIndex, ParsedLoopEdgeKind,
};
use kobo_driver::scenario::{KoboSpan, ScenarioCoverage, ScenarioOpKind, ScenarioOperation, ScenarioProgram};
use kobo_driver::source_spans::SourceSpan;

fn span(start: u32, end: u32) -> KoboSpan {
    KoboSpan { file_id: 0, start, end }
}

fn terminator(id: &str, kind: &str, edges: &[&str], start: u32) -> CoreTerminator {
    CoreTerminator {
        id: id.to_string(),
        kind: kind.to_string(),
        edges: edges.iter().map(|e| e.to_string()).collect(),
        boundary: None,
        source_span: span(start, start + 1),
    }
}

fn block(id: &str, terminators: Vec<CoreTerminator>) -> CoreBlock {
    CoreBlock { id: id.to_string(), statements: vec![], terminators }
}

fn program(operations: Vec<ScenarioOperation>) -> ScenarioProgram {
    ScenarioProgram {
        target: "f".to_string(),
        operations,
        coverage: ScenarioCoverage { unsupported_constructs: vec![], opaque_boundaries: vec![] },
    }
}

#[test]
fn parses_each_edge_form() {
    let e = parse_core_edge("goto:bb2");
    assert_eq!(e.target, "bb2");
    assert!(e.loop_id.is_none() && e.loop_edge_kind.is_none() && e.loop_entry_block.is_none());

    let e = parse_core_edge("loop_back:loop:1:bb1");
    assert_eq!(e.target, "bb1");
    assert_eq!(e.loop_id.as_deref(), Some("loop:1"));
    assert_eq!(e.loop_edge_kind, Some(ParsedLoopEdgeKind::BackEdge));
    assert_eq!(e.loop_entry_block.as_deref(), Some("bb1"));

    let e = parse_core_edge("loop_continue:L:bb3");
    assert_eq!(e.loop_edge_kind, Some(ParsedLoopEdgeKind::Continue));
    assert_eq!(e.target, "bb3");

    let e = parse_core_edge("loop_back:nocolon");
    assert_eq!(e.target, "loop_back:nocolon");
    assert!(e.loop_id.is_none());

    let e = parse_core_edge("loop_exit:break:L:bb1:bb9:x");
    assert_eq!(e.target, "bb9:x");
    assert_eq!(e.loop_id.as_deref(), Some("L"));
    assert_eq!(e.loop_edge_kind, Some(ParsedLoopEdgeKind::Break));
    assert_eq!(e.loop_entry_block.as_deref(), Some("bb1"));

    let e = parse_core_edge("loop_exit:condition:bb1:bb4");
    assert_eq!(e.target, "bb4");
    assert!(e.loop_id.is_none());
    assert_eq!(e.loop_edge_kind, Some(ParsedLoopEdgeKind::Condition));
    assert_eq!(e.loop_entry_block.as_deref(), Some("bb1"));

    let e = parse_core_edge("loop_exit:odd:bb1");
    assert_eq!(e.target, "odd_exit");
    assert!(e.loop_edge_kind.is_none());
    assert_eq!(e.loop_entry_block.as_deref(), Some("bb1"));

    let e = parse_core_edge("loop_exit:break");
    assert_eq!(e.target, "loop_exit:break");
    assert!(e.loop_entry_block.is_none());

    assert_eq!(parse_core_edge("return").target, "return");
    assert_eq!(ParsedLoopEdgeKind::Continue.as_str(), "continue");
}

#[test]
fn block_index_reads_bb_numbers() {
    assert_eq!(block_index("bb12"), Some(12));
    assert_eq!(block_index("bb+3"), Some(3));
    assert_eq!(block_index("bb"), None);
    assert_eq!(block_index("b12"), None);
    assert_eq!(block_index("bb1x"), None);
}

fn edge(id: &str, from: &str, to: &str, kind: Option<&str>, loop_id: Option<&str>, entry: Option<&str>) -> CoreCfgEdge {
    CoreCfgEdge {
        id: id.to_string(),
        function: "f".to_string(),
        from: from.to_string(),
        to: to.to_string(),
        kind: "goto".to_string(),
        loop_id: loop_id.map(str::to_string),
        loop_label: None,
        loop_edge_kind: kind.map(str::to_string),
        loop_entry_block: entry.map(str::to_string),
        source_span: SourceSpan {
            path: "f.kobo".to_string(),
            line: 1,
            start: 0,
            end: 1,
            mapped: true,
            snippet: String::new(),
        },
    }
}

#[test]
fn back_edges_and_exits() {
    let legacy = edge("e1", "bb3", "bb1", None, None, None);
    assert!(is_legacy_back_edge(&legacy));
    assert!(is_loop_back_edge(&legacy));
    let forward = edge("e2", "bb1", "bb3", None, None, None);
    assert!(!is_loop_back_edge(&forward));
    let marked = edge("e3", "bb1", "bb3", Some("continue"), Some("L"), Some("bb1"));
    assert!(is_loop_back_edge(&marked));
    let exit = edge("e4", "bb2", "bb5", Some("break"), Some("L"), Some("bb1"));
    assert!(!is_loop_back_edge(&exit));
    assert_eq!(loop_exit_kind(&exit), Some("break"));
    assert_eq!(loop_exit_kind(&marked), None);

    let facts = core_loop_facts(&[forward, legacy, marked]);
    assert_eq!(facts.len(), 2);
    assert_eq!(facts[0].id, "loop-f-e1");
    assert_eq!(facts[0].loop_id, "legacy-f-bb1");
    assert_eq!(facts[0].entry_block, "bb1");
    assert_eq!(facts[1].loop_id, "L");

    let unkeyed = edge("e5", "bb2", "bb6", Some("condition"), None, Some("bb1"));
    let no_entry = edge("e6", "bb2", "bb7", Some("break"), Some("L"), None);
    let exits = core_loop_exit_facts(&[exit, unkeyed, no_entry]);
    assert_eq!(exits.len(), 2);
    assert_eq!(exits[0].id, "loop-exit-f-e4");
    assert_eq!(exits[0].exit_kind, "break");
    assert_eq!(exits[1].loop_id, "legacy-f-bb1");
    assert_eq!(exits[1].exit_kind, "condition");
    assert_eq!(exits[1].exit_target, "bb6");
}

#[test]
fn cfg_edges_and_nodes_carry_ids_labels_and_spans() {
    let source = "fn f() {\n  loop { }\n}\n";
    let functions = vec![CoreFunction {
        name: "f".to_string(),
        blocks: vec![
            block("bb0", vec![terminator("t0", "goto", &["goto:bb1"], 9)]),
            block("bb1", vec![terminator("t1", "loop", &["loop_back:L1:bb1", "loop_exit:break:L1:bb1:bb2"], 11)]),
            block("bb2", vec![terminator("t2", "return", &["return"], 200)]),
        ],
    }];
    let labels = loop_labels_by_id(&program(vec![
        ScenarioOperation { kind: ScenarioOpKind::LoopStart { loop_id: "L1".to_string(), label: None }, span: span(0, 0) },
        ScenarioOperation { kind: ScenarioOpKind::LoopStart { loop_id: "L1".to_string(), label: Some("outer".to_string()) }, span: span(0, 0) },
    ]));
    let edges = core_cfg_edges("f.kobo", source, &functions, &labels);
    assert_eq!(edges.len(), 4);
    assert_eq!(edges[0].id, "f:bb0:t0:0");
    assert_eq!(edges[0].to, "bb1");
    assert_eq!(edges[0].source_span.line, 2);
    assert_eq!(edges[0].source_span.snippet, "loop { }");
    assert_eq!(edges[1].id, "f:bb1:t1:0");
    assert_eq!(edges[1].loop_label.as_deref(), Some("outer"));
    assert_eq!(edges[1].loop_edge_kind.as_deref(), Some("back_edge"));
    assert_eq!(edges[2].id, "f:bb1:t1:1");
    assert_eq!(edges[2].to, "bb2");
    assert_eq!(edges[2].loop_edge_kind.as_deref(), Some("break"));
    assert_eq!(edges[3].kind, "return");
    assert_eq!(edges[3].source_span.start, source.len());
    assert_eq!(edges[3].source_span.end, source.len());
    assert!(!edges[3].source_span.mapped);

    let nodes = core_cfg_nodes("f.kobo", source, &functions);
    assert_eq!(nodes.len(), 3);
    assert_eq!(nodes[1].id, "bb1");
    assert_eq!(nodes[1].source_span.start, 11);
    assert_eq!(nodes[1].source_span.end, 12);

    let facts = core_loop_facts(&edges);
    assert_eq!(facts.len(), 1);
    let region = loop_region_blocks(&functions[0], &edges, &facts[0]);
    assert_eq!(region, vec!["bb1".to_string()]);
    let index = LoopRegionIndex::from_core(&functions, &edges, &facts);
    assert_eq!(index.loop_regions_for_block("f", "bb1"), vec!["L1".to_string()]);
    assert!(index.loop_regions_for_block("f", "bb2").is_empty());
}

#[test]
fn loop_region_follows_forward_edges_inside_the_loop() {
    let functions = vec![CoreFunction {
        name: "g".to_string(),
        blocks: vec![
            block("bb0", vec![terminator("t0", "goto", &["goto:bb1"], 0)]),
            block("bb1", vec![terminator("t1", "switch", &["goto:bb2", "loop_exit:condition:L:bb1:bb4"], 0)]),
            block("bb2", vec![terminator("t2", "goto", &["goto:bb3", "goto:exit"], 0)]),
            block("bb3", vec![terminator("t3", "goto", &["loop_back:L:bb1"], 0)]),
            block("bb4", vec![terminator("t4", "return", &["return"], 0)]),
        ],
    }];
    let labels = loop_labels_by_id(&program(vec![]));
    let edges = core_cfg_edges("g.kobo", "x", &functions, &labels);
    let facts = core_loop_facts(&edges);
    assert_eq!(facts.len(), 1);
    assert_eq!(facts[0].loop_id, "L");
    let mut region = loop_region_blocks(&functions[0], &edges, &facts[0]);
    region.sort();
    assert_eq!(region, vec!["bb1".to_string(), "bb2".to_string(), "bb3".to_string()]);
}

#[test]
fn block_span_prefers_statements_then_terminators() {
    let mut b = block("bb0", vec![terminator("t", "goto", &[], 5)]);
    assert_eq!(block_span(&b), span(5, 6));
    b.statements.push(CoreStatement {
        id: "stmt-0".to_string(),
        kind: CoreStatementKind::Call,
        binding: None,
        action: None,
        source_span: span(2, 3),
    });
    assert_eq!(block_span(&b), span(2, 3));
    assert_eq!(block_span(&block("bb9", vec![])), span(0, 0));
}
