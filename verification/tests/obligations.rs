use kobo_driver::core_cfg::{CoreBlock, CoreFunction, CoreStatement, CoreStatementKind, CoreTerminator};
use kobo_driver::obligations::{
    apply_obligation_statement, block_successor_targets, is_back_edge_between_blocks,
    merge_block_entry_env, modeled_exit_target, obligation_event_kind, ObligationEnv,
    ObligationEventKind, ObligationStatus,
};
use kobo_driver::replay::{env_states, function_obligation_replay, merge_terminal_envs};
use kobo_driver::scenario::KoboSpan;

fn statement(kind: CoreStatementKind, binding: Option<&str>) -> CoreStatement {
    CoreStatement {
        id: "stmt-0".to_string(),
        kind,
        binding: binding.map(str::to_string),
        action: None,
        source_span: KoboSpan { file_id: 0, start: 0, end: 0 },
    }
}

fn block(id: &str, statements: Vec<CoreStatement>, edges: &[&str]) -> CoreBlock {
    CoreBlock {
        id: id.to_string(),
        statements,
        terminators: vec![CoreTerminator {
            id: format!("t-{id}"),
            kind: "goto".to_string(),
            edges: edges.iter().map(|e| e.to_string()).collect(),
            boundary: None,
            source_span: KoboSpan { file_id: 0, start: 0, end: 0 },
        }],
    }
}

fn states(env: &ObligationEnv) -> Vec<(String, ObligationStatus)> {
    env_states(env).into_iter().map(|s| (s.binding, s.state)).collect()
}

#[test]
fn env_keeps_bindings_sorted_and_overwrites() {
    let mut env = ObligationEnv::new();
    env.insert("b".to_string(), ObligationStatus::Owned);
    env.insert("a".to_string(), ObligationStatus::Moved);
    env.insert("c".to_string(), ObligationStatus::Escaped);
    env.insert("b".to_string(), ObligationStatus::Resolved);
    assert_eq!(
        states(&env),
        vec![
            ("a".to_string(), ObligationStatus::Moved),
            ("b".to_string(), ObligationStatus::Resolved),
            ("c".to_string(), ObligationStatus::Escaped),
        ]
    );
    assert_eq!(env.get("b"), Some(ObligationStatus::Resolved));
    assert_eq!(env.get("z"), None);
}

#[test]
fn statements_set_their_binding_state() {
    let mut env = ObligationEnv::new();
    apply_obligation_statement(&statement(CoreStatementKind::ObligationCreate, Some("x")), &mut env);
    assert_eq!(env.get("x"), Some(ObligationStatus::Owned));
    apply_obligation_statement(&statement(CoreStatementKind::ObligationTransfer, Some("x")), &mut env);
    assert_eq!(env.get("x"), Some(ObligationStatus::Transferred));
    apply_obligation_statement(&statement(CoreStatementKind::Call, Some("x")), &mut env);
    assert_eq!(env.get("x"), Some(ObligationStatus::Transferred));
    apply_obligation_statement(&statement(CoreStatementKind::ObligationDischarge, None), &mut env);
    assert_eq!(states(&env).len(), 1);
    assert_eq!(obligation_event_kind(&CoreStatementKind::UnsupportedContainer), Some(ObligationEventKind::UnsupportedContainer));
    assert_eq!(obligation_event_kind(&CoreStatementKind::ObligationEscape), Some(ObligationEventKind::Escape));
}

#[test]
fn merge_marks_disagreements_unresolved() {
    let mut current = ObligationEnv::new();
    current.insert("a".to_string(), ObligationStatus::Owned);
    current.insert("b".to_string(), ObligationStatus::Resolved);
    let mut incoming = ObligationEnv::new();
    incoming.insert("a".to_string(), ObligationStatus::Owned);
    incoming.insert("b".to_string(), ObligationStatus::Moved);
    incoming.insert("c".to_string(), ObligationStatus::Escaped);
    assert!(merge_block_entry_env(&mut current, &incoming));
    assert_eq!(
        states(&current),
        vec![
            ("a".to_string(), ObligationStatus::Owned),
            ("b".to_string(), ObligationStatus::BranchUnresolved),
            ("c".to_string(), ObligationStatus::Escaped),
        ]
    );
    assert!(!merge_block_entry_env(&mut current, &incoming));
}

#[test]
fn successor_targets_and_exits() {
    let b = block("bb0", vec![], &["goto:bb1", "loop_exit:break:L:bb0:bb5", "return"]);
    assert_eq!(block_successor_targets(&b), vec!["bb1".to_string(), "bb5".to_string(), "return".to_string()]);
    assert!(is_back_edge_between_blocks("bb3", "bb1"));
    assert!(is_back_edge_between_blocks("bb3", "bb3"));
    assert!(!is_back_edge_between_blocks("bb1", "bb3"));
    assert!(!is_back_edge_between_blocks("entry", "bb0"));
    assert!(modeled_exit_target("error_exit"));
    assert!(!modeled_exit_target("bb1"));
}

#[test]
fn replay_merges_branches_and_collects_terminal_envs() {
    let function = CoreFunction {
        name: "f".to_string(),
        blocks: vec![
            block("bb0", vec![statement(CoreStatementKind::ObligationCreate, Some("t"))], &["goto:bb1", "goto:bb2"]),
            block("bb1", vec![statement(CoreStatementKind::ObligationDischarge, Some("t"))], &["goto:bb3"]),
            block("bb2", vec![statement(CoreStatementKind::ObligationMove, Some("t"))], &["goto:bb3"]),
            block("bb3", vec![], &["return", "loop_back:L:bb0"]),
        ],
    };
    let replay = function_obligation_replay(&function);
    let entry0 = replay.block_entry_envs[0].as_ref().expect("entry block");
    assert!(states(entry0).is_empty());
    let entry1 = replay.block_entry_envs[1].as_ref().expect("bb1");
    assert_eq!(states(entry1), vec![("t".to_string(), ObligationStatus::Owned)]);
    let entry3 = replay.block_entry_envs[3].as_ref().expect("bb3");
    assert_eq!(states(entry3), vec![("t".to_string(), ObligationStatus::BranchUnresolved)]);
    assert_eq!(replay.terminal_envs.len(), 1);
    assert_eq!(states(&replay.terminal_envs[0]), vec![("t".to_string(), ObligationStatus::BranchUnresolved)]);
    let exit2 = replay.block_exit_envs[2].as_ref().expect("bb2 exit");
    assert_eq!(states(exit2), vec![("t".to_string(), ObligationStatus::Moved)]);
    let merged = merge_terminal_envs(&replay.terminal_envs);
    assert_eq!(states(&merged), vec![("t".to_string(), ObligationStatus::BranchUnresolved)]);
}

#[test]
fn replay_of_unreached_blocks_leaves_them_empty() {
    let function = CoreFunction {
        name: "g".to_string(),
        blocks: vec![
            block("bb0", vec![], &["return"]),
            block("bb1", vec![statement(CoreStatementKind::ObligationCreate, Some("x"))], &["goto:bb0"]),
        ],
    };
    let replay = function_obligation_replay(&function);
    assert!(replay.block_entry_envs[0].is_some());
    assert!(replay.block_entry_envs[1].is_none());
    assert_eq!(replay.terminal_envs.len(), 1);
    let empty = CoreFunction { name: "h".to_string(), blocks: vec![] };
    let replay = function_obligation_replay(&empty);
    assert!(replay.block_entry_envs.is_empty());
    assert!(replay.terminal_envs.is_empty());
}
