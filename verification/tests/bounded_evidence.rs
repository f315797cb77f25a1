use kobo_driver::bounded::{
    bounded_classification_input, bounded_evidence_from_fields, bounded_history_exploration, bounded_inputs,
    BoundedCompleteness, FieldMap,
};
use kobo_driver::core_cfg::{CoreLoopBackEdgeFact, CoreLoopExitFact};
use kobo_driver::source_spans::SourceSpan;

fn fields(pairs: &[(&str, &str)]) -> FieldMap {
    let mut map = FieldMap::new();
    for (k, v) in pairs {
        map.insert(k.to_string(), v.to_string());
    }
    map
}

fn span() -> SourceSpan {
    SourceSpan { path: "a.kobo".to_string(), line: 1, start: 0, end: 1, mapped: true, snippet: String::new() }
}

fn back(id: &str, function: &str) -> CoreLoopBackEdgeFact {
    CoreLoopBackEdgeFact {
        id: id.to_string(),
        function: function.to_string(),
        loop_id: "L".to_string(),
        loop_label: None,
        entry_block: "bb1".to_string(),
        back_edge_source: "bb2".to_string(),
        back_edge_target: "bb1".to_string(),
        source_span: span(),
    }
}

fn exit(id: &str, function: &str) -> CoreLoopExitFact {
    CoreLoopExitFact {
        id: id.to_string(),
        function: function.to_string(),
        loop_id: "L".to_string(),
        loop_label: None,
        entry_block: "bb1".to_string(),
        exit_source: "bb1".to_string(),
        exit_kind: "break".to_string(),
        exit_target: "bb3".to_string(),
        source_span: span(),
    }
}

#[test]
fn bounded_inputs_read_defaults_and_lists() {
    let inputs = bounded_inputs(&fields(&[]));
    assert_eq!(inputs.history_bound, 0);
    assert_eq!(inputs.loop_iteration_bound, 1);
    assert_eq!(inputs.unique_history_count, None);
    assert_eq!(inputs.declared_completeness, BoundedCompleteness::Sampled);
    assert!(inputs.scheduler_dimensions.is_empty());
    let inputs = bounded_inputs(&fields(&[
        ("histories", "12"),
        ("loop_iterations", "3"),
        ("unique_histories", "10"),
        ("expected", "12"),
        ("completeness", "complete"),
        ("scheduler", "fifo | lifo"),
        ("fault", "drop"),
        ("cancellation", "a,b"),
        ("messages", "4"),
    ]));
    assert_eq!(inputs.history_bound, 12);
    assert_eq!(inputs.loop_iteration_bound, 3);
    assert_eq!(inputs.unique_history_count, Some(10));
    assert_eq!(inputs.declared_expected, Some(12));
    assert_eq!(inputs.declared_completeness, BoundedCompleteness::Complete);
    assert_eq!(inputs.scheduler_dimensions, vec!["fifo".to_string(), "lifo".to_string()]);
    assert_eq!(inputs.cancellation_points, vec!["a".to_string(), "b".to_string()]);
    assert_eq!(inputs.required_dimensions.message_count, Some(4));
    assert_eq!(inputs.required_dimensions.queue_capacity, None);

    let exploration = bounded_history_exploration("f", vec![1, 2, 3], 6, true, None);
    let input = bounded_classification_input(&inputs, &exploration);
    assert_eq!(input.declared, BoundedCompleteness::Complete);
    assert_eq!(input.declared_expected, Some(12));
    assert!(input.is_complete);
    assert_eq!(input.expected_complete_history_count, 6);
    assert_eq!(input.enumerated_history_count, 3);
    assert!(input.has_scheduler_dimensions && input.has_fault_dimensions && input.has_cancellation_points);
    assert!(!input.has_required_dimensions);
}

#[test]
fn bounded_evidence_collects_the_function_loops() {
    let inputs = bounded_inputs(&fields(&[("fault", "drop"), ("loop_iterations", "2")]));
    let exploration = bounded_history_exploration("f", vec!['x', 'y'], 2, true, None);
    let evidence = bounded_evidence_from_fields(
        "f",
        &[back("b1", "f"), back("b2", "g"), back("b3", "f")],
        &[exit("e1", "g"), exit("e2", "f")],
        inputs,
        exploration,
    );
    assert_eq!(evidence.id, "bounded-f");
    assert_eq!(evidence.function, "f");
    assert_eq!(evidence.loop_ids, vec!["b1".to_string(), "b3".to_string(), "e2".to_string()]);
    assert_eq!(evidence.enumerated_history_count, 2);
    assert_eq!(evidence.expected_complete_history_count, Some(2));
    assert_eq!(evidence.canonical_histories, vec!['x', 'y']);
    assert_eq!(evidence.fault_dimensions, vec!["drop".to_string()]);
    assert!(evidence.normalized_bound_hash.is_empty());
    assert_eq!(evidence.completeness, BoundedCompleteness::Sampled);
    assert_eq!(evidence.wording, "evidence only: 2 sampled histories, state space incomplete");
    assert_eq!(evidence.bounds.len(), 3);
    assert_eq!(evidence.bounds[0].value, 2);
    assert_eq!(evidence.bounds[1].value, 2);
}

#[test]
fn duplicate_inflated_exploration_is_worded_as_evidence_only() {
    let fields_of = || fields(&[("completeness", "complete"), ("scheduler", "fifo"), ("fault", "drop"), ("cancellation", "a")]);
    let pruned = bounded_history_exploration("f", vec![1, 2], 1, true, Some(1));
    let evidence = bounded_evidence_from_fields("f", &[], &[], bounded_inputs(&fields_of()), pruned);
    assert_eq!(evidence.enumerated_history_count, 1);
    assert_eq!(evidence.completeness, BoundedCompleteness::Incomplete);
    assert_eq!(evidence.wording, "evidence only: 1 sampled histories, state space incomplete");

    let full = bounded_history_exploration("f", vec![1], 1, true, None);
    let proved = bounded_evidence_from_fields("f", &[], &[], bounded_inputs(&fields_of()), full);
    assert_eq!(proved.completeness, BoundedCompleteness::Complete);
    assert_eq!(proved.wording, "bounded proof: all 1 histories explored under declared bounds");

    let timed_out = bounded_history_exploration("f", vec![1], 1, false, None);
    let partial = bounded_evidence_from_fields("f", &[], &[], bounded_inputs(&fields_of()), timed_out);
    assert_eq!(partial.completeness, BoundedCompleteness::Incomplete);
    assert!(partial.wording.starts_with("evidence only"));
}
