use kobo_driver::bounded::{
    bool_field, bound_declarations, bounded_completeness, bounded_history_exploration,
    dimension_values, first_numeric_field, numeric_field, push_bound_if_declared, string_field,
    BoundDeclaration, BoundDimension, BoundSource, BoundedCompleteness, FieldMap,
    RequiredBoundDimensions,
};

fn fields(pairs: &[(&str, &str)]) -> FieldMap {
    let mut map = FieldMap::new();
    for (k, v) in pairs {
        map.insert(k.to_string(), v.to_string());
    }
    map
}

fn ward(dimension: BoundDimension, value: u64) -> BoundDeclaration {
    BoundDeclaration { dimension, value, source: BoundSource::Ward, proof_relevant: true }
}

#[test]
fn field_lookups() {
    let f = fields(&[("id", ""), ("id", "c1"), ("flag", "true"), ("off", "false"), ("bad", "yes"), ("n", "+42"), ("m", "4x")]);
    assert_eq!(string_field(&f, "id"), Some("c1".to_string()));
    assert_eq!(string_field(&fields(&[("id", "")]), "id"), None);
    assert_eq!(bool_field(&f, "flag"), Some(true));
    assert_eq!(bool_field(&f, "off"), Some(false));
    assert_eq!(bool_field(&f, "bad"), None);
    assert_eq!(bool_field(&f, "missing"), None);
    assert_eq!(numeric_field(&f, "n"), Some(42));
    assert_eq!(numeric_field(&f, "m"), None);
    assert_eq!(numeric_field(&fields(&[("big", "18446744073709551616")]), "big"), None);
    assert_eq!(first_numeric_field(&f, &["m", "missing", "n"]), Some(42));
    assert_eq!(first_numeric_field(&f, &[]), None);
}

#[test]
fn dimension_lists_split_trim_and_drop_empties() {
    let f = fields(&[("scheduler", " fifo | lifo,, random |"), ("fault", "")]);
    assert_eq!(dimension_values(&f, "scheduler"), vec!["fifo".to_string(), "lifo".to_string(), "random".to_string()]);
    assert!(dimension_values(&f, "fault").is_empty());
    assert!(dimension_values(&f, "missing").is_empty());
}

#[test]
fn completeness_words() {
    assert_eq!(bounded_completeness(Some("complete")), BoundedCompleteness::Complete);
    assert_eq!(bounded_completeness(Some("timeout")), BoundedCompleteness::Timeout);
    assert_eq!(bounded_completeness(Some("incomplete")), BoundedCompleteness::Incomplete);
    assert_eq!(bounded_completeness(Some("sampled")), BoundedCompleteness::Sampled);
    assert_eq!(bounded_completeness(None), BoundedCompleteness::Sampled);
    assert_eq!(bounded_completeness(Some("whatever")), BoundedCompleteness::Incomplete);
}

#[test]
fn required_dimensions_and_declarations() {
    let f = fields(&[("queue_capacity", "4"), ("messages", "3"), ("retries", "2"), ("timeout_paths", "1"), ("external_boundaries", "5")]);
    let required = RequiredBoundDimensions::from_fields(&f);
    assert_eq!(required.queue_capacity, Some(4));
    assert_eq!(required.message_count, Some(3));
    assert_eq!(required.retry_attempts, Some(2));
    assert_eq!(required.timeout_paths, Some(1));
    assert_eq!(required.external_boundary_recordings, Some(5));
    assert!(required.has_all_required_dimensions());
    let partial = RequiredBoundDimensions::from_fields(&fields(&[("queue_capacity", "4")]));
    assert!(!partial.has_all_required_dimensions());

    let bounds = bound_declarations(10, 3, &["f1".to_string(), "f2".to_string()], &[], &partial);
    assert_eq!(
        bounds,
        vec![
            ward(BoundDimension::SchedulerHistories, 10),
            ward(BoundDimension::LoopIterations, 3),
            ward(BoundDimension::FaultInjectionChoices, 2),
            ward(BoundDimension::QueueCapacity, 4),
        ]
    );
    let mut more = Vec::new();
    push_bound_if_declared(&mut more, BoundDimension::TimeoutPaths, None);
    assert!(more.is_empty());
    push_bound_if_declared(&mut more, BoundDimension::TimeoutPaths, Some(7));
    assert_eq!(more, vec![ward(BoundDimension::TimeoutPaths, 7)]);
}

#[test]
fn history_pruning() {
    let exploration = bounded_history_exploration("f", vec![1, 2, 3, 4], 4, true, Some(2));
    assert_eq!(exploration.histories, vec![1, 2]);
    assert_eq!(exploration.enumerated_history_count, 2);
    assert_eq!(exploration.expected_complete_history_count, 4);
    assert_eq!(exploration.pruned_histories.len(), 1);
    assert_eq!(exploration.pruned_histories[0].id, "pruned-f");
    assert_eq!(exploration.pruned_histories[0].reason, "2 duplicate histories collapsed before completeness evaluation");
    assert!(!exploration.is_complete);

    let exploration = bounded_history_exploration("g", vec!['a'], 1, true, Some(3));
    assert_eq!(exploration.histories, vec!['a']);
    assert_eq!(exploration.pruned_histories[0].reason, "declared unique history count 3 exceeds 1 explored histories");
    assert!(!exploration.is_complete);

    let exploration = bounded_history_exploration("h", vec![0u8; 3], 3, true, Some(3));
    assert!(exploration.pruned_histories.is_empty());
    assert!(exploration.is_complete);
    let exploration = bounded_history_exploration("h", vec![0u8; 3], 5, false, None);
    assert!(!exploration.is_complete);
    assert_eq!(exploration.enumerated_history_count, 3);
}
