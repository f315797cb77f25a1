use kobo_driver::guard::StrictGuardCounter;

#[test]
fn guard_counter_counts_from_zero() {
    let mut counter = StrictGuardCounter::new();
    assert_eq!(counter.next(), 0);
    assert_eq!(counter.next(), 1);
    assert_eq!(counter.next(), 2);
}

#[test]
fn guard_counter_default_matches_new() {
    let mut counter = StrictGuardCounter::default();
    assert_eq!(counter.next(), 0);
}
