use halt::backoff::ExponentialBackoffBreaker;

const SECOND: i128 = 1_000_000_000;
const T0: i128 = 1_700_000_000 * SECOND;

#[test]
fn backoff_fifth_call_trips() {
    let mut b = ExponentialBackoffBreaker::new();
    for i in 0..4 {
        assert_eq!(b.register_call_at("A", "B", false, T0 + i), Ok(()));
    }
    assert_eq!(b.register_call_at("A", "B", false, T0 + 4), Err("Circuit breaker tripped".to_string()));
}

#[test]
fn backoff_blocks_for_two_to_the_count_seconds() {
    let mut b = ExponentialBackoffBreaker::new();
    for _ in 0..4 {
        b.register_call_at("A", "B", false, T0).unwrap();
    }
    assert!(b.register_call_at("A", "B", false, T0).is_err());
    // Count is 5: backoff of 32 seconds from the trip.
    let refused = "Circuit breaker tripped - exponential backoff active".to_string();
    assert_eq!(b.check_call_at("A", "B", T0), Err(refused.clone()));
    assert_eq!(b.check_call_at("A", "B", T0 + 32 * SECOND - 1), Err(refused));
    assert_eq!(b.check_call_at("A", "B", T0 + 32 * SECOND), Ok(()));
    // A sixth call doubles the backoff and moves the trip.
    assert!(b.register_call_at("A", "B", false, T0 + 100 * SECOND).is_err());
    assert!(b.check_call_at("A", "B", T0 + 163 * SECOND).is_err());
    assert_eq!(b.check_call_at("A", "B", T0 + 164 * SECOND), Ok(()));
}

#[test]
fn backoff_counts_without_trip_do_not_block() {
    let mut b = ExponentialBackoffBreaker::new();
    b.register_call_at("A", "B", false, T0).unwrap();
    assert_eq!(b.check_call_at("A", "B", T0), Ok(()));
}

#[test]
fn backoff_terminal_call_clears() {
    let mut b = ExponentialBackoffBreaker::new();
    for _ in 0..4 {
        b.register_call_at("A", "B", false, T0).unwrap();
    }
    assert!(b.register_call_at("A", "B", false, T0).is_err());
    assert_eq!(b.register_call_at("A", "B", true, T0), Ok(()));
    assert_eq!(b.check_call_at("A", "B", T0), Ok(()));
    assert_eq!(b.stats().active_breakers, 0);
}

#[test]
fn backoff_reset_clears() {
    let mut b = ExponentialBackoffBreaker::new();
    for _ in 0..4 {
        b.register_call_at("A", "B", false, T0).unwrap();
    }
    assert!(b.register_call_at("A", "B", false, T0).is_err());
    assert_eq!(b.reset("A", "B"), Ok(()));
    assert_eq!(b.check_call_at("A", "B", T0), Ok(()));
    assert_eq!(b.register_call_at("A", "B", false, T0), Ok(()));
}

#[test]
fn backoff_pairs_are_separate_even_when_texts_coincide() {
    let mut b = ExponentialBackoffBreaker::new();
    // ("a->", "b") and ("a", "->b") are different pairs, though both read "a->->b".
    for _ in 0..2 {
        b.register_call_at("a->", "b", false, T0).unwrap();
        b.register_call_at("a", "->b", false, T0).unwrap();
    }
    assert_eq!(b.register_call_at("a->", "b", false, T0), Ok(()));
    assert_eq!(b.call_count("a->", "b"), 3);
    assert_eq!(b.call_count("a", "->b"), 2);
    assert_eq!(b.reset("a", "->b"), Ok(()));
    assert_eq!(b.call_count("a", "->b"), 0);
    assert_eq!(b.call_count("a->", "b"), 3);
    let stats = b.stats();
    assert_eq!(stats.active_breakers, 1);
    assert_eq!(stats.call_counts, vec![("a->->b".to_string(), 3)]);
}

#[test]
fn backoff_reset_touches_only_its_pair() {
    let mut b = ExponentialBackoffBreaker::new();
    b.register_call_at("a->b", "c", false, T0).unwrap();
    assert_eq!(b.reset("a", "b->c"), Ok(()));
    assert_eq!(b.call_count("a->b", "c"), 1);
}

#[test]
fn backoff_stats_lists_counts() {
    let mut b = ExponentialBackoffBreaker::new();
    b.register_call_at("A", "B", false, T0).unwrap();
    b.register_call_at("A", "B", false, T0).unwrap();
    b.register_call_at("C", "D", false, T0).unwrap();
    let mut counts = b.stats().call_counts;
    counts.sort();
    assert_eq!(counts, vec![("A->B".to_string(), 2), ("C->D".to_string(), 1)]);
}

#[test]
fn backoff_metadata() {
    let b = ExponentialBackoffBreaker::new();
    let m = b.metadata();
    assert_eq!(m.name, "exponential_backoff");
    assert_eq!(m.version, "1.0.0");
    assert_eq!(m.description, "Circuit breaker with exponential backoff");
    assert_eq!(m.author, "Halt.rs Team");
    assert_eq!(m.capabilities, vec!["circuit_breaker".to_string()]);
}

#[test]
fn backoff_refuses_right_after_the_trip() {
    let mut b = ExponentialBackoffBreaker::new();
    for i in 0..4 {
        assert_eq!(b.register_call_at("X", "Y", false, T0 + i), Ok(()));
    }
    assert!(b.register_call_at("X", "Y", false, T0 + 4).is_err());
    assert!(b.check_call_at("X", "Y", T0 + 5).is_err());
}

#[test]
fn backoff_counts_and_range() {
    let mut b = ExponentialBackoffBreaker::new();
    assert_eq!(b.call_count("A", "B"), 0);
    assert!(b.backoff_computable("A", "B"));
    for _ in 0..53 {
        let _ = b.register_call_at("A", "B", false, T0);
    }
    assert_eq!(b.call_count("A", "B"), 53);
    assert!(b.backoff_computable("A", "B"));
    let _ = b.register_call_at("A", "B", false, T0);
    assert_eq!(b.call_count("A", "B"), 54);
    assert!(!b.backoff_computable("A", "B"));
}

#[test]
fn backoff_tripped_pair_stays_tripped_until_cleared() {
    let mut b = ExponentialBackoffBreaker::new();
    for _ in 0..4 {
        b.register_call_at("A", "B", false, T0).unwrap();
    }
    let tripped = Err("Circuit breaker tripped".to_string());
    for i in 0..5 {
        assert_eq!(b.register_call_at("A", "B", false, T0 + i * 1000 * SECOND), tripped.clone());
    }
    assert_eq!(b.register_call_at("A", "C", false, T0), Ok(()));
    assert_eq!(b.register_call_at("A", "B", false, T0), tripped);
    b.register_call_at("A", "B", true, T0).unwrap();
    assert_eq!(b.register_call_at("A", "B", false, T0), Ok(()));
}
