use halt::breaker::{AgentStatus, CircuitBreaker};

const SECOND: i128 = 1_000_000_000;
const T0: i128 = 1_700_000_000 * SECOND;
const TRIPPED: &str = "Cooling Down: Recursive loop detected. Breaker tripped.";

#[test]
fn breaker_trips_at_threshold() {
    let mut b = CircuitBreaker::new(2, 30);
    assert_eq!(b.register_call_at("A", "B", false, T0), Ok(()));
    assert_eq!(b.register_call_at("A", "B", false, T0 + SECOND), Ok(()));
    assert_eq!(b.register_call_at("A", "B", false, T0 + 2 * SECOND), Err(TRIPPED.to_string()));
}

#[test]
fn breaker_refusal_persists_within_window() {
    let mut b = CircuitBreaker::new(1, 30);
    assert_eq!(b.register_call_at("A", "B", false, T0), Ok(()));
    assert!(b.register_call_at("A", "B", false, T0).is_err());
    assert!(b.register_call_at("A", "B", true, T0).is_err());
    assert!(b.register_call_at("A", "B", false, T0 + 29 * SECOND).is_err());
}

#[test]
fn breaker_terminal_calls_do_not_count() {
    let mut b = CircuitBreaker::new(2, 30);
    for i in 0..10 {
        assert_eq!(b.register_call_at("A", "B", true, T0 + i), Ok(()));
    }
    assert_eq!(b.register_call_at("A", "B", false, T0 + 10), Ok(()));
    assert_eq!(b.register_call_at("A", "B", false, T0 + 11), Ok(()));
    assert!(b.register_call_at("A", "B", true, T0 + 12).is_err());
}

#[test]
fn breaker_calls_age_out_of_window() {
    let mut b = CircuitBreaker::new(2, 30);
    assert_eq!(b.register_call_at("A", "B", false, T0), Ok(()));
    assert_eq!(b.register_call_at("A", "B", false, T0), Ok(()));
    // Exactly at the window's start the old calls are no longer after it.
    assert_eq!(b.register_call_at("A", "B", false, T0 + 30 * SECOND), Ok(()));
    // One nanosecond before, they still were.
    let mut c = CircuitBreaker::new(2, 30);
    assert_eq!(c.register_call_at("A", "B", false, T0), Ok(()));
    assert_eq!(c.register_call_at("A", "B", false, T0), Ok(()));
    assert!(c.register_call_at("A", "B", false, T0 + 30 * SECOND - 1).is_err());
}

#[test]
fn breaker_pairs_are_independent() {
    let mut b = CircuitBreaker::new(1, 30);
    assert_eq!(b.register_call_at("A", "B", false, T0), Ok(()));
    assert!(b.register_call_at("A", "B", false, T0).is_err());
    assert_eq!(b.register_call_at("B", "A", false, T0), Ok(()));
    assert_eq!(b.register_call_at("A", "C", false, T0), Ok(()));
}

#[test]
fn breaker_zero_threshold_refuses_everything() {
    let mut b = CircuitBreaker::new(0, 30);
    assert_eq!(b.register_call_at("A", "B", true, T0), Err(TRIPPED.to_string()));
}

#[test]
fn breaker_negative_window_drops_all_history() {
    let mut b = CircuitBreaker::new(1, -5);
    assert_eq!(b.register_call_at("A", "B", false, T0), Ok(()));
    assert_eq!(b.register_call_at("A", "B", false, T0), Ok(()));
}

#[test]
fn breaker_example_calls_within_one_second() {
    // Three calls, the last one terminal, stay below a threshold of five.
    let mut b = CircuitBreaker::new(5, 30);
    for i in 0..3 {
        assert_eq!(b.register_call_at("AgentA", "AgentB", i == 2, T0 + i as i128), Ok(()));
    }
    for i in 3..6 {
        assert_eq!(b.register_call_at("AgentA", "AgentB", false, T0 + i), Ok(()));
    }
    assert_eq!(b.register_call_at("AgentA", "AgentB", false, T0 + 6), Err(TRIPPED.to_string()));
}

#[test]
fn agent_status_values() {
    assert_ne!(AgentStatus::Processing, AgentStatus::Terminal);
    assert_eq!(AgentStatus::CoolingDown, AgentStatus::CoolingDown);
}

#[test]
fn breaker_counts_calls_in_window() {
    let mut b = CircuitBreaker::new(10, 30);
    assert_eq!(b.calls_in_window_at("A", "B", T0), 0);
    b.register_call_at("A", "B", false, T0).unwrap();
    b.register_call_at("A", "B", true, T0 + 10 * SECOND).unwrap();
    b.register_call_at("B", "A", false, T0 + 10 * SECOND).unwrap();
    assert_eq!(b.calls_in_window_at("A", "B", T0 + 20 * SECOND), 2);
    assert_eq!(b.calls_in_window_at("A", "B", T0 + 30 * SECOND), 1);
    assert_eq!(b.calls_in_window_at("A", "B", T0 + 40 * SECOND), 0);
    assert_eq!(b.calls_in_window_at("B", "A", T0 + 20 * SECOND), 1);
}

#[test]
fn breaker_window_validity() {
    assert!(CircuitBreaker::new(5, 30).window_is_valid());
    assert!(CircuitBreaker::new(5, -9_223_372_036_854_775).window_is_valid());
    assert!(!CircuitBreaker::new(5, 9_223_372_036_854_776).window_is_valid());
    assert!(!CircuitBreaker::new(5, i64::MIN).window_is_valid());
}

#[test]
fn breaker_accepts_at_most_threshold_calls_in_any_window() {
    let mut b = CircuitBreaker::new(3, 10);
    let mut accepted: Vec<i128> = Vec::new();
    for i in 0..60 {
        let now = T0 + i * SECOND / 2;
        if b.register_call_at("A", "B", false, now).is_ok() {
            accepted.push(now);
        }
    }
    assert!(!accepted.is_empty());
    for &end in &accepted {
        let inside = accepted.iter().filter(|&&t| end - 10 * SECOND < t && t <= end).count();
        assert!(inside <= 3);
    }
}

#[test]
fn breaker_refused_call_leaves_no_trace() {
    let mut with_refusal = CircuitBreaker::new(1, 10);
    let mut without = CircuitBreaker::new(1, 10);
    assert_eq!(with_refusal.register_call_at("A", "B", false, T0), Ok(()));
    assert_eq!(without.register_call_at("A", "B", false, T0), Ok(()));
    assert!(with_refusal.register_call_at("A", "B", false, T0 + 5 * SECOND).is_err());
    for i in 6..30 {
        let now = T0 + i * SECOND;
        assert_eq!(
            with_refusal.register_call_at("A", "B", false, now),
            without.register_call_at("A", "B", false, now)
        );
    }
}

#[test]
fn breaker_allows_again_once_accepted_calls_leave_the_window() {
    let mut b = CircuitBreaker::new(1, 10);
    assert_eq!(b.register_call_at("A", "B", false, T0), Ok(()));
    for i in 1..10 {
        assert!(b.register_call_at("A", "B", false, T0 + i * SECOND).is_err());
    }
    assert_eq!(b.register_call_at("A", "B", false, T0 + 10 * SECOND), Ok(()));
}
