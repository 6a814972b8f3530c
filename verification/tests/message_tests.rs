use halt::messages::{
    check_breaker_message, configure_breaker_message, configure_queue_capacity_message, halt_check_loop,
    log_interaction_message, push_task_message, register_call_message, reset_breaker_message,
};

#[test]
fn loop_check_message() {
    assert_eq!(halt_check_loop("A".to_string(), "B".to_string()), "Checking loop from A to B");
}

#[test]
fn breaker_messages() {
    assert_eq!(check_breaker_message("A", "B"), "Agent A -> B: OK");
    assert_eq!(register_call_message("A", "B", true), "Registered: A -> B (terminal: true)");
    assert_eq!(register_call_message("A", "B", false), "Registered: A -> B (terminal: false)");
    assert_eq!(reset_breaker_message("A", "B"), "Reset breaker: A -> B");
}

#[test]
fn number_messages() {
    assert_eq!(push_task_message("Reasoning", 2), "Pushed task: Reasoning (priority: 2)");
    assert_eq!(push_task_message("T", -17), "Pushed task: T (priority: -17)");
    assert_eq!(configure_breaker_message(5, 30), "Configured breaker: threshold=5, window=30s");
    assert_eq!(configure_queue_capacity_message(0), "Configured queue capacity: 0");
    assert_eq!(configure_queue_capacity_message(1000), "Configured queue capacity: 1000");
    assert_eq!(configure_queue_capacity_message(i32::MIN), format!("Configured queue capacity: {}", i32::MIN));
    assert_eq!(configure_queue_capacity_message(i32::MAX), format!("Configured queue capacity: {}", i32::MAX));
}

#[test]
fn interaction_message() {
    assert_eq!(log_interaction_message("A", "B", "t1,t2"), "Logged: A -> B (tokens: t1,t2)");
}
