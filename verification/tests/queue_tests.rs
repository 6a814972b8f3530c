use halt::queue::{BackpressureQueue, Priority, Task};

fn task(id: u128, name: &str, priority: Priority) -> Task {
    Task { id, name: name.to_string(), priority, payload: format!("{{\"id\": {}}}", id) }
}

#[test]
fn queue_pops_high_priority_first() {
    let mut q = BackpressureQueue::new(1000);
    q.push(task(1, "Low Priority Logging", Priority::Low)).unwrap();
    q.push(task(2, "High Priority Reasoning", Priority::High)).unwrap();
    q.push(task(3, "Standard", Priority::Medium)).unwrap();
    assert_eq!(q.pop().unwrap().name, "High Priority Reasoning");
    assert_eq!(q.pop().unwrap().name, "Standard");
    assert_eq!(q.pop().unwrap().name, "Low Priority Logging");
    assert_eq!(q.pop(), None);
}

#[test]
fn queue_refuses_when_full() {
    let mut q = BackpressureQueue::new(2);
    assert_eq!(q.push(task(1, "a", Priority::Low)), Ok(()));
    assert_eq!(q.push(task(2, "b", Priority::Low)), Ok(()));
    assert_eq!(q.push(task(3, "c", Priority::High)), Err("Queue at capacity".to_string()));
    assert_eq!(q.len(), 2);
    let first = q.pop().unwrap();
    assert_eq!(first.priority, Priority::Low);
    assert_eq!(q.push(task(3, "c", Priority::High)), Ok(()));
    assert_eq!(q.pop().unwrap().id, 3);
}

#[test]
fn queue_zero_capacity_refuses_everything() {
    let mut q = BackpressureQueue::new(0);
    assert!(q.push(task(1, "a", Priority::High)).is_err());
    assert_eq!(q.pop(), None);
}

#[test]
fn queue_holds_equal_tasks_once() {
    let mut q = BackpressureQueue::new(10);
    q.push(task(7, "same", Priority::Medium)).unwrap();
    q.push(task(7, "same", Priority::Medium)).unwrap();
    assert_eq!(q.len(), 1);
    q.push(task(7, "other name", Priority::Medium)).unwrap();
    assert_eq!(q.len(), 2);
}

#[test]
fn queue_push_then_pop_round_trip() {
    let mut q = BackpressureQueue::new(1);
    let t = task(42, "only", Priority::Medium);
    q.push(t.clone()).unwrap();
    assert_eq!(q.pop(), Some(t));
    assert_eq!(q.len(), 0);
}

#[test]
fn priority_levels() {
    assert_eq!(Priority::Low.level(), 0);
    assert_eq!(Priority::Medium.level(), 1);
    assert_eq!(Priority::High.level(), 2);
    assert_eq!(Priority::from_level(2), Some(Priority::High));
    assert_eq!(Priority::from_level(0), Some(Priority::Low));
    assert_eq!(Priority::from_level(3), None);
    assert!(Priority::Low < Priority::Medium && Priority::Medium < Priority::High);
}

#[test]
fn queue_drains_in_priority_order() {
    let mut q = BackpressureQueue::new(10);
    let levels = [Priority::Low, Priority::High, Priority::Medium, Priority::High, Priority::Low, Priority::Medium];
    for (i, p) in levels.iter().enumerate() {
        q.push(task(i as u128, "t", *p)).unwrap();
    }
    let mut drained = Vec::new();
    while let Some(t) = q.pop() {
        drained.push(t);
    }
    assert_eq!(drained.len(), levels.len());
    for w in drained.windows(2) {
        assert!(w[0].priority as u8 >= w[1].priority as u8);
    }
    let mut ids: Vec<u128> = drained.iter().map(|t| t.id).collect();
    ids.sort();
    assert_eq!(ids, vec![0, 1, 2, 3, 4, 5]);
}
