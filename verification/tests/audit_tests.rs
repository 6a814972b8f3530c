use halt::audit::AuditLogger;

fn strings(v: &[&str]) -> Vec<String> {
    v.iter().map(|s| s.to_string()).collect()
}

#[test]
fn audit_files_edges_under_source() {
    let mut log = AuditLogger::new();
    log.log_interaction_at("AgentA", "AgentB", strings(&["token_abc", "token_def"]), 10);
    log.log_interaction_at("AgentB", "AgentC", strings(&["token_ghi"]), 20);
    log.log_interaction_at("AgentA", "AgentC", vec![], 30);
    let mut snap = log.snapshot();
    snap.sort_by(|a, b| a.0.cmp(&b.0));
    assert_eq!(snap.len(), 2);
    assert_eq!(snap[0].0, "AgentA");
    assert_eq!(snap[0].1.len(), 2);
    assert_eq!(snap[0].1[0].to, "AgentB");
    assert_eq!(snap[0].1[0].token_path, strings(&["token_abc", "token_def"]));
    assert_eq!(snap[0].1[0].timestamp, 10);
    assert_eq!(snap[0].1[1].to, "AgentC");
    assert_eq!(snap[0].1[1].timestamp, 30);
    assert_eq!(snap[1].0, "AgentB");
    assert_eq!(snap[1].1[0].from, "AgentB");
    assert_eq!(snap[1].1[0].token_path, strings(&["token_ghi"]));
}

#[test]
fn audit_empty_log_has_no_entries() {
    let log = AuditLogger::new();
    assert!(log.snapshot().is_empty());
}

#[test]
fn audit_log_keeps_logging_order() {
    let mut log = AuditLogger::new();
    log.log_interaction_at("A", "B", strings(&["t"]), 1_700_000_000_000_000_000);
    log.log_interaction_at("A", "B", strings(&["u"]), 1_700_000_000_000_000_001);
    let snap = log.snapshot();
    assert_eq!(snap.len(), 1);
    assert_eq!(snap[0].1.len(), 2);
    assert!(snap[0].1[0].timestamp <= snap[0].1[1].timestamp);
    assert!(snap[0].1[0].timestamp > 0);
}
