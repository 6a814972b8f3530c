use halt::backoff::ExponentialBackoffBreaker;
use halt::plugins::{PluginConfig, PluginLoader, PluginManager, PluginMetadata};

#[test]
fn manager_registers_and_replaces_by_name() {
    let mut m: PluginManager<u32, u64, i8> = PluginManager::new();
    m.register_circuit_breaker("cb".to_string(), 1);
    m.register_circuit_breaker("cb".to_string(), 2);
    m.register_queue("q".to_string(), 7);
    assert_eq!(m.get_circuit_breaker("cb"), Some(&2));
    assert_eq!(m.get_circuit_breaker("q"), None);
    assert_eq!(m.get_queue("q"), Some(&7));
    assert_eq!(m.get_auditor("q"), None);
    assert_eq!(m.circuit_breaker_entries().len(), 1);
    m.register_auditor("a".to_string(), -1);
    assert_eq!(m.get_auditor("a"), Some(&-1));
    assert_eq!(m.auditor_entries().len(), 1);
    assert_eq!(m.queue_entries().len(), 1);
}

#[test]
fn loader_registers_builtin_breaker() {
    let m: PluginManager<String, (), ()> =
        PluginLoader::load_from_directory("./plugins", |b| b.metadata().description).unwrap();
    assert_eq!(
        m.get_circuit_breaker("exponential_backoff"),
        Some(&"Circuit breaker with exponential backoff".to_string())
    );
    assert_eq!(m.circuit_breaker_entries().len(), 1);
    assert!(m.queue_entries().is_empty());
    assert!(m.auditor_entries().is_empty());
}

#[test]
fn config_default() {
    let c = PluginConfig::default();
    assert_eq!(c.enabled_plugins, vec!["exponential_backoff".to_string()]);
    assert_eq!(c.plugin_directory, Some("./plugins".to_string()));
    assert_eq!(c.plugin_settings.len(), 0);
}

fn described(name: &str) -> PluginMetadata {
    PluginMetadata {
        name: name.to_string(),
        version: "0.1.0".to_string(),
        description: String::new(),
        author: String::new(),
        capabilities: Vec::new(),
    }
}

#[test]
fn list_plugins_describes_each_plugin_by_kind() {
    let m: PluginManager<ExponentialBackoffBreaker, (), ()> =
        PluginLoader::load_from_directory("./missing", |b| b).unwrap();
    let list = m.list_plugins(|b| b.metadata(), |_| unreachable!(), |_| unreachable!());
    assert_eq!(list.circuit_breakers.len(), 1);
    let meta = &list.circuit_breakers[0];
    assert_eq!(meta.name, "exponential_backoff");
    assert_eq!(meta.version, "1.0.0");
    assert_eq!(meta.description, "Circuit breaker with exponential backoff");
    assert_eq!(meta.author, "Halt.rs Team");
    assert_eq!(meta.capabilities, ExponentialBackoffBreaker::new().metadata().capabilities);
    assert!(list.queues.is_empty());
    assert!(list.auditors.is_empty());
}

#[test]
fn list_plugins_holds_each_name_once() {
    let mut m: PluginManager<&str, &str, &str> = PluginManager::new();
    m.register_circuit_breaker("b1".to_string(), "b1");
    m.register_circuit_breaker("b2".to_string(), "b2");
    m.register_circuit_breaker("b1".to_string(), "b1");
    m.register_queue("q".to_string(), "q");
    m.register_auditor("a".to_string(), "a");
    let list = m.list_plugins(|p| described(p), |p| described(p), |p| described(p));
    let mut names: Vec<String> = list.circuit_breakers.iter().map(|d| d.name.clone()).collect();
    names.sort();
    assert_eq!(names, vec!["b1".to_string(), "b2".to_string()]);
    assert_eq!(list.queues.len(), 1);
    assert_eq!(list.queues[0].name, "q");
    assert_eq!(list.auditors.len(), 1);
    assert_eq!(list.auditors[0].name, "a");
}
