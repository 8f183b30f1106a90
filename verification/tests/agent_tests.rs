use saimiris_gateway::agent::{AgentConfig, AgentStore, HealthStatus};

const NOW: i64 = 1_700_000_000;

#[test]
fn test_agent_store_add_get() {
    let mut store = AgentStore::new();
    store
        .add_agent("agent1".to_string(), "secret1".to_string(), NOW)
        .unwrap();

    let agent = store.get("agent1").unwrap();
    assert_eq!(agent.id, "agent1");
    assert_eq!(agent.secret, "secret1");
    assert!(agent.config.is_none());
    assert!(agent.health.is_none());
}

#[test]
fn test_agent_store_update_config() {
    let mut store = AgentStore::new();
    store
        .add_agent("agent1".to_string(), "secret1".to_string(), NOW)
        .unwrap();

    let configs = vec![AgentConfig::default()];
    store.update_config("agent1", configs, NOW);

    let agent = store.get("agent1").unwrap();
    let stored = agent.config.as_ref().unwrap();
    assert_eq!(stored.len(), 1);
    assert_eq!(stored[0].batch_size, 1000);
    assert_eq!(stored[0].interface, "eth0");
    assert_eq!(stored[0].rate_limiting_method, "None");
}

#[test]
fn test_agent_store_update_health() {
    let mut store = AgentStore::new();
    store
        .add_agent("agent1".to_string(), "secret1".to_string(), NOW)
        .unwrap();

    let health = HealthStatus {
        healthy: true,
        last_check: NOW,
        message: Some("OK".to_string()),
    };
    store.update_health("agent1", health, NOW);

    let agent = store.get("agent1").unwrap();
    let stored = agent.health.as_ref().unwrap();
    assert!(stored.healthy);
    assert_eq!(stored.last_check, NOW);
    assert_eq!(stored.message.as_deref(), Some("OK"));
}

#[test]
fn test_register_idempotent_and_conflict() {
    let mut store = AgentStore::new();
    store.add_agent("a".to_string(), "s".to_string(), NOW).unwrap();
    // same id and secret: idempotent
    assert!(store.add_agent("a".to_string(), "s".to_string(), NOW + 1).is_ok());
    // same id, other secret: refused
    let err = store.add_agent("a".to_string(), "other".to_string(), NOW + 2);
    assert_eq!(err.unwrap_err(), "Agent with id 'a' already exists");
}

#[test]
fn test_remove_stale_agents() {
    let mut store = AgentStore::new();
    store.add_agent("old".to_string(), "s".to_string(), NOW).unwrap();
    store.add_agent("new".to_string(), "s".to_string(), NOW + 900).unwrap();
    let removed = store.remove_stale_agents(600, NOW + 1000);
    assert_eq!(removed, vec!["old".to_string()]);
    assert!(store.get("old").is_none());
    assert!(store.get("new").is_some());
}

#[test]
fn test_agent_public_view_has_no_secret() {
    let mut store = AgentStore::new();
    store
        .add_agent("a".to_string(), "top-secret".to_string(), NOW)
        .unwrap();
    let agent = store.get("a").unwrap();
    let public = agent.to_public();
    // the serializable projection carries every field but the secret
    assert_eq!(public.id, "a");
    assert_eq!(public.last_seen, NOW);
    let shown = format!("{} {:?} {}", public.id, public.health.is_some(), public.last_seen);
    assert!(!shown.contains("top-secret"));
}
