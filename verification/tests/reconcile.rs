//! The reconcile engine's diff, ownership scoping, and idempotence.

use nixconsul::config::ServiceConfig;
use nixconsul::consul::AgentService;
use nixconsul::consul::filter_managed;
use nixconsul::reconcile::config_matches_agent;
use nixconsul::reconcile::reconcile;

fn desired(name: &str, kind: &str, port: u16, address: &str, tags: &[&str]) -> ServiceConfig {
    ServiceConfig {
        name: name.to_string(),
        kind: kind.to_string(),
        port,
        address: address.to_string(),
        tags: tags.iter().map(|t| t.to_string()).collect(),
        check: None,
    }
}

fn observed(id: &str, kind: &str, port: u16, address: &str, tags: &[&str]) -> AgentService {
    AgentService {
        kind: kind.to_string(),
        id: id.to_string(),
        tags: tags.iter().map(|t| t.to_string()).collect(),
        port,
        address: address.to_string(),
    }
}

#[test]
fn fresh_service_is_registered() {
    // Desired "web", empty registry: one registration, no deregistration.
    let d = vec![desired("web", "http", 80, "10.0.0.1", &["role=primary"])];
    let o: Vec<AgentService> = Vec::new();
    let plan = reconcile(&d, &o);
    assert_eq!(plan.to_register.len(), 1);
    assert_eq!(plan.to_register[0].name, "web".to_string());
    assert!(plan.to_deregister.is_empty());
}

#[test]
fn stale_marked_entry_is_deregistered() {
    // Empty desired set, one stale marker-bearing entry: it goes.
    let d: Vec<ServiceConfig> = Vec::new();
    let o = vec![observed("stale", "http", 80, "10.0.0.9", &["nixconsul"])];
    let plan = reconcile(&d, &o);
    assert!(plan.to_register.is_empty());
    assert_eq!(plan.to_deregister, vec!["stale".to_string()]);
}

#[test]
fn unmarked_entry_is_never_deregistered() {
    // An entry without the ownership marker is not ours, matched or not.
    let d: Vec<ServiceConfig> = Vec::new();
    let o = vec![
        observed("foreign", "http", 80, "10.0.0.9", &[]),
        observed("stale", "http", 81, "10.0.0.9", &["nixconsul"]),
    ];
    let plan = reconcile(&d, &o);
    assert_eq!(plan.to_deregister, vec!["stale".to_string()]);
}

#[test]
fn up_to_date_service_is_left_alone() {
    let d = vec![desired("web", "http", 80, "10.0.0.1", &["role=primary"])];
    let o = vec![observed(
        "web",
        "http",
        80,
        "10.0.0.1",
        &["role=primary", "nixconsul"],
    )];
    let plan = reconcile(&d, &o);
    assert!(plan.to_register.is_empty());
    assert!(plan.to_deregister.is_empty());
}

#[test]
fn changed_service_is_reregistered_under_its_id() {
    // Same name, different port: the old entry goes and the new one comes.
    let d = vec![desired("web", "http", 8080, "10.0.0.1", &[])];
    let o = vec![observed("web", "http", 80, "10.0.0.1", &["nixconsul"])];
    let plan = reconcile(&d, &o);
    assert_eq!(plan.to_deregister, vec!["web".to_string()]);
    assert_eq!(plan.to_register.len(), 1);
    assert_eq!(plan.to_register[0].port, 8080);
}

#[test]
fn equality_ignores_the_ownership_marker_only() {
    let s = desired("web", "http", 80, "10.0.0.1", &["role=primary"]);
    let with_marker = observed(
        "web",
        "http",
        80,
        "10.0.0.1",
        &["role=primary", "nixconsul"],
    );
    let other_tag = observed("web", "http", 80, "10.0.0.1", &["role=primary", "extra"]);
    assert!(config_matches_agent(&s, &with_marker));
    assert!(!config_matches_agent(&s, &other_tag));
}

#[test]
fn second_pass_finds_nothing_to_do() {
    // Apply the first pass's plan by hand, then reconcile again.
    let d = vec![
        desired("web", "http", 80, "10.0.0.1", &["role=primary"]),
        desired("db", "tcp", 5432, "10.0.0.2", &[]),
    ];
    let o = vec![
        observed("web", "http", 80, "10.0.0.1", &["role=primary", "nixconsul"]),
        observed("stale", "http", 9, "10.0.0.9", &["nixconsul"]),
    ];
    let plan = reconcile(&d, &o);
    assert_eq!(plan.to_deregister, vec!["stale".to_string()]);
    assert_eq!(plan.to_register.len(), 1);
    assert_eq!(plan.to_register[0].name, "db".to_string());

    let mut o2: Vec<AgentService> = o
        .into_iter()
        .filter(|m| !plan.to_deregister.contains(&m.id))
        .collect();
    for s in &plan.to_register {
        let mut tags = s.tags.clone();
        tags.push("nixconsul".to_string());
        o2.push(AgentService {
            kind: s.kind.clone(),
            id: s.name.clone(),
            tags,
            port: s.port,
            address: s.address.clone(),
        });
    }
    let plan2 = reconcile(&d, &o2);
    assert!(plan2.to_register.is_empty());
    assert!(plan2.to_deregister.is_empty());
}

#[test]
fn filter_managed_keeps_marker_bearers_in_order() {
    let o = vec![
        observed("a", "http", 1, "h", &["nixconsul"]),
        observed("b", "http", 2, "h", &[]),
        observed("c", "http", 3, "h", &["x=1", "nixconsul"]),
    ];
    let managed = filter_managed(&o);
    let ids: Vec<String> = managed.iter().map(|m| m.id.clone()).collect();
    assert_eq!(ids, vec!["a".to_string(), "c".to_string()]);
}
