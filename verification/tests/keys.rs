//! The availability store's key layout and the registry client's pure
//! parts: URLs, payload marking, and status outcomes.

use nixconsul::check::ExternalCheck;
use nixconsul::check::availability_key;
use nixconsul::check::availability_prefix;
use nixconsul::check::current_host;
use nixconsul::check::service_name_from_key;
use nixconsul::check::unavailable_service_names;
use nixconsul::check::unavailable_value;
use nixconsul::consul::Consul;
use nixconsul::consul::RegisterAgentService;
use nixconsul::consul::ServiceCheck;
use nixconsul::consul::deregistration_outcome;
use nixconsul::consul::registration_outcome;

#[test]
fn catalog_listing_holds_names_and_tags() {
    let mut data = std::collections::HashMap::new();
    data.insert("web".to_string(), vec!["role=primary".to_string()]);
    let listing = nixconsul::consul::Service { data };
    assert_eq!(
        listing.data.get("web"),
        Some(&vec!["role=primary".to_string()])
    );
}

#[test]
fn availability_key_is_prefix_host_service() {
    assert_eq!(
        availability_key("host1", "web"),
        "consulsync/host1/web".to_string()
    );
    assert_eq!(availability_prefix("host1"), "consulsync/host1".to_string());
    assert_eq!(unavailable_value(), "unavailable");
}

#[test]
fn key_round_trips_to_the_service_name() {
    let key = availability_key("host1", "web");
    assert_eq!(service_name_from_key(key.as_str()), "web".to_string());
}

#[test]
fn missing_hostname_falls_back_to_unknown() {
    assert_eq!(
        nixconsul::check::host_or_unknown(Some("host1".to_string())),
        "host1".to_string()
    );
    assert_eq!(
        nixconsul::check::host_or_unknown(None),
        "unknown".to_string()
    );
}

#[test]
fn key_for_current_host_round_trips() {
    let host = current_host();
    let key = availability_key(host.as_str(), "web");
    assert_eq!(service_name_from_key(key.as_str()), "web".to_string());
}

#[test]
fn trailing_segment_is_extracted() {
    assert_eq!(service_name_from_key("a/b/c"), "c".to_string());
    assert_eq!(service_name_from_key("plain"), "plain".to_string());
    assert_eq!(service_name_from_key("ends/"), "".to_string());
}

#[test]
fn prefix_scan_keys_become_service_names() {
    let keys = vec![
        "consulsync/host1/web".to_string(),
        "consulsync/host1/db".to_string(),
    ];
    let names = unavailable_service_names(&keys);
    assert_eq!(names, vec!["web".to_string(), "db".to_string()]);
}

#[test]
fn request_urls_follow_the_registry_api() {
    let c = Consul::new("http://localhost:8500");
    assert_eq!(
        c.catalog_services_url(),
        "http://localhost:8500/v1/catalog/services".to_string()
    );
    assert_eq!(
        c.agent_services_url(),
        "http://localhost:8500/v1/agent/services".to_string()
    );
    assert_eq!(
        c.register_url(),
        "http://localhost:8500/v1/agent/service/register".to_string()
    );
    assert_eq!(
        c.deregister_url("web"),
        "http://localhost:8500/v1/agent/service/deregister/web".to_string()
    );
}

#[test]
fn default_registry_is_local() {
    let c = Consul::default();
    assert_eq!(c.url, "http://localhost:8500".to_string());
}

#[test]
fn registration_payload_carries_the_marker() {
    let s = RegisterAgentService::new(
        "web",
        "http",
        80,
        "10.0.0.1",
        vec!["role=primary".to_string()],
        None,
    );
    let marked = s.with_marker();
    assert_eq!(
        marked.tags,
        vec!["role=primary".to_string(), "nixconsul".to_string()]
    );
    assert_eq!(marked.name, "web".to_string());
    assert!(marked.enable_tag_override);
    assert!(marked.meta.is_empty());
}

#[test]
fn status_200_is_success_anything_else_an_error() {
    assert!(registration_outcome(200).is_ok());
    let e = registration_outcome(503).unwrap_err();
    assert_eq!(
        e.message,
        "Service registration failed with status: 503".to_string()
    );
    assert!(deregistration_outcome(200).is_ok());
    let e = deregistration_outcome(404).unwrap_err();
    assert_eq!(
        e.message,
        "Service deregistration failed with status: 404".to_string()
    );
}

#[test]
fn probe_target_joins_address_and_port() {
    let s = RegisterAgentService::new("web", "http", 80, "10.0.0.1", Vec::new(), None);
    let check = ExternalCheck::from_register(&s);
    assert_eq!(check.socket, "10.0.0.1:80".to_string());
    assert_eq!(check.name, "web".to_string());
    assert_eq!(check.interval, "10s".to_string());
    assert_eq!(check.timeout, "5s".to_string());
}

#[test]
fn probe_target_takes_the_declared_cadence() {
    let s = RegisterAgentService::new(
        "web",
        "http",
        80,
        "10.0.0.1",
        Vec::new(),
        Some(ServiceCheck::new("10.0.0.1:80")),
    );
    let check = ExternalCheck::from_register(&s);
    assert_eq!(check.interval, "10s".to_string());
    assert_eq!(check.timeout, "5s".to_string());
    let sc = ServiceCheck::new("10.0.0.1:80");
    assert_eq!(sc.tcp, "10.0.0.1:80".to_string());
}
