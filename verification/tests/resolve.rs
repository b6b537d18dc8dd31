//! Whole-configuration resolution: kind files, field overrides, and the
//! snapshot fallback.

use nixconsul::config::Config;
use nixconsul::config::ConfigError;
use nixconsul::config::ExternalKindConfig;
use nixconsul::config::FieldValue;
use nixconsul::config::KindConfig;
use nixconsul::config::ServiceConfig;
use nixconsul::config::resolve_config;
use nixconsul::config::select_snapshot;
use nixconsul::consul::Consul;

fn base_config() -> Config {
    Config {
        consul: Consul::new("http://localhost:8500"),
        log_level: Some("info".to_string()),
        services: vec![ServiceConfig {
            name: "web".to_string(),
            kind: "http".to_string(),
            port: 0,
            address: "".to_string(),
            tags: vec!["role=primary".to_string()],
            check: None,
        }],
        external_kinds: vec![ExternalKindConfig {
            name: "http".to_string(),
            filename: "http.toml".to_string(),
        }],
        kinds: vec![KindConfig {
            name: "http".to_string(),
            tags: vec!["kindtag=SERVICE_NAME".to_string()],
        }],
    }
}

#[test]
fn default_declaration_is_empty() {
    let s = ServiceConfig::default();
    assert_eq!(s.name, "".to_string());
    assert_eq!(s.kind, "".to_string());
    assert_eq!(s.port, 0);
    assert_eq!(s.address, "".to_string());
    assert!(s.tags.is_empty());
    assert!(s.check.is_none());
}

#[test]
fn port_field_fills_an_absent_port() {
    let mut s = ServiceConfig::default();
    assert!(s.update_field("port", FieldValue::Int(8080)).is_ok());
    assert_eq!(s.port, 8080);
    let r = s.update_field("port", FieldValue::Int(70000));
    assert!(matches!(r, Err(ConfigError::InvalidValue(_))));
    assert_eq!(s.port, 8080);
}

#[test]
fn address_field_fills_an_absent_address() {
    let mut s = ServiceConfig::default();
    assert!(s
        .update_field("address", FieldValue::Text("10.0.0.1".to_string()))
        .is_ok());
    assert_eq!(s.address, "10.0.0.1".to_string());
}

#[test]
fn declaration_values_win_over_kind_fields() {
    // A value present on both takes the declaration's.
    let mut s = ServiceConfig::default();
    s.port = 81;
    s.address = "10.9.9.9".to_string();
    assert!(s.update_field("port", FieldValue::Int(80)).is_ok());
    assert_eq!(s.port, 81);
    assert!(s
        .update_field("address", FieldValue::Text("10.0.0.1".to_string()))
        .is_ok());
    assert_eq!(s.address, "10.9.9.9".to_string());
}

#[test]
fn wrongly_shaped_value_is_invalid() {
    let mut s = ServiceConfig::default();
    let r = s.update_field("port", FieldValue::Text("eighty".to_string()));
    assert!(matches!(r, Err(ConfigError::InvalidValue(_))));
}

#[test]
fn unknown_field_is_a_fatal_configuration_error() {
    let mut s = ServiceConfig::default();
    let r = s.update_field("color", FieldValue::Text("blue".to_string()));
    match r {
        Err(ConfigError::UnknownField(f)) => assert_eq!(f, "color".to_string()),
        _ => panic!("unknown field must be rejected"),
    }
}

#[test]
fn error_messages_name_the_field() {
    let e = ConfigError::UnknownField("color".to_string());
    assert_eq!(e.message(), "Unknown field: color".to_string());
    let e = ConfigError::InvalidValue("port".to_string());
    assert_eq!(e.message(), "Invalid value for field: port".to_string());
}

#[test]
fn merge_never_overrides_name_or_kind() {
    let mut s = ServiceConfig::default();
    s.name = "web".to_string();
    s.kind = "http".to_string();
    let fields = vec![
        ("name".to_string(), FieldValue::Text("other".to_string())),
        ("kind".to_string(), FieldValue::Text("tcp".to_string())),
        ("port".to_string(), FieldValue::Int(80)),
    ];
    assert!(s.merge_from(&fields).is_ok());
    assert_eq!(s.name, "web".to_string());
    assert_eq!(s.kind, "http".to_string());
    assert_eq!(s.port, 80);
}

#[test]
fn kind_lookups_find_the_first_match() {
    let c = base_config();
    assert_eq!(c.get_kind_file("http"), "http.toml".to_string());
    assert_eq!(c.get_kind_file("tcp"), "".to_string());
    assert_eq!(c.get_kind_tags("http"), vec!["kindtag=SERVICE_NAME".to_string()]);
    assert!(c.get_kind_tags("tcp").is_empty());
}

#[test]
fn resolution_merges_file_fields_and_kind_tags() {
    let mut c = base_config();
    let kind_files = vec![(
        "http.toml".to_string(),
        vec![
            ("port".to_string(), FieldValue::Int(80)),
            ("address".to_string(), FieldValue::Text("10.0.0.1".to_string())),
            (
                "tags".to_string(),
                FieldValue::List(vec!["filetag=SERVICE_NAME".to_string()]),
            ),
        ],
    )];
    assert!(resolve_config(&mut c, &kind_files).is_ok());
    let s = &c.services[0];
    assert_eq!(s.port, 80);
    assert_eq!(s.address, "10.0.0.1".to_string());
    assert_eq!(
        s.tags,
        vec![
            "kindtag=web".to_string(),
            "filetag=web".to_string(),
            "role=primary".to_string(),
        ]
    );
}

#[test]
fn resolution_fault_reports_the_field_and_keeps_the_config() {
    let mut c = base_config();
    let kind_files = vec![(
        "http.toml".to_string(),
        vec![("color".to_string(), FieldValue::Text("blue".to_string()))],
    )];
    let before_tags = c.services[0].tags.clone();
    let r = resolve_config(&mut c, &kind_files);
    match r {
        Err(ConfigError::UnknownField(f)) => assert_eq!(f, "color".to_string()),
        _ => panic!("unknown kind-file field must abort resolution"),
    }
    assert_eq!(c.services[0].tags, before_tags);
}

#[test]
fn missing_kind_file_still_applies_inline_kind_tags() {
    let mut c = base_config();
    let kind_files: Vec<(String, Vec<(String, FieldValue)>)> = Vec::new();
    assert!(resolve_config(&mut c, &kind_files).is_ok());
    assert_eq!(
        c.services[0].tags,
        vec!["kindtag=web".to_string(), "role=primary".to_string()]
    );
}

#[test]
fn failed_reload_keeps_the_previous_snapshot() {
    let current = base_config();
    let kept = select_snapshot(current, None);
    assert_eq!(kept.services[0].name, "web".to_string());
    let mut fresh = base_config();
    fresh.log_level = Some("debug".to_string());
    let replaced = select_snapshot(kept, Some(fresh));
    assert_eq!(replaced.log_level, Some("debug".to_string()));
}
