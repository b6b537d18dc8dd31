//! Tag parsing, merging, and placeholder substitution.

use nixconsul::config::ServiceConfig;
use nixconsul::config::extract_key_value;
use nixconsul::strutil::replace_str;
use nixconsul::strutil::str_eq;
use nixconsul::strutil::u16_to_dec;

fn service(name: &str, tags: &[&str]) -> ServiceConfig {
    ServiceConfig {
        name: name.to_string(),
        kind: "http".to_string(),
        port: 80,
        address: "10.0.0.1".to_string(),
        tags: tags.iter().map(|t| t.to_string()).collect(),
        check: None,
    }
}

#[test]
fn extract_key_value_splits_on_first_equals() {
    assert_eq!(extract_key_value("role=primary"), Some(("role", "primary")));
    assert_eq!(extract_key_value("a=b=c"), Some(("a", "b=c")));
    assert_eq!(extract_key_value("=v"), Some(("", "v")));
    assert_eq!(extract_key_value("k="), Some(("k", "")));
}

#[test]
fn extract_key_value_trims_both_parts() {
    assert_eq!(
        extract_key_value(" role = primary "),
        Some(("role", "primary"))
    );
    assert_eq!(extract_key_value("\trole=primary\n"), Some(("role", "primary")));
    assert_eq!(extract_key_value(" = "), Some(("", "")));
}

#[test]
fn spaced_declaration_tag_still_overrides_by_key() {
    let mut s = service("web", &["role = x"]);
    s.update_tags(vec!["role=y".to_string()]);
    assert_eq!(s.tags, vec!["role = x".to_string()]);
}

#[test]
fn extract_key_value_rejects_flags() {
    assert_eq!(extract_key_value("primary"), None);
    assert_eq!(extract_key_value(""), None);
}

#[test]
fn declaration_tag_overrides_default_with_same_key() {
    let mut s = service("web", &["role=primary"]);
    s.update_tags(vec!["role=fallback".to_string(), "tier=edge".to_string()]);
    assert_eq!(s.tags, vec!["role=primary".to_string(), "tier=edge".to_string()]);
}

#[test]
fn unmatched_defaults_keep_their_position() {
    let mut s = service("web", &["b=2"]);
    s.update_tags(vec!["a=1".to_string(), "b=9".to_string(), "c=3".to_string()]);
    assert_eq!(
        s.tags,
        vec!["a=1".to_string(), "b=2".to_string(), "c=3".to_string()]
    );
}

#[test]
fn declaration_tags_with_fresh_keys_are_appended() {
    let mut s = service("web", &["x=1", "flag"]);
    s.update_tags(vec!["a=0".to_string()]);
    assert_eq!(
        s.tags,
        vec!["a=0".to_string(), "x=1".to_string(), "flag".to_string()]
    );
}

#[test]
fn empty_defaults_leave_declaration_tags_alone() {
    let mut s = service("web", &["x=1", "flag"]);
    s.update_tags(Vec::new());
    assert_eq!(s.tags, vec!["x=1".to_string(), "flag".to_string()]);
}

#[test]
fn flags_pass_through_the_merge() {
    let mut s = service("web", &["primary"]);
    s.update_tags(vec!["backup".to_string()]);
    assert_eq!(s.tags, vec!["backup".to_string(), "primary".to_string()]);
}

#[test]
fn merged_tags_never_repeat_a_key() {
    // Duplicate keys on both sides: the merge keeps one entry per key.
    let mut s = service("web", &["k=s1", "k=s2"]);
    s.update_tags(vec!["k=d1".to_string(), "k=d2".to_string(), "j=d".to_string()]);
    let keys: Vec<&str> = s
        .tags
        .iter()
        .filter_map(|t| extract_key_value(t).map(|kv| kv.0))
        .collect();
    let mut unique = keys.clone();
    unique.sort();
    unique.dedup();
    assert_eq!(keys.len(), unique.len());
    assert_eq!(s.tags, vec!["k=s1".to_string(), "j=d".to_string()]);
}

#[test]
fn placeholder_is_substituted_in_every_tag() {
    let mut s = service("web", &["name=SERVICE_NAME", "path=/srv/SERVICE_NAME/data"]);
    s.replace_service_name();
    assert_eq!(
        s.tags,
        vec!["name=web".to_string(), "path=/srv/web/data".to_string()]
    );
}

#[test]
fn substitution_is_total_after_resolution() {
    let mut s = service("web", &["a=SERVICE_NAME", "SERVICE_NAMESERVICE_NAME"]);
    s.replace_service_name();
    for tag in &s.tags {
        assert!(!tag.contains("SERVICE_NAME"));
    }
}

#[test]
fn replace_str_replaces_every_occurrence() {
    let r = replace_str("abXabXab", "ab", "y");
    assert_eq!(r, "yXyXy".to_string());
    let r = replace_str("no occurrence", "ab", "y");
    assert_eq!(r, "no occurrence".to_string());
}

#[test]
fn str_eq_compares_by_characters() {
    assert!(str_eq("abc", "abc"));
    assert!(!str_eq("abc", "abd"));
    assert!(!str_eq("abc", "ab"));
    assert!(str_eq("", ""));
}

#[test]
fn u16_renders_in_decimal() {
    assert_eq!(u16_to_dec(0), "0".to_string());
    assert_eq!(u16_to_dec(7), "7".to_string());
    assert_eq!(u16_to_dec(80), "80".to_string());
    assert_eq!(u16_to_dec(65535), "65535".to_string());
}
