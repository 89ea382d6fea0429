use policy_transform::otlp_common::{
    any_value_string, array_field_is_empty, attribute_exists_path, attribute_key_eq,
    find_attribute_path, lift_child, non_empty, reattach_child,
};
use policy_transform::value::Value;

fn json(text: &str) -> Value {
    let json: serde_json::Value = serde_json::from_str(text).unwrap();
    Value::from_vrl(vrl::value::Value::from(json))
}

#[test]
fn non_empty_treats_blank_as_absent() {
    assert_eq!(non_empty(Some(&json(r#""x""#))).as_deref(), Some("x"));
    assert_eq!(non_empty(Some(&json(r#""""#))), None);
    assert_eq!(non_empty(None), None);
}

#[test]
fn any_value_string_only_matches_non_empty_string() {
    assert_eq!(
        any_value_string(Some(&json(r#"{"stringValue": "hi"}"#))).as_deref(),
        Some("hi"),
    );
    assert_eq!(any_value_string(Some(&json(r#"{"stringValue": ""}"#))), None);
    assert_eq!(any_value_string(Some(&json(r#"{"intValue": "42"}"#))), None);
    assert_eq!(any_value_string(Some(&json(r#"{"boolValue": true}"#))), None);
    assert_eq!(any_value_string(None), None);
}

#[test]
fn find_attribute_path_flat_and_nested() {
    let attrs = json(r#"[
        {"key": "user_id", "value": {"stringValue": "42"}},
        {"key": "http", "value": {"kvlistValue": {"values": [
            {"key": "method", "value": {"stringValue": "GET"}}
        ]}}}
    ]"#);
    assert_eq!(
        find_attribute_path(Some(&attrs), &["user_id".to_string()]).as_deref(),
        Some("42"),
    );
    assert_eq!(
        find_attribute_path(Some(&attrs), &["http".to_string(), "method".to_string()])
            .as_deref(),
        Some("GET"),
    );
    // Missing top-level key, and a missing nested segment, both resolve to None.
    assert_eq!(find_attribute_path(Some(&attrs), &["nope".to_string()]), None);
    assert_eq!(
        find_attribute_path(Some(&attrs), &["http".to_string(), "nope".to_string()]),
        None,
    );
}

#[test]
fn find_attribute_path_non_string_leaf_is_none() {
    let attrs = json(r#"[{"key": "count", "value": {"intValue": "42"}}]"#);
    assert_eq!(find_attribute_path(Some(&attrs), &["count".to_string()]), None);
}

#[test]
fn attribute_exists_path_covers_non_string_and_nested() {
    let attrs = json(r#"[
        {"key": "count", "value": {"intValue": "42"}},
        {"key": "http", "value": {"kvlistValue": {"values": [
            {"key": "method", "value": {"stringValue": "GET"}}
        ]}}}
    ]"#);
    // A non-string value still satisfies `exists`.
    assert!(attribute_exists_path(Some(&attrs), &["count".to_string()]));
    assert!(attribute_exists_path(
        Some(&attrs),
        &["http".to_string(), "method".to_string()]
    ));
    assert!(!attribute_exists_path(Some(&attrs), &["missing".to_string()]));
    assert!(!attribute_exists_path(None, &["count".to_string()]));
}

#[test]
fn attribute_key_eq_compares_key_bytes() {
    let kv = json(r#"{"key": "service.name", "value": {"stringValue": "api"}}"#);
    assert!(attribute_key_eq(&kv, "service.name"));
    assert!(!attribute_key_eq(&kv, "service"));
    // Non-object entries never match.
    assert!(!attribute_key_eq(&json(r#""x""#), "x"));
}

#[test]
fn lift_and_reattach_round_trip() {
    let mut entry = json(r#"{"resource": {"attributes": []}, "scopeLogs": []}"#);
    let lifted = lift_child(&mut entry, "resource").expect("resource lifted");
    assert!(entry.get("resource").is_none());
    reattach_child(&mut entry, "resource", lifted);
    assert!(entry.get("resource").is_some());
    // Lifting an absent child is a no-op returning None.
    assert!(lift_child(&mut entry, "missing").is_none());
}

#[test]
fn array_field_is_empty_cases() {
    assert!(array_field_is_empty(&json(r#"{"a": []}"#), "a"));
    assert!(!array_field_is_empty(&json(r#"{"a": [1]}"#), "a"));
    // Absent field, and a present-but-not-array field, both count as empty.
    assert!(array_field_is_empty(&json(r#"{}"#), "a"));
    assert!(array_field_is_empty(&json(r#"{"a": "x"}"#), "a"));
}
