use chrono::Utc;
use policy_transform::adapter::VectorLogAdapter;
use policy_transform::field_mapping::FieldMapping;
use policy_transform::log_event::LogEvent;
use policy_transform::path::ConfigValuePath;
use policy_transform::selector::{LogField, LogFieldSelector};
use policy_transform::value::Value;
use vrl::value::Value as VrlValue;

fn put(log: &mut LogEvent, path: &str, value: Value) {
    if let Ok(path) = ConfigValuePath::try_from(path.to_string()) {
        log.insert(&path, value);
    }
}

fn get<'a>(log: &'a LogEvent, path: &str) -> Option<&'a Value> {
    log.get(&ConfigValuePath::try_from(path.to_string()).unwrap())
}

fn as_integer(value: &Value) -> Option<i64> {
    match value {
        Value::Integer(integer) => Some(*integer),
        _ => None,
    }
}

fn make_log() -> LogEvent {
    let mut log = LogEvent::default();
    put(&mut log, "message", Value::text("hello world"));
    put(&mut log, "severity_text", Value::text("ERROR"));
    put(&mut log, "trace_id", Value::text("abc123"));
    put(&mut log, "span_id", Value::text("def456"));
    put(&mut log, "event_name", Value::text("user.login"));
    put(&mut log, "resource.schema_url", Value::text("https://opentelemetry.io/schemas/1.0"));
    put(&mut log, "scope.schema_url", Value::text("https://opentelemetry.io/schemas/1.0"));
    put(&mut log, "attributes.user_id", Value::text("42"));
    put(&mut log, "attributes.flagged", Value::Boolean(true));
    put(&mut log, "attributes.ratio", Value::from_vrl(VrlValue::from_f64_or_zero(1.5)));
    put(&mut log, "resource.attributes.service\\.name", Value::text("frontend"));
    put(&mut log, "scope.attributes.library", Value::text("tracer"));
    log
}

fn mapping() -> FieldMapping {
    FieldMapping::default()
}

// --- Matchable: get_field --------------------------------------------

#[test]
fn get_simple_body() {
    let mut log = make_log();
    let m = mapping();
    let adapter = VectorLogAdapter::new(&mut log, &m);
    assert_eq!(
        adapter
            .get_field(&LogFieldSelector::Simple(LogField::Body))
            .as_deref(),
        Some("hello world"),
    );
}

#[test]
fn get_simple_severity_text() {
    let mut log = make_log();
    let m = mapping();
    let adapter = VectorLogAdapter::new(&mut log, &m);
    assert_eq!(
        adapter
            .get_field(&LogFieldSelector::Simple(LogField::SeverityText))
            .as_deref(),
        Some("ERROR"),
    );
}

#[test]
fn get_simple_trace_and_span_ids() {
    let mut log = make_log();
    let m = mapping();
    let adapter = VectorLogAdapter::new(&mut log, &m);
    assert_eq!(
        adapter
            .get_field(&LogFieldSelector::Simple(LogField::TraceId))
            .as_deref(),
        Some("abc123"),
    );
    assert_eq!(
        adapter
            .get_field(&LogFieldSelector::Simple(LogField::SpanId))
            .as_deref(),
        Some("def456"),
    );
}

#[test]
fn get_unspecified_field_returns_none() {
    let mut log = make_log();
    let m = mapping();
    let adapter = VectorLogAdapter::new(&mut log, &m);
    assert_eq!(
        adapter.get_field(&LogFieldSelector::Simple(LogField::Unspecified)),
        None,
    );
}

#[test]
fn adapter_get_log_attribute_flat() {
    let mut log = make_log();
    let m = mapping();
    let adapter = VectorLogAdapter::new(&mut log, &m);
    assert_eq!(
        adapter
            .get_field(&LogFieldSelector::LogAttribute(vec!["user_id".to_string()]))
            .as_deref(),
        Some("42"),
    );
}

#[test]
fn get_log_attribute_nested() {
    let mut log = LogEvent::default();
    put(&mut log, "attributes.http.method", Value::text("GET"));
    let m = mapping();
    let adapter = VectorLogAdapter::new(&mut log, &m);
    assert_eq!(
        adapter
            .get_field(&LogFieldSelector::LogAttribute(vec![
                "http".to_string(),
                "method".to_string()
            ]))
            .as_deref(),
        Some("GET"),
    );
}

#[test]
fn get_resource_attribute_with_dot_in_key() {
    // policy-rs surfaces OTel attributes as single-segment selectors
    // even when the OTel key contains dots (e.g. "service.name"). The
    // adapter must treat each segment literally — segments containing
    // dots are not re-parsed as dotted paths.
    //
    // Insert through a typed path that mirrors what `append_segments`
    // produces, then confirm the adapter can read it back through the
    // same selector.
    let mut log = LogEvent::default();
    let m = mapping();
    let attr_path =
        FieldMapping::append_segments(&m.resource_attributes, &["service.name".to_string()]);
    log.insert(&attr_path, Value::text("frontend"));

    let adapter = VectorLogAdapter::new(&mut log, &m);
    assert_eq!(
        adapter
            .get_field(&LogFieldSelector::ResourceAttribute(vec![
                "service.name".to_string()
            ]))
            .as_deref(),
        Some("frontend"),
    );
}

#[test]
fn get_scope_attribute() {
    let mut log = make_log();
    let m = mapping();
    let adapter = VectorLogAdapter::new(&mut log, &m);
    assert_eq!(
        adapter
            .get_field(&LogFieldSelector::ScopeAttribute(vec![
                "library".to_string()
            ]))
            .as_deref(),
        Some("tracer"),
    );
}

#[test]
fn get_integer_value_stringifies() {
    let mut log = LogEvent::default();
    put(&mut log, "attributes.count", Value::Integer(42));
    let m = mapping();
    let adapter = VectorLogAdapter::new(&mut log, &m);
    assert_eq!(
        adapter
            .get_field(&LogFieldSelector::LogAttribute(vec!["count".to_string()]))
            .as_deref(),
        Some("42"),
    );
}

#[test]
fn get_boolean_value_stringifies() {
    let mut log = make_log();
    let m = mapping();
    let adapter = VectorLogAdapter::new(&mut log, &m);
    assert_eq!(
        adapter
            .get_field(&LogFieldSelector::LogAttribute(vec!["flagged".to_string()]))
            .as_deref(),
        Some("true"),
    );
}

#[test]
fn get_float_value_stringifies() {
    let mut log = make_log();
    let m = mapping();
    let adapter = VectorLogAdapter::new(&mut log, &m);
    let v = adapter
        .get_field(&LogFieldSelector::LogAttribute(vec!["ratio".to_string()]));
    // We don't pin the exact float representation — just confirm it's a string starting with "1.5".
    assert!(
        matches!(v, Some(ref s) if s.starts_with("1.5")),
        "got: {v:?}"
    );
}

#[test]
fn get_timestamp_returns_none_for_matching() {
    let mut log = LogEvent::default();
    put(&mut log, "attributes.ts", Value::from_vrl(VrlValue::Timestamp(Utc::now())));
    let m = mapping();
    let adapter = VectorLogAdapter::new(&mut log, &m);
    assert_eq!(
        adapter.get_field(&LogFieldSelector::LogAttribute(vec!["ts".to_string()])),
        None,
    );
}

#[test]
fn get_missing_field_returns_none() {
    let mut log = LogEvent::default();
    let m = mapping();
    let adapter = VectorLogAdapter::new(&mut log, &m);
    assert_eq!(
        adapter.get_field(&LogFieldSelector::Simple(LogField::Body)),
        None,
    );
}

// --- Matchable: field_exists -----------------------------------------

#[test]
fn exists_true_for_string_field() {
    let mut log = make_log();
    let m = mapping();
    let adapter = VectorLogAdapter::new(&mut log, &m);
    assert!(adapter.field_exists(&LogFieldSelector::Simple(LogField::Body)));
}

#[test]
fn exists_true_for_non_string_field() {
    // OTel-style: integer/bool/timestamp values should still satisfy
    // `exists: true` matchers even though `get_field` returns None.
    let mut log = LogEvent::default();
    put(&mut log, "attributes.count", Value::Integer(42));
    put(&mut log, "attributes.ts", Value::from_vrl(VrlValue::Timestamp(Utc::now())));
    let m = mapping();
    let adapter = VectorLogAdapter::new(&mut log, &m);
    assert!(adapter.field_exists(&LogFieldSelector::LogAttribute(vec!["count".to_string()])));
    assert!(adapter.field_exists(&LogFieldSelector::LogAttribute(vec!["ts".to_string()])));
}

#[test]
fn exists_false_for_missing_field() {
    let mut log = LogEvent::default();
    let m = mapping();
    let adapter = VectorLogAdapter::new(&mut log, &m);
    assert!(!adapter.field_exists(&LogFieldSelector::Simple(LogField::Body)));
    assert!(
        !adapter.field_exists(&LogFieldSelector::LogAttribute(vec!["missing".to_string()]))
    );
}

#[test]
fn exists_false_for_unspecified() {
    let mut log = make_log();
    let m = mapping();
    let adapter = VectorLogAdapter::new(&mut log, &m);
    assert!(!adapter.field_exists(&LogFieldSelector::Simple(LogField::Unspecified)));
}

// --- Transformable: set_field ----------------------------------------

#[test]
fn set_field_creates_when_absent() {
    let mut log = LogEvent::default();
    {
        let m = mapping();
        let mut adapter = VectorLogAdapter::new(&mut log, &m);
        adapter.set_field(
            &LogFieldSelector::LogAttribute(vec!["new_key".to_string()]),
            "value",
        );
    }
    assert_eq!(
        get(&log, "attributes.new_key").and_then(|v| v.as_str()),
        Some("value".into()),
    );
}

#[test]
fn set_field_overwrites_when_present() {
    let mut log = make_log();
    {
        let m = mapping();
        let mut adapter = VectorLogAdapter::new(&mut log, &m);
        adapter.set_field(&LogFieldSelector::Simple(LogField::Body), "replaced");
    }
    assert_eq!(
        get(&log, "message").and_then(|v| v.as_str()),
        Some("replaced".into()),
    );
}

#[test]
fn set_nested_attribute_creates_intermediate_maps() {
    let mut log = LogEvent::default();
    {
        let m = mapping();
        let mut adapter = VectorLogAdapter::new(&mut log, &m);
        adapter.set_field(
            &LogFieldSelector::LogAttribute(vec!["http".to_string(), "method".to_string()]),
            "POST",
        );
    }
    assert_eq!(
        get(&log, "attributes.http.method").and_then(|v| v.as_str()),
        Some("POST".into()),
    );
}

#[test]
fn set_unspecified_is_noop() {
    let mut log = make_log();
    let snapshot_before = log.clone();
    {
        let m = mapping();
        let mut adapter = VectorLogAdapter::new(&mut log, &m);
        adapter.set_field(&LogFieldSelector::Simple(LogField::Unspecified), "x");
    }
    assert_eq!(log, snapshot_before);
}

// --- Transformable: delete_field -------------------------------------

#[test]
fn delete_field_removes_present_field() {
    let mut log = make_log();
    let was_present = {
        let m = mapping();
        let mut adapter = VectorLogAdapter::new(&mut log, &m);
        adapter.delete_field(&LogFieldSelector::LogAttribute(vec!["user_id".to_string()]))
    };
    assert!(was_present);
    assert!(get(&log, "attributes.user_id").is_none());
}

#[test]
fn delete_field_returns_false_when_absent() {
    let mut log = LogEvent::default();
    let was_present = {
        let m = mapping();
        let mut adapter = VectorLogAdapter::new(&mut log, &m);
        adapter.delete_field(&LogFieldSelector::LogAttribute(vec!["nope".to_string()]))
    };
    assert!(!was_present);
}

#[test]
fn delete_field_returns_false_for_unspecified() {
    let mut log = make_log();
    let was_present = {
        let m = mapping();
        let mut adapter = VectorLogAdapter::new(&mut log, &m);
        adapter.delete_field(&LogFieldSelector::Simple(LogField::Unspecified))
    };
    assert!(!was_present);
}

#[test]
fn adapter_delete_simple_body() {
    let mut log = make_log();
    let was_present = {
        let m = mapping();
        let mut adapter = VectorLogAdapter::new(&mut log, &m);
        adapter.delete_field(&LogFieldSelector::Simple(LogField::Body))
    };
    assert!(was_present);
    assert!(get(&log, "message").is_none());
}

// --- Transformable: move_field ---------------------------------------

#[test]
fn move_field_within_log_attributes() {
    let mut log = LogEvent::default();
    put(&mut log, "attributes.usr", Value::text("admin"));
    {
        let m = mapping();
        let mut adapter = VectorLogAdapter::new(&mut log, &m);
        adapter.move_field(
            &LogFieldSelector::LogAttribute(vec!["usr".to_string()]),
            &LogFieldSelector::LogAttribute(vec!["user_id".to_string()]),
        );
    }
    assert!(get(&log, "attributes.usr").is_none());
    assert_eq!(
        get(&log, "attributes.user_id").and_then(|v| v.as_str()),
        Some("admin".into()),
    );
}

#[test]
fn move_field_preserves_non_string_value() {
    let mut log = LogEvent::default();
    put(&mut log, "attributes.count", Value::Integer(42));
    {
        let m = mapping();
        let mut adapter = VectorLogAdapter::new(&mut log, &m);
        adapter.move_field(
            &LogFieldSelector::LogAttribute(vec!["count".to_string()]),
            &LogFieldSelector::LogAttribute(vec!["renamed".to_string()]),
        );
    }
    assert!(get(&log, "attributes.count").is_none());
    assert_eq!(
        get(&log, "attributes.renamed").and_then(as_integer),
        Some(42),
    );
}

#[test]
fn move_field_absent_source_is_noop() {
    let mut log = LogEvent::default();
    let snapshot_before = log.clone();
    {
        let m = mapping();
        let mut adapter = VectorLogAdapter::new(&mut log, &m);
        adapter.move_field(
            &LogFieldSelector::LogAttribute(vec!["missing".to_string()]),
            &LogFieldSelector::LogAttribute(vec!["target".to_string()]),
        );
    }
    assert_eq!(log, snapshot_before);
}

#[test]
fn move_field_unspecified_endpoints_noop() {
    let mut log = make_log();
    let snapshot_before = log.clone();
    {
        let m = mapping();
        let mut adapter = VectorLogAdapter::new(&mut log, &m);
        adapter.move_field(
            &LogFieldSelector::Simple(LogField::Unspecified),
            &LogFieldSelector::LogAttribute(vec!["x".to_string()]),
        );
        adapter.move_field(
            &LogFieldSelector::LogAttribute(vec!["user_id".to_string()]),
            &LogFieldSelector::Simple(LogField::Unspecified),
        );
    }
    assert_eq!(log, snapshot_before);
}

// --- Custom mappings -------------------------------------------------

#[test]
fn custom_body_path_is_honored() {
    let mut log = LogEvent::default();
    put(&mut log, "log.body", Value::text("custom"));
    let mapping = FieldMapping {
        body: ConfigValuePath::try_from("log.body".to_string()).unwrap(),
        ..FieldMapping::default()
    };
    let adapter = VectorLogAdapter::new(&mut log, &mapping);
    assert_eq!(
        adapter
            .get_field(&LogFieldSelector::Simple(LogField::Body))
            .as_deref(),
        Some("custom"),
    );
}

#[test]
fn custom_attribute_root_is_honored() {
    let mut log = LogEvent::default();
    put(&mut log, "data.user_id", Value::text("42"));
    let mapping = FieldMapping {
        log_attributes: ConfigValuePath::try_from("data".to_string()).unwrap(),
        ..FieldMapping::default()
    };
    let adapter = VectorLogAdapter::new(&mut log, &mapping);
    assert_eq!(
        adapter
            .get_field(&LogFieldSelector::LogAttribute(vec!["user_id".to_string()]))
            .as_deref(),
        Some("42"),
    );
}

// --- Simple-field exhaustive coverage --------------------------------
//
// Every `LogField` variant goes through the same `simple_path` table.
// The cases below confirm get/set/delete behave consistently across
// every variant we expose (Body and SeverityText already had bespoke
// tests; these round out the rest).

/// One get/delete/set cycle for a simple field. Helper rather than
/// per-variant duplication so future `LogField` additions just append a
/// caller below.
fn assert_simple_round_trip(field: LogField, event_path: &str) {
    let m = mapping();

    // get
    let mut log = LogEvent::default();
    put(&mut log, event_path, Value::text("initial"));
    {
        let adapter = VectorLogAdapter::new(&mut log, &m);
        assert_eq!(
            adapter
                .get_field(&LogFieldSelector::Simple(field))
                .as_deref(),
            Some("initial"),
            "get failed for {field:?} at {event_path:?}",
        );
    }

    // delete
    let was_present = {
        let mut adapter = VectorLogAdapter::new(&mut log, &m);
        adapter.delete_field(&LogFieldSelector::Simple(field))
    };
    assert!(was_present, "delete returned false for {field:?}");
    assert!(
        get(&log, event_path).is_none(),
        "delete left {event_path:?} present for {field:?}",
    );

    // set
    {
        let mut adapter = VectorLogAdapter::new(&mut log, &m);
        adapter.set_field(&LogFieldSelector::Simple(field), "after-set");
    }
    assert_eq!(
        get(&log, event_path).and_then(|v| v.as_str()),
        Some("after-set".into()),
        "set didn't insert at {event_path:?} for {field:?}",
    );
}

#[test]
fn round_trip_simple_body() {
    assert_simple_round_trip(LogField::Body, "message");
}

#[test]
fn round_trip_simple_severity_text() {
    assert_simple_round_trip(LogField::SeverityText, "severity_text");
}

#[test]
fn round_trip_simple_trace_id() {
    assert_simple_round_trip(LogField::TraceId, "trace_id");
}

#[test]
fn round_trip_simple_span_id() {
    assert_simple_round_trip(LogField::SpanId, "span_id");
}

#[test]
fn round_trip_simple_event_name() {
    assert_simple_round_trip(LogField::EventName, "event_name");
}

#[test]
fn round_trip_simple_resource_schema_url() {
    assert_simple_round_trip(LogField::ResourceSchemaUrl, "resource.schema_url");
}

#[test]
fn round_trip_simple_scope_schema_url() {
    assert_simple_round_trip(LogField::ScopeSchemaUrl, "scope.schema_url");
}

// --- Resource / scope attribute Transformable coverage ---------------
//
// `LogAttribute` is already covered in detail. These mirror the same
// operations for the resource and scope namespaces so the namespace
// dispatch in `path_for` is exercised end-to-end.

#[test]
fn set_resource_attribute_flat() {
    let mut log = LogEvent::default();
    {
        let m = mapping();
        let mut adapter = VectorLogAdapter::new(&mut log, &m);
        adapter.set_field(
            &LogFieldSelector::ResourceAttribute(vec!["region".to_string()]),
            "us-east-1",
        );
    }
    assert_eq!(
        get(&log, "resource.attributes.region")
            .and_then(|v| v.as_str()),
        Some("us-east-1".into()),
    );
}

#[test]
fn set_resource_attribute_nested() {
    let mut log = LogEvent::default();
    {
        let m = mapping();
        let mut adapter = VectorLogAdapter::new(&mut log, &m);
        adapter.set_field(
            &LogFieldSelector::ResourceAttribute(vec!["k8s".to_string(), "pod".to_string()]),
            "vector-0",
        );
    }
    assert_eq!(
        get(&log, "resource.attributes.k8s.pod")
            .and_then(|v| v.as_str()),
        Some("vector-0".into()),
    );
}

#[test]
fn delete_resource_attribute() {
    let mut log = LogEvent::default();
    put(&mut log, "resource.attributes.region", Value::text("us-east-1"));
    let was_present = {
        let m = mapping();
        let mut adapter = VectorLogAdapter::new(&mut log, &m);
        adapter.delete_field(&LogFieldSelector::ResourceAttribute(vec![
            "region".to_string(),
        ]))
    };
    assert!(was_present);
    assert!(get(&log, "resource.attributes.region").is_none());
}

#[test]
fn move_resource_attribute_within_namespace() {
    let mut log = LogEvent::default();
    put(&mut log, "resource.attributes.zone", Value::text("ap-south-1a"));
    {
        let m = mapping();
        let mut adapter = VectorLogAdapter::new(&mut log, &m);
        adapter.move_field(
            &LogFieldSelector::ResourceAttribute(vec!["zone".to_string()]),
            &LogFieldSelector::ResourceAttribute(vec!["availability_zone".to_string()]),
        );
    }
    assert!(get(&log, "resource.attributes.zone").is_none());
    assert_eq!(
        get(&log, "resource.attributes.availability_zone")
            .and_then(|v| v.as_str()),
        Some("ap-south-1a".into()),
    );
}

#[test]
fn set_scope_attribute_flat() {
    let mut log = LogEvent::default();
    {
        let m = mapping();
        let mut adapter = VectorLogAdapter::new(&mut log, &m);
        adapter.set_field(
            &LogFieldSelector::ScopeAttribute(vec!["lib_version".to_string()]),
            "1.2.3",
        );
    }
    assert_eq!(
        get(&log, "scope.attributes.lib_version")
            .and_then(|v| v.as_str()),
        Some("1.2.3".into()),
    );
}

#[test]
fn set_scope_attribute_nested() {
    let mut log = LogEvent::default();
    {
        let m = mapping();
        let mut adapter = VectorLogAdapter::new(&mut log, &m);
        adapter.set_field(
            &LogFieldSelector::ScopeAttribute(vec!["vendor".to_string(), "name".to_string()]),
            "otel",
        );
    }
    assert_eq!(
        get(&log, "scope.attributes.vendor.name")
            .and_then(|v| v.as_str()),
        Some("otel".into()),
    );
}

#[test]
fn delete_scope_attribute() {
    let mut log = LogEvent::default();
    put(&mut log, "scope.attributes.lib_version", Value::text("1.2.3"));
    let was_present = {
        let m = mapping();
        let mut adapter = VectorLogAdapter::new(&mut log, &m);
        adapter.delete_field(&LogFieldSelector::ScopeAttribute(vec![
            "lib_version".to_string(),
        ]))
    };
    assert!(was_present);
    assert!(get(&log, "scope.attributes.lib_version").is_none());
}

#[test]
fn move_scope_attribute_within_namespace() {
    let mut log = LogEvent::default();
    put(&mut log, "scope.attributes.legacy", Value::text("x"));
    {
        let m = mapping();
        let mut adapter = VectorLogAdapter::new(&mut log, &m);
        adapter.move_field(
            &LogFieldSelector::ScopeAttribute(vec!["legacy".to_string()]),
            &LogFieldSelector::ScopeAttribute(vec!["renamed".to_string()]),
        );
    }
    assert!(get(&log, "scope.attributes.legacy").is_none());
    assert_eq!(
        get(&log, "scope.attributes.renamed").and_then(|v| v.as_str()),
        Some("x".into()),
    );
}
