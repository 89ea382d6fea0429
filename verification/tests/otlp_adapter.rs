use policy_transform::otlp_adapter::{any_value_to_string, OtlpLogAdapter};
use policy_transform::otlp_log_adapter::{make_attribute_entry, make_string_any_value};
use policy_transform::selector::{LogField, LogFieldSelector};
use policy_transform::value::{ObjectMap, Value};

/// Build a single OTLP log record `Value` with the given body and a
/// `user_id` string attribute. Keeps the test bodies tiny.
fn record_with_body_and_attr(body: &str, attr_key: &str, attr_val: &str) -> Value {
    let mut record = ObjectMap::new();
    record.insert("body".to_string(), make_string_any_value(body));
    record.insert("severityText".to_string(), Value::text("INFO"));
    record.insert("attributes".to_string(),
        Value::Array(vec![make_attribute_entry(
            attr_key,
            make_string_any_value(attr_val),
        )]),
    );
    Value::Object(record)
}

fn resource_with_attr(key: &str, val: &str) -> Value {
    let mut resource = ObjectMap::new();
    resource.insert("attributes".to_string(),
        Value::Array(vec![make_attribute_entry(key, make_string_any_value(val))]),
    );
    Value::Object(resource)
}

fn scope_with_attr(key: &str, val: &str) -> Value {
    let mut scope = ObjectMap::new();
    scope.insert("name".to_string(), Value::text("test"));
    scope.insert("attributes".to_string(),
        Value::Array(vec![make_attribute_entry(key, make_string_any_value(val))]),
    );
    Value::Object(scope)
}

#[test]
fn any_value_string() {
    let v = make_string_any_value("hello");
    assert_eq!(any_value_to_string(&v).as_deref(), Some("hello"));
}

#[test]
fn any_value_int_stringifies() {
    let mut obj = ObjectMap::new();
    obj.insert("intValue".to_string(), Value::Integer(42));
    assert_eq!(
        any_value_to_string(&Value::Object(obj)).as_deref(),
        Some("42"),
    );
}

#[test]
fn any_value_bool_stringifies() {
    let mut obj = ObjectMap::new();
    obj.insert("boolValue".to_string(), Value::Boolean(true));
    assert_eq!(
        any_value_to_string(&Value::Object(obj)).as_deref(),
        Some("true"),
    );
}

#[test]
fn any_value_double_stringifies() {
    let mut obj = ObjectMap::new();
    obj.insert("doubleValue".to_string(),
        Value::from_vrl(vrl::value::Value::from_f64_or_zero(1.5)),
    );
    assert!(matches!(
        any_value_to_string(&Value::Object(obj)).as_deref(),
        Some(s) if s.starts_with("1.5"),
    ));
}

#[test]
fn any_value_array_returns_none_for_matching() {
    let mut obj = ObjectMap::new();
    obj.insert("arrayValue".to_string(), Value::Array(vec![]));
    assert_eq!(any_value_to_string(&Value::Object(obj)), None);
}

#[test]
fn get_body_string() {
    let mut record = record_with_body_and_attr("hi", "user_id", "42");
    let adapter = OtlpLogAdapter::new(&mut record, None, None, None, None);
    assert_eq!(
        adapter
            .get_field(&LogFieldSelector::Simple(LogField::Body))
            .as_deref(),
        Some("hi"),
    );
}

#[test]
fn otlp_adapter_get_log_attribute_flat() {
    let mut record = record_with_body_and_attr("hi", "user_id", "42");
    let adapter = OtlpLogAdapter::new(&mut record, None, None, None, None);
    assert_eq!(
        adapter
            .get_field(&LogFieldSelector::LogAttribute(vec!["user_id".to_string()]))
            .as_deref(),
        Some("42"),
    );
}

#[test]
fn get_log_attribute_nested_dot_joins() {
    let mut record = record_with_body_and_attr("x", "http.method", "GET");
    let adapter = OtlpLogAdapter::new(&mut record, None, None, None, None);
    assert_eq!(
        adapter
            .get_field(&LogFieldSelector::LogAttribute(vec![
                "http".to_string(),
                "method".to_string()
            ]))
            .as_deref(),
        Some("GET"),
    );
}

#[test]
fn get_resource_attribute_via_immutable_ref() {
    let mut record = record_with_body_and_attr("x", "noise", "v");
    let resource = resource_with_attr("service.name", "frontend");
    let adapter = OtlpLogAdapter::new(&mut record, Some(&resource), None, None, None);
    assert_eq!(
        adapter
            .get_field(&LogFieldSelector::ResourceAttribute(vec![
                "service.name".to_string()
            ]))
            .as_deref(),
        Some("frontend"),
    );
}

#[test]
fn get_scope_attribute_via_immutable_ref() {
    let mut record = record_with_body_and_attr("x", "noise", "v");
    let scope = scope_with_attr("library", "tracer");
    let adapter = OtlpLogAdapter::new(&mut record, None, Some(&scope), None, None);
    assert_eq!(
        adapter
            .get_field(&LogFieldSelector::ScopeAttribute(vec![
                "library".to_string()
            ]))
            .as_deref(),
        Some("tracer"),
    );
}

#[test]
fn get_resource_schema_url() {
    let mut record = record_with_body_and_attr("x", "noise", "v");
    let schema = Value::text("https://opentelemetry.io/schemas/1.0");
    let adapter = OtlpLogAdapter::new(&mut record, None, None, Some(&schema), None);
    assert_eq!(
        adapter
            .get_field(&LogFieldSelector::Simple(LogField::ResourceSchemaUrl))
            .as_deref(),
        Some("https://opentelemetry.io/schemas/1.0"),
    );
}

#[test]
fn field_exists_for_non_string_attribute() {
    // intValue attribute must satisfy exists matchers even though
    // get_field returns Some("42").
    let mut record = ObjectMap::new();
    record.insert("body".to_string(), make_string_any_value("x"));
    let mut attr_value = ObjectMap::new();
    attr_value.insert("intValue".to_string(), Value::Integer(42));
    record.insert("attributes".to_string(),
        Value::Array(vec![make_attribute_entry(
            "count",
            Value::Object(attr_value),
        )]),
    );
    let mut record = Value::Object(record);
    let adapter = OtlpLogAdapter::new(&mut record, None, None, None, None);
    assert!(adapter.field_exists(&LogFieldSelector::LogAttribute(vec!["count".to_string()])));
}

#[test]
fn set_attribute_overwrites_existing() {
    let mut record = record_with_body_and_attr("x", "user_id", "42");
    {
        let mut adapter = OtlpLogAdapter::new(&mut record, None, None, None, None);
        adapter.set_field(
            &LogFieldSelector::LogAttribute(vec!["user_id".to_string()]),
            "99",
        );
    }
    let adapter = OtlpLogAdapter::new(&mut record, None, None, None, None);
    assert_eq!(
        adapter
            .get_field(&LogFieldSelector::LogAttribute(vec!["user_id".to_string()]))
            .as_deref(),
        Some("99"),
    );
}

#[test]
fn set_attribute_creates_when_absent() {
    let mut record = ObjectMap::new();
    record.insert("body".to_string(), make_string_any_value("x"));
    let mut record = Value::Object(record);
    {
        let mut adapter = OtlpLogAdapter::new(&mut record, None, None, None, None);
        adapter.set_field(
            &LogFieldSelector::LogAttribute(vec!["new".to_string()]),
            "v",
        );
    }
    let adapter = OtlpLogAdapter::new(&mut record, None, None, None, None);
    assert_eq!(
        adapter
            .get_field(&LogFieldSelector::LogAttribute(vec!["new".to_string()]))
            .as_deref(),
        Some("v"),
    );
}

#[test]
fn set_simple_body_replaces_any_value() {
    let mut record = record_with_body_and_attr("old", "k", "v");
    {
        let mut adapter = OtlpLogAdapter::new(&mut record, None, None, None, None);
        adapter.set_field(&LogFieldSelector::Simple(LogField::Body), "new");
    }
    let adapter = OtlpLogAdapter::new(&mut record, None, None, None, None);
    assert_eq!(
        adapter
            .get_field(&LogFieldSelector::Simple(LogField::Body))
            .as_deref(),
        Some("new"),
    );
}

#[test]
fn set_resource_attribute_is_noop() {
    let mut record = record_with_body_and_attr("x", "k", "v");
    let resource = resource_with_attr("a", "b");
    let resource_before = resource.clone();
    {
        let mut adapter = OtlpLogAdapter::new(&mut record, Some(&resource), None, None, None);
        adapter.set_field(
            &LogFieldSelector::ResourceAttribute(vec!["a".to_string()]),
            "ignored",
        );
    }
    assert_eq!(resource, resource_before, "resource must not be mutated");
}

#[test]
fn delete_attribute_present() {
    let mut record = record_with_body_and_attr("x", "user_id", "42");
    let removed = {
        let mut adapter = OtlpLogAdapter::new(&mut record, None, None, None, None);
        adapter.delete_field(&LogFieldSelector::LogAttribute(vec!["user_id".to_string()]))
    };
    assert!(removed);
    let adapter = OtlpLogAdapter::new(&mut record, None, None, None, None);
    assert!(
        adapter
            .get_field(&LogFieldSelector::LogAttribute(vec!["user_id".to_string()]))
            .is_none(),
    );
}

#[test]
fn delete_attribute_absent_returns_false() {
    let mut record = record_with_body_and_attr("x", "user_id", "42");
    let removed = {
        let mut adapter = OtlpLogAdapter::new(&mut record, None, None, None, None);
        adapter.delete_field(&LogFieldSelector::LogAttribute(vec!["other".to_string()]))
    };
    assert!(!removed);
}

#[test]
fn otlp_adapter_delete_simple_body() {
    let mut record = record_with_body_and_attr("x", "k", "v");
    let removed = {
        let mut adapter = OtlpLogAdapter::new(&mut record, None, None, None, None);
        adapter.delete_field(&LogFieldSelector::Simple(LogField::Body))
    };
    assert!(removed);
    let adapter = OtlpLogAdapter::new(&mut record, None, None, None, None);
    assert!(
        adapter
            .get_field(&LogFieldSelector::Simple(LogField::Body))
            .is_none(),
    );
}

#[test]
fn move_attribute_within_log_attributes() {
    let mut record = record_with_body_and_attr("x", "usr", "admin");
    {
        let mut adapter = OtlpLogAdapter::new(&mut record, None, None, None, None);
        adapter.move_field(
            &LogFieldSelector::LogAttribute(vec!["usr".to_string()]),
            &LogFieldSelector::LogAttribute(vec!["user_id".to_string()]),
        );
    }
    let adapter = OtlpLogAdapter::new(&mut record, None, None, None, None);
    assert!(
        adapter
            .get_field(&LogFieldSelector::LogAttribute(vec!["usr".to_string()]))
            .is_none(),
    );
    assert_eq!(
        adapter
            .get_field(&LogFieldSelector::LogAttribute(vec!["user_id".to_string()]))
            .as_deref(),
        Some("admin"),
    );
}
