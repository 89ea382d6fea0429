use policy_transform::otlp_log_adapter::{
    make_attribute_entry, make_string_any_value, OtlpLogAdapter,
};
use policy_transform::selector::{LogField, LogFieldSelector};
use policy_transform::value::{ObjectMap, Value};

fn any_int(v: i64) -> Value {
    let mut obj = ObjectMap::new();
    obj.insert("intValue".to_string(), Value::Integer(v));
    Value::Object(obj)
}

fn record_with_attr(attr_key: &str, attr_val: Value) -> Value {
    let mut record = ObjectMap::new();
    record.insert("body".to_string(), make_string_any_value("hi"));
    record.insert("severityText".to_string(), Value::text("INFO"));
    record.insert("attributes".to_string(),
        Value::Array(vec![make_attribute_entry(attr_key, attr_val)]),
    );
    Value::Object(record)
}

fn obj_with_attrs(pairs: Vec<(&str, Value)>) -> Value {
    let mut o = ObjectMap::new();
    o.insert("attributes".to_string(),
        Value::Array(
            pairs
                .into_iter()
                .map(|(k, v)| make_attribute_entry(k, v))
                .collect(),
        ),
    );
    Value::Object(o)
}

fn get(adapter: &OtlpLogAdapter, sel: LogFieldSelector) -> Option<String> {
    adapter.get_field(&sel)
}

#[test]
fn matches_string_attribute() {
    let mut record = record_with_attr("user_id", make_string_any_value("42"));
    let adapter = OtlpLogAdapter::new(&mut record, None, None, None, None);
    assert_eq!(
        get(
            &adapter,
            LogFieldSelector::LogAttribute(vec!["user_id".into()])
        ),
        Some("42".to_string())
    );
}

#[test]
fn int_attribute_is_not_matchable_but_exists() {
    let mut record = record_with_attr("count", any_int(42));
    let adapter = OtlpLogAdapter::new(&mut record, None, None, None, None);
    // get_field must return None (not "42") so a regex redact won't fire.
    assert_eq!(
        get(
            &adapter,
            LogFieldSelector::LogAttribute(vec!["count".into()])
        ),
        None
    );
    // but exists: true must still match.
    assert!(adapter.field_exists(&LogFieldSelector::LogAttribute(vec!["count".into()])));
}

#[test]
fn empty_string_simple_field_is_absent() {
    let mut record = ObjectMap::new();
    record.insert("spanId".to_string(), Value::text(""));
    record.insert("severityText".to_string(), Value::text("INFO"));
    let mut record = Value::Object(record);
    let adapter = OtlpLogAdapter::new(&mut record, None, None, None, None);
    assert!(!adapter.field_exists(&LogFieldSelector::Simple(LogField::SpanId)));
    assert!(adapter.field_exists(&LogFieldSelector::Simple(LogField::SeverityText)));
}

#[test]
fn hex_span_id_is_matched_verbatim() {
    let mut record = ObjectMap::new();
    record.insert("spanId".to_string(), Value::text("7370616e30303031"));
    let mut record = Value::Object(record);
    let adapter = OtlpLogAdapter::new(&mut record, None, None, None, None);
    assert_eq!(
        get(&adapter, LogFieldSelector::Simple(LogField::SpanId)),
        Some("7370616e30303031".to_string())
    );
}

#[test]
fn body_present_only_when_non_empty() {
    // Missing body.
    let mut record = Value::Object(ObjectMap::new());
    let adapter = OtlpLogAdapter::new(&mut record, None, None, None, None);
    assert!(!adapter.field_exists(&LogFieldSelector::Simple(LogField::Body)));

    // Empty AnyValue (body: {}) counts as missing.
    let mut record = ObjectMap::new();
    record.insert("body".to_string(), Value::Object(ObjectMap::new()));
    let mut record = Value::Object(record);
    let adapter = OtlpLogAdapter::new(&mut record, None, None, None, None);
    assert!(!adapter.field_exists(&LogFieldSelector::Simple(LogField::Body)));
}

#[test]
fn add_body_when_missing() {
    let mut record = Value::Object(ObjectMap::new());
    {
        let mut adapter = OtlpLogAdapter::new(&mut record, None, None, None, None);
        adapter.set_field(
            &LogFieldSelector::Simple(LogField::Body),
            "[no body provided]",
        );
    }
    let adapter = OtlpLogAdapter::new(&mut record, None, None, None, None);
    assert_eq!(
        get(&adapter, LogFieldSelector::Simple(LogField::Body)),
        Some("[no body provided]".to_string())
    );
}

#[test]
fn walks_nested_kvlist() {
    let mut inner = ObjectMap::new();
    inner.insert("values".to_string(),
        Value::Array(vec![make_attribute_entry(
            "method",
            make_string_any_value("GET"),
        )]),
    );
    let mut http_val = ObjectMap::new();
    http_val.insert("kvlistValue".to_string(), Value::Object(inner));
    let mut record = record_with_attr("http", Value::Object(http_val));
    let adapter = OtlpLogAdapter::new(&mut record, None, None, None, None);
    assert_eq!(
        get(
            &adapter,
            LogFieldSelector::LogAttribute(vec!["http".into(), "method".into()])
        ),
        Some("GET".to_string())
    );
    assert!(adapter.field_exists(&LogFieldSelector::LogAttribute(vec![
        "http".into(),
        "method".into()
    ])));
}

#[test]
fn resource_attribute_is_mutable() {
    let mut record = record_with_attr("noise", make_string_any_value("v"));
    let mut resource = obj_with_attrs(vec![("existing", make_string_any_value("x"))]);
    {
        let mut adapter =
            OtlpLogAdapter::new(&mut record, Some(&mut resource), None, None, None);
        adapter.set_field(
            &LogFieldSelector::ResourceAttribute(vec!["processed_by".into()]),
            "policy",
        );
    }
    let adapter = OtlpLogAdapter::new(&mut record, Some(&mut resource), None, None, None);
    assert_eq!(
        get(
            &adapter,
            LogFieldSelector::ResourceAttribute(vec!["processed_by".into()])
        ),
        Some("policy".to_string())
    );
}

#[test]
fn scope_attribute_remove_and_rename() {
    let mut record = record_with_attr("noise", make_string_any_value("v"));
    let mut scope = obj_with_attrs(vec![
        ("secret", make_string_any_value("abc")),
        ("old", make_string_any_value("val")),
    ]);
    {
        let mut adapter = OtlpLogAdapter::new(&mut record, None, Some(&mut scope), None, None);
        assert!(adapter.delete_field(&LogFieldSelector::ScopeAttribute(vec!["secret".into()])));
        adapter.move_field(
            &LogFieldSelector::ScopeAttribute(vec!["old".into()]),
            &LogFieldSelector::ScopeAttribute(vec!["new".into()]),
        );
    }
    let adapter = OtlpLogAdapter::new(&mut record, None, Some(&mut scope), None, None);
    assert!(
        get(
            &adapter,
            LogFieldSelector::ScopeAttribute(vec!["secret".into()])
        )
        .is_none()
    );
    assert!(
        get(
            &adapter,
            LogFieldSelector::ScopeAttribute(vec!["old".into()])
        )
        .is_none()
    );
    assert_eq!(
        get(
            &adapter,
            LogFieldSelector::ScopeAttribute(vec!["new".into()])
        ),
        Some("val".to_string())
    );
}

#[test]
fn redact_regex_skips_non_string_value() {
    // An intValue attribute must be left untouched because get_field returns None.
    let mut record = record_with_attr("count", any_int(42));
    {
        let adapter = OtlpLogAdapter::new(&mut record, None, None, None, None);
        // The engine reads the value first; None means redact is skipped.
        assert!(
            adapter
                .get_field(&LogFieldSelector::LogAttribute(vec!["count".into()]))
                .is_none()
        );
    }
    // The underlying intValue is still present and unchanged.
    let count = record
        .get("attributes")
        .and_then(Value::as_array)
        .and_then(|a| a.first())
        .and_then(|kv| kv.get("value"))
        .and_then(|o| o.get("intValue"))
        .cloned();
    assert_eq!(count, Some(Value::Integer(42)));
}
