use policy_transform::otlp_trace_adapter::TraceAdapter;
use policy_transform::selector::{TraceField, TraceFieldSelector};
use policy_transform::value::Value;

fn json(text: &str) -> Value {
    let json: serde_json::Value = serde_json::from_str(text).unwrap();
    Value::from_vrl(vrl::value::Value::from(json))
}

fn adapter(span: &mut Value) -> TraceAdapter<'_> {
    TraceAdapter {
        span,
        resource: None,
        scope: None,
        resource_schema_url: None,
        scope_schema_url: None,
    }
}

fn get(span: &str, selector: TraceFieldSelector) -> Option<String> {
    adapter(&mut json(span)).get_field(&selector)
}

#[test]
fn simple_span_fields() {
    let span = r#"{"name": "GET /", "traceId": "0af7", "spanId": "b7ad", "parentSpanId": "",
        "traceState": "ot=th:8", "kind": "SPAN_KIND_SERVER"}"#;
    let simple = |field| get(span, TraceFieldSelector::Simple(field));
    assert_eq!(simple(TraceField::Name).as_deref(), Some("GET /"));
    assert_eq!(simple(TraceField::TraceId).as_deref(), Some("0af7"));
    assert_eq!(simple(TraceField::SpanId).as_deref(), Some("b7ad"));
    assert_eq!(simple(TraceField::ParentSpanId), None);
    assert_eq!(simple(TraceField::TraceState).as_deref(), Some("ot=th:8"));
    assert_eq!(simple(TraceField::Unspecified), None);
    assert_eq!(
        get(span, TraceFieldSelector::SpanKind).as_deref(),
        Some("SPAN_KIND_SERVER"),
    );
}

#[test]
fn span_status_codes() {
    let status = |span: &str| get(span, TraceFieldSelector::SpanStatus);
    assert_eq!(
        status(r#"{"status": {"code": "STATUS_CODE_OK"}}"#).as_deref(),
        Some("SPAN_STATUS_CODE_OK"),
    );
    assert_eq!(
        status(r#"{"status": {"code": "STATUS_CODE_ERROR"}}"#).as_deref(),
        Some("SPAN_STATUS_CODE_ERROR"),
    );
    assert_eq!(
        status(r#"{"status": {"code": "STATUS_CODE_UNSET"}}"#).as_deref(),
        Some("SPAN_STATUS_CODE_UNSPECIFIED"),
    );
    // A status without a code is unset; no status at all is none.
    assert_eq!(
        status(r#"{"status": {}}"#).as_deref(),
        Some("SPAN_STATUS_CODE_UNSPECIFIED"),
    );
    assert_eq!(status(r#"{"status": {"code": "OTHER"}}"#), None);
    assert_eq!(status(r#"{"status": "STATUS_CODE_OK"}"#), None);
    assert_eq!(status(r#"{}"#), None);
}

#[test]
fn event_name_is_the_first_non_empty_one() {
    let name = |span: &str| get(span, TraceFieldSelector::EventName);
    assert_eq!(
        name(r#"{"events": [{}, {"name": ""}, {"name": "exception"}, {"name": "later"}]}"#)
            .as_deref(),
        Some("exception"),
    );
    assert_eq!(name(r#"{"events": []}"#), None);
    assert_eq!(name(r#"{"events": "x"}"#), None);
}

#[test]
fn attributes_and_surroundings() {
    let mut span = json(
        r#"{"attributes": [
            {"key": "http.method", "value": {"stringValue": "GET"}},
            {"key": "retries", "value": {"intValue": "3"}}
        ]}"#,
    );
    let resource = json(r#"{"attributes": [{"key": "service.name", "value": {"stringValue": "api"}}]}"#);
    let scope = json(r#"{"name": "lib", "version": "1.2", "attributes": []}"#);
    let resource_url = Value::text("https://schema/1");
    let scope_url = Value::text("");
    let adapter = TraceAdapter {
        span: &mut span,
        resource: Some(&resource),
        scope: Some(&scope),
        resource_schema_url: Some(&resource_url),
        scope_schema_url: Some(&scope_url),
    };
    let attribute = |key: &str| TraceFieldSelector::SpanAttribute(vec![key.to_string()]);
    assert_eq!(adapter.get_field(&attribute("http.method")).as_deref(), Some("GET"));
    assert_eq!(adapter.get_field(&attribute("retries")), None);
    assert!(adapter.field_exists(&attribute("retries")));
    assert!(!adapter.field_exists(&attribute("missing")));
    let service = TraceFieldSelector::ResourceAttribute(vec!["service.name".to_string()]);
    assert_eq!(adapter.get_field(&service).as_deref(), Some("api"));
    assert!(adapter.field_exists(&service));
    let absent = TraceFieldSelector::ScopeAttribute(vec!["k".to_string()]);
    assert!(!adapter.field_exists(&absent));
    let simple = |field| adapter.get_field(&TraceFieldSelector::Simple(field));
    assert_eq!(simple(TraceField::ScopeName).as_deref(), Some("lib"));
    assert_eq!(simple(TraceField::ScopeVersion).as_deref(), Some("1.2"));
    assert_eq!(simple(TraceField::ResourceSchemaUrl).as_deref(), Some("https://schema/1"));
    assert_eq!(simple(TraceField::ScopeSchemaUrl), None);
    assert_eq!(
        adapter.get_field(&TraceFieldSelector::EventAttribute(vec!["x".to_string()])),
        None,
    );
    assert_eq!(adapter.get_field(&TraceFieldSelector::LinkTraceId), None);
    assert_eq!(adapter.get_field(&TraceFieldSelector::SamplingThreshold), None);
}

#[test]
fn sampling_threshold_goes_into_the_trace_state() {
    let mut span = json(r#"{"name": "x", "traceState": "v=1,ot=rv:2;th:0"}"#);
    adapter(&mut span).set_field(&TraceFieldSelector::SamplingThreshold, "8000");
    assert_eq!(span, json(r#"{"name": "x", "traceState": "ot=rv:2;th:8000,v=1"}"#));

    let mut span = json(r#"{}"#);
    adapter(&mut span).set_field(&TraceFieldSelector::SamplingThreshold, "c");
    assert_eq!(span, json(r#"{"traceState": "ot=th:c"}"#));

    // What is no object has no place for it.
    let mut span = json(r#""x""#);
    adapter(&mut span).set_field(&TraceFieldSelector::SamplingThreshold, "c");
    assert_eq!(span, json(r#""x""#));
}

#[test]
fn other_span_fields_cannot_be_changed() {
    let before = json(r#"{"name": "x", "attributes": []}"#);
    let mut span = before.clone();
    let name = TraceFieldSelector::Simple(TraceField::Name);
    let mut adapter = adapter(&mut span);
    adapter.set_field(&name, "y");
    assert!(!adapter.delete_field(&name));
    adapter.move_field(&name, &TraceFieldSelector::SpanKind);
    assert_eq!(span, before);
}
