use policy_transform::otlp_metric_adapter::MetricAdapter;
use policy_transform::selector::{MetricField, MetricFieldSelector};
use policy_transform::value::Value;

fn json(text: &str) -> Value {
    let json: serde_json::Value = serde_json::from_str(text).unwrap();
    Value::from_vrl(vrl::value::Value::from(json))
}

fn adapter<'a>(
    metric: &'a Value,
    resource: Option<&'a Value>,
    scope: Option<&'a Value>,
) -> MetricAdapter<'a> {
    MetricAdapter {
        metric,
        resource,
        scope,
        resource_schema_url: None,
        scope_schema_url: None,
    }
}

fn get(metric: &Value, sel: MetricFieldSelector) -> Option<String> {
    adapter(metric, None, None).get_field(&sel)
}

#[test]
fn metric_type_derived_from_data_variant() {
    let cases = [
        (json(r#"{"name": "m", "gauge": {"dataPoints": []}}"#), "METRIC_TYPE_GAUGE"),
        (json(r#"{"name": "m", "sum": {"dataPoints": []}}"#), "METRIC_TYPE_SUM"),
        (
            json(r#"{"name": "m", "histogram": {"dataPoints": []}}"#),
            "METRIC_TYPE_HISTOGRAM",
        ),
        (
            json(r#"{"name": "m", "exponentialHistogram": {"dataPoints": []}}"#),
            "METRIC_TYPE_EXPONENTIAL_HISTOGRAM",
        ),
        (
            json(r#"{"name": "m", "summary": {"dataPoints": []}}"#),
            "METRIC_TYPE_SUMMARY",
        ),
    ];
    for (metric, expected) in cases {
        assert_eq!(
            get(&metric, MetricFieldSelector::Type),
            Some(expected.to_string()),
        );
    }
}

#[test]
fn temporality_read_from_data_variant() {
    let delta = json(r#"{
        "name": "m",
        "sum": {"dataPoints": [], "aggregationTemporality": "AGGREGATION_TEMPORALITY_DELTA"}
    }"#);
    assert_eq!(
        get(&delta, MetricFieldSelector::Temporality),
        Some("AGGREGATION_TEMPORALITY_DELTA".to_string()),
    );

    // Gauge has no temporality.
    let gauge = json(r#"{"name": "m", "gauge": {"dataPoints": []}}"#);
    assert_eq!(get(&gauge, MetricFieldSelector::Temporality), None);
}

#[test]
fn descriptor_fields() {
    let m = json(r#"{
        "name": "http.requests", "description": "count", "unit": "1",
        "gauge": {"dataPoints": []}
    }"#);
    assert_eq!(
        get(&m, MetricFieldSelector::Simple(MetricField::Name)),
        Some("http.requests".to_string()),
    );
    assert_eq!(
        get(&m, MetricFieldSelector::Simple(MetricField::Description)),
        Some("count".to_string()),
    );
    assert_eq!(
        get(&m, MetricFieldSelector::Simple(MetricField::Unit)),
        Some("1".to_string()),
    );
}

#[test]
fn datapoint_attribute_uses_first_datapoint() {
    let m = json(r#"{"name": "m", "sum": {"dataPoints": [
        {"attributes": [{"key": "http.method", "value": {"stringValue": "GET"}}]},
        {"attributes": [{"key": "http.method", "value": {"stringValue": "POST"}}]}
    ]}}"#);
    assert_eq!(
        get(
            &m,
            MetricFieldSelector::DatapointAttribute(vec!["http.method".to_string()])
        ),
        Some("GET".to_string()),
    );
}

#[test]
fn non_string_datapoint_attr_exists_but_is_unmatchable() {
    let m = json(r#"{"name": "m", "sum": {"dataPoints": [
        {"attributes": [{"key": "count", "value": {"intValue": "42"}}]}
    ]}}"#);
    let sel = MetricFieldSelector::DatapointAttribute(vec!["count".to_string()]);
    // Not coercible to a string for matching...
    assert_eq!(get(&m, sel.clone()), None);
    // ...but `exists` still fires.
    assert!(adapter(&m, None, None).field_exists(&sel));
}

#[test]
fn resource_and_scope_fields() {
    let m = json(r#"{"name": "m", "gauge": {"dataPoints": []}}"#);
    let resource =
        json(r#"{"attributes": [{"key": "service.name", "value": {"stringValue": "api"}}]}"#);
    let scope = json(r#"{
        "name": "lib", "version": "1.2",
        "attributes": [{"key": "k", "value": {"stringValue": "x"}}]
    }"#);
    let adapter = adapter(&m, Some(&resource), Some(&scope));
    let g = |sel| adapter.get_field(&sel);
    assert_eq!(
        g(MetricFieldSelector::ResourceAttribute(vec![
            "service.name".to_string()
        ])),
        Some("api".to_string()),
    );
    assert_eq!(
        g(MetricFieldSelector::ScopeAttribute(vec!["k".to_string()])),
        Some("x".to_string()),
    );
    assert_eq!(
        g(MetricFieldSelector::Simple(MetricField::ScopeName)),
        Some("lib".to_string()),
    );
    assert_eq!(
        g(MetricFieldSelector::Simple(MetricField::ScopeVersion)),
        Some("1.2".to_string()),
    );
}
