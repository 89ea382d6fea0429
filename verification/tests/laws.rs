use policy_transform::adapter::VectorLogAdapter;
use policy_transform::config::{
    ClientMetadata, HttpProviderConfig, PolicyConfig, ProviderConfig,
};
use policy_transform::envelope::EnvelopeWalk;
use policy_transform::field_mapping::FieldMapping;
use policy_transform::internal_events::DropReason;
use policy_transform::log_event::LogEvent;
use policy_transform::otlp::{hex_decode, hex_decode_ids, hex_encode, hex_encode_ids};
use policy_transform::otlp_adapter::OtlpLogAdapter as DottedLogAdapter;
use policy_transform::otlp_log_adapter::OtlpLogAdapter;
use policy_transform::otlp_metric_adapter::MetricAdapter;
use policy_transform::otlp_trace_adapter::TraceAdapter;
use policy_transform::path::ConfigValuePath;
use policy_transform::selector::{
    LogField, LogFieldSelector, MetricField, MetricFieldSelector, TraceField, TraceFieldSelector,
};
use policy_transform::value::Value;
use policy_transform::verdict::{EvaluateResult, Signal};
use std::collections::HashMap;

fn json(text: &str) -> Value {
    let json: serde_json::Value = serde_json::from_str(text).unwrap();
    Value::from_vrl(vrl::value::Value::from(json))
}

fn path(text: &str) -> ConfigValuePath {
    ConfigValuePath::try_from(text.to_string()).unwrap()
}

fn segments(keys: &[&str]) -> Vec<String> {
    keys.iter().map(|key| key.to_string()).collect()
}

fn record() -> Value {
    json(
        r#"{"body": {"stringValue": "hello"}, "severityText": "INFO", "traceId": "ab",
            "spanId": "cd", "eventName": "login", "attributes": [
                {"key": "a", "value": {"stringValue": "1"}},
                {"key": "b", "value": {"intValue": "2"}},
                {"key": "a", "value": {"stringValue": "3"}}
            ]}"#,
    )
}

fn parent() -> Value {
    json(r#"{"attributes": [{"key": "a", "value": {"stringValue": "p"}}]}"#)
}

fn log_selectors() -> Vec<LogFieldSelector> {
    let mut selectors: Vec<LogFieldSelector> = [
        LogField::Unspecified,
        LogField::Body,
        LogField::SeverityText,
        LogField::TraceId,
        LogField::SpanId,
        LogField::EventName,
        LogField::ResourceSchemaUrl,
        LogField::ScopeSchemaUrl,
    ]
    .into_iter()
    .map(LogFieldSelector::Simple)
    .collect();
    for key in ["a", "b", "c"] {
        selectors.push(LogFieldSelector::LogAttribute(segments(&[key])));
        selectors.push(LogFieldSelector::ResourceAttribute(segments(&[key])));
        selectors.push(LogFieldSelector::ScopeAttribute(segments(&[key])));
    }
    selectors
}

type View = Vec<(Option<String>, bool)>;

fn view(adapter: &OtlpLogAdapter<'_>) -> View {
    log_selectors()
        .iter()
        .map(|selector| (adapter.get_field(selector), adapter.field_exists(selector)))
        .collect()
}

/// What every selector sees of a record before and after a change, and the record itself.
fn changed(change: impl FnOnce(&mut OtlpLogAdapter<'_>)) -> (View, View) {
    let (mut log_record, mut resource, mut scope) = (record(), parent(), parent());
    let (resource_url, scope_url) = (Value::text("u1"), Value::text("u2"));
    let mut adapter = OtlpLogAdapter::new(
        &mut log_record,
        Some(&mut resource),
        Some(&mut scope),
        Some(&resource_url),
        Some(&scope_url),
    );
    let before = view(&adapter);
    change(&mut adapter);
    let after = view(&adapter);
    (before, after)
}

#[test]
fn other_fields_of_a_record_stay() {
    for (i, selector) in log_selectors().iter().enumerate() {
        let (before, after) = changed(|adapter| adapter.set_field(selector, "new"));
        let (gone_before, gone_after) = changed(|adapter| {
            adapter.delete_field(selector);
        });
        for j in 0..before.len() {
            if i != j {
                assert_eq!(before[j], after[j]);
                assert_eq!(gone_before[j], gone_after[j]);
            }
        }
        match selector {
            LogFieldSelector::Simple(
                LogField::Unspecified | LogField::ResourceSchemaUrl | LogField::ScopeSchemaUrl,
            ) => {
                assert_eq!(before[i], after[i]);
                assert_eq!(gone_before[i], gone_after[i]);
            }
            _ => {
                assert_eq!(after[i], (Some("new".to_string()), true));
                assert_eq!(gone_after[i], (None, false));
            }
        }
    }
}

#[test]
fn an_empty_text_reads_as_absent() {
    let (_, after) = changed(|adapter| {
        adapter.set_field(&LogFieldSelector::Simple(LogField::SeverityText), "");
    });
    assert_eq!(after[2], (None, false));
}

#[test]
fn moved_attributes_leave_the_others_alone() {
    let from = LogFieldSelector::ResourceAttribute(segments(&["a"]));
    let to = LogFieldSelector::LogAttribute(segments(&["b"]));
    let (before, after) = changed(|adapter| adapter.move_field(&from, &to));
    for (i, selector) in log_selectors().iter().enumerate() {
        if *selector == from {
            assert_eq!(after[i], (None, false));
        } else if *selector == to {
            assert_eq!(after[i], (Some("p".to_string()), true));
        } else {
            assert_eq!(after[i], before[i]);
        }
    }
    // Of several entries under one key a move takes the first.
    let from = LogFieldSelector::LogAttribute(segments(&["a"]));
    let (_, after) = changed(|adapter| adapter.move_field(&from, &to));
    assert_eq!(after[8], (Some("3".to_string()), true));
    assert_eq!(after[11], (Some("1".to_string()), true));
}

#[test]
fn what_is_matched_is_present() {
    let (before, _) = changed(|_| {});
    for (text, present) in before {
        assert!(present || text.is_none());
    }
    let metric = json(
        r#"{"name": "m", "unit": "", "sum": {"aggregationTemporality": "AGGREGATION_TEMPORALITY_DELTA",
            "dataPoints": [{"attributes": [{"key": "a", "value": {"stringValue": "1"}}]}]}}"#,
    );
    let adapter = MetricAdapter {
        metric: &metric,
        resource: None,
        scope: None,
        resource_schema_url: None,
        scope_schema_url: None,
    };
    for selector in [
        MetricFieldSelector::Simple(MetricField::Name),
        MetricFieldSelector::Type,
        MetricFieldSelector::Temporality,
        MetricFieldSelector::DatapointAttribute(segments(&["a"])),
    ] {
        assert!(adapter.get_field(&selector).is_some());
        assert!(adapter.field_exists(&selector));
    }
    assert!(!adapter.field_exists(&MetricFieldSelector::Simple(MetricField::Unit)));
}

#[test]
fn dotted_records_change_one_field_at_a_time() {
    for (i, selector) in log_selectors().iter().enumerate() {
        let mut log_record = record();
        let (resource, scope) = (parent(), parent());
        let mut adapter =
            DottedLogAdapter::new(&mut log_record, Some(&resource), Some(&scope), None, None);
        let before: Vec<Option<String>> =
            log_selectors().iter().map(|other| adapter.get_field(other)).collect();
        adapter.set_field(selector, "new");
        let after: Vec<Option<String>> =
            log_selectors().iter().map(|other| adapter.get_field(other)).collect();
        for j in 0..before.len() {
            if i != j {
                assert_eq!(before[j], after[j]);
            }
        }
        let writable = !matches!(
            selector,
            LogFieldSelector::Simple(
                LogField::Unspecified | LogField::ResourceSchemaUrl | LogField::ScopeSchemaUrl
            ) | LogFieldSelector::ResourceAttribute(_)
                | LogFieldSelector::ScopeAttribute(_)
        );
        if writable {
            assert_eq!(after[i].as_deref(), Some("new"));
        } else {
            assert_eq!(after[i], before[i]);
        }
    }
}

#[test]
fn flat_events_change_one_field_at_a_time() {
    let mapping = FieldMapping::default();
    for (i, selector) in log_selectors().iter().enumerate() {
        let mut log = LogEvent::from_value(json(
            r#"{"message": "m", "attributes": {"a": 1, "b": true}, "scope": {"attributes": {"c": "x"}}}"#,
        ));
        let mut adapter = VectorLogAdapter::new(&mut log, &mapping);
        let before: Vec<Option<String>> =
            log_selectors().iter().map(|other| adapter.get_field(other)).collect();
        adapter.set_field(selector, "new");
        adapter.delete_field(selector);
        let after: Vec<Option<String>> =
            log_selectors().iter().map(|other| adapter.get_field(other)).collect();
        for j in 0..before.len() {
            if i != j {
                assert_eq!(before[j], after[j]);
            }
        }
        assert_eq!(after[i], None);
    }
}

#[test]
fn a_threshold_changes_the_trace_state_alone() {
    let before = json(r#"{"name": "n", "kind": "K", "traceId": "t", "traceState": "v=1"}"#);
    let mut span = before.clone();
    let mut adapter = TraceAdapter {
        span: &mut span,
        resource: None,
        scope: None,
        resource_schema_url: None,
        scope_schema_url: None,
    };
    adapter.set_field(&TraceFieldSelector::SamplingThreshold, "8");
    let state = TraceFieldSelector::Simple(TraceField::TraceState);
    assert_eq!(adapter.get_field(&state).as_deref(), Some("ot=th:8,v=1"));
    for key in ["name", "kind", "traceId"] {
        assert_eq!(span.get(key), before.get(key));
    }
}

#[test]
fn paths_that_part_do_not_meet() {
    let mut value = json(r#"{"a": {"b": 1, "c": [1, 2]}}"#);
    value.insert_at(&path("a.b").segments, Value::text("x"));
    assert_eq!(value.get_at(&path("a.c[1]").segments), Some(&Value::Integer(2)));
    value.remove_at(&path("a.c").segments);
    assert_eq!(value, json(r#"{"a": {"b": "x"}}"#));
}

#[test]
fn ids_come_back_whatever_they_hold() {
    let mut event = json(
        r#"{"spans": [{"traceId": "zz", "spanId": "0aFF", "parentSpanId": "", "n": {"traceId": 5}}]}"#,
    );
    let before = event.clone();
    hex_encode_ids(&mut event);
    assert_eq!(
        event,
        json(
            r#"{"spans": [{"traceId": "7a7a", "spanId": "30614646", "parentSpanId": "",
                "n": {"traceId": 5}}]}"#
        ),
    );
    hex_decode_ids(&mut event);
    assert_eq!(event, before);
    // What is no hex stays as it is.
    hex_decode_ids(&mut event);
    assert_eq!(
        event,
        {
            let mut expected = before.clone();
            expected.insert_at(&path("spans[0].spanId").segments, Value::Bytes(vec![0x0a, 0xff]));
            expected
        },
    );
    let mut other = json(r#"{"id": "zz", "a": [1]}"#);
    hex_encode_ids(&mut other);
    assert_eq!(other, json(r#"{"id": "zz", "a": [1]}"#));
}

#[test]
fn metadata_is_applied_once_and_for_all() {
    let config = PolicyConfig {
        client_metadata: ClientMetadata {
            resource_attributes: HashMap::from([("service.name".into(), "v".into())]),
            labels: HashMap::new(),
        },
        ..PolicyConfig::example()
    };
    let http = || {
        ProviderConfig::Http(HttpProviderConfig {
            id: "h".into(),
            url: "u".into(),
            headers: Vec::new(),
            poll_interval_secs: Some(5),
            content_type: Some("json".into()),
            resource_attributes: HashMap::new(),
            labels: HashMap::from([("l".into(), "own".into())]),
        })
    };
    let once = config.apply_client_metadata(http());
    let twice = config.apply_client_metadata(config.apply_client_metadata(http()));
    assert_eq!(once, twice);
    let ProviderConfig::Http(once) = once else {
        panic!("expected Http variant");
    };
    assert_eq!(once.resource_attributes["service.name"], "v");
    assert_eq!(once.labels["l"], "own");
    assert_eq!(once.poll_interval_secs, Some(5));
    assert_eq!(PolicyConfig::example().apply_client_metadata(http()), http());
}

#[test]
fn tags_differ() {
    let tags = [
        DropReason::PolicyDrop.as_str(),
        DropReason::SampleRejected.as_str(),
        DropReason::RateLimited.as_str(),
    ];
    assert!(tags[0] != tags[1] && tags[1] != tags[2] && tags[0] != tags[2]);
}

#[test]
fn every_record_is_forwarded_or_counted() {
    let mut walk = EnvelopeWalk::start(
        Signal::Logs,
        json(r#"{"resourceLogs": [{"scopeLogs": [{"logRecords": [1, 2, 3, 4, 5]}]}]}"#),
    );
    for result in [
        EvaluateResult::Drop,
        EvaluateResult::Keep,
        EvaluateResult::Sample { keep: false },
        EvaluateResult::RateLimit { allowed: false },
        EvaluateResult::NoMatch,
    ] {
        assert!(walk.has_record());
        walk.settle(Ok(result));
    }
    assert!(!walk.has_record());
    let dropped: u64 = walk.drops().emit().iter().map(|report| report.count).sum();
    assert_eq!(dropped, 3);
    assert_eq!(
        walk.finish(),
        Some(json(r#"{"resourceLogs": [{"scopeLogs": [{"logRecords": [2, 5]}]}]}"#)),
    );
}

#[test]
fn empty_strings_count_as_absent_attributes() {
    let attributes = r#"{"attributes": [
        {"key": "k", "value": {"stringValue": ""}},
        {"key": "n", "value": {}},
        {"key": "i", "value": {"intValue": "0"}}
    ]}"#;
    let mut log_record = json(attributes);
    let adapter = OtlpLogAdapter::new(&mut log_record, None, None, None, None);
    let exists =
        |key: &str| adapter.field_exists(&LogFieldSelector::LogAttribute(segments(&[key])));
    assert!(!exists("k"));
    assert!(!exists("n"));
    assert!(exists("i"));
    let resource = json(attributes);
    let metric = MetricAdapter {
        metric: &json("{}"),
        resource: Some(&resource),
        scope: None,
        resource_schema_url: None,
        scope_schema_url: None,
    }
    .field_exists(&MetricFieldSelector::ResourceAttribute(segments(&["k"])));
    assert!(!metric);
    let span = TraceAdapter {
        span: &mut json(attributes),
        resource: None,
        scope: None,
        resource_schema_url: None,
        scope_schema_url: None,
    }
    .field_exists(&TraceFieldSelector::SpanAttribute(segments(&["k"])));
    assert!(!span);
}

#[test]
fn hex_comes_back_in_lowercase() {
    for text in ["", "00", "0aFF", "DEADbeef"] {
        let bytes = hex_decode(&text.as_bytes().to_vec()).unwrap();
        assert_eq!(bytes.len(), text.len() / 2);
        assert_eq!(hex_encode(&bytes), text.to_ascii_lowercase().into_bytes());
        assert_eq!(hex_decode(&hex_encode(&bytes)), Some(bytes));
    }
    assert_eq!(hex_encode(&vec![0, 15, 160, 255]), b"000fa0ff".to_vec());
    for text in ["0", "0g", "  ", "abc"] {
        assert_eq!(hex_decode(&text.as_bytes().to_vec()), None);
    }
}
