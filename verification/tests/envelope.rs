use policy_transform::envelope::EnvelopeWalk;
use policy_transform::internal_events::DroppedRecords;
use policy_transform::selector::{
    LogField, LogFieldSelector, MetricField, MetricFieldSelector, TraceField, TraceFieldSelector,
};
use policy_transform::value::Value;
use policy_transform::verdict::{EvaluateResult, Signal};

fn json(text: &str) -> Value {
    let json: serde_json::Value = serde_json::from_str(text).unwrap();
    Value::from_vrl(vrl::value::Value::from(json))
}

fn body() -> LogFieldSelector {
    LogFieldSelector::Simple(LogField::Body)
}

/// Walks a logs envelope; the body of each record names its verdict.
fn walk_logs(event: Value) -> (Option<Value>, Vec<DroppedRecords>, Vec<String>) {
    let mut walk = EnvelopeWalk::start(Signal::Logs, event);
    let mut seen = Vec::new();
    while walk.has_record() {
        assert!(walk.has_room());
        let text = walk.log_record().unwrap().get_field(&body()).unwrap_or_default();
        let result = match text.as_str() {
            "drop" => Ok(EvaluateResult::Drop),
            "reject" => Ok(EvaluateResult::Sample { keep: false }),
            "limit" => Ok(EvaluateResult::RateLimit { allowed: false }),
            "fail" => Err(format!("failure {}", seen.len())),
            "keep" => Ok(EvaluateResult::Keep),
            _ => Ok(EvaluateResult::NoMatch),
        };
        seen.push(text);
        walk.settle(result);
    }
    let drops = walk.drops().emit();
    (walk.finish(), drops, seen)
}

fn record(text: &str) -> String {
    format!(r#"{{"body": {{"stringValue": "{text}"}}}}"#)
}

fn scope(name: &str, records: &[&str]) -> String {
    let records: Vec<String> = records.iter().map(|text| record(text)).collect();
    format!(
        r#"{{"scope": {{"name": "{name}"}}, "logRecords": [{}]}}"#,
        records.join(",")
    )
}

fn resource(name: &str, scopes: &[String]) -> String {
    format!(
        r#"{{"resource": {{"id": "{name}"}}, "scopeLogs": [{}]}}"#,
        scopes.join(",")
    )
}

fn envelope(resources: &[String]) -> Value {
    json(&format!(r#"{{"resourceLogs": [{}], "extra": 1}}"#, resources.join(",")))
}

#[test]
fn events_that_are_no_envelopes_pass() {
    for text in [r#"{"message": "x"}"#, r#"{"resourceLogs": "x"}"#, r#""plain""#] {
        let (forwarded, drops, seen) = walk_logs(json(text));
        assert_eq!(forwarded, Some(json(text)));
        assert!(drops.is_empty());
        assert!(seen.is_empty());
    }
}

#[test]
fn kept_records_stay_in_order() {
    let event = envelope(&[
        resource("r1", &[scope("s1", &["a", "drop", "b"]), scope("s2", &["c"])]),
        resource("r2", &[scope("s3", &["drop", "d"])]),
    ]);
    let (forwarded, drops, seen) = walk_logs(event);
    assert_eq!(seen, vec!["a", "drop", "b", "c", "drop", "d"]);
    assert_eq!(
        forwarded,
        Some(envelope(&[
            resource("r1", &[scope("s1", &["a", "b"]), scope("s2", &["c"])]),
            resource("r2", &[scope("s3", &["d"])]),
        ])),
    );
    assert_eq!(drops, vec![DroppedRecords { reason: "policy_drop", count: 2 }]);
}

#[test]
fn emptied_scopes_and_resources_are_pruned() {
    let event = envelope(&[
        resource("r1", &[scope("s1", &["drop"]), scope("s2", &["a"])]),
        resource("r2", &[scope("s3", &["drop"]), scope("s4", &["drop"])]),
    ]);
    let (forwarded, _, _) = walk_logs(event);
    assert_eq!(forwarded, Some(envelope(&[resource("r1", &[scope("s2", &["a"])])])));
}

#[test]
fn an_envelope_without_records_left_is_dropped() {
    let event = envelope(&[
        resource("r1", &[scope("s1", &["drop", "limit"])]),
        resource("r2", &[scope("s2", &["reject", "limit"])]),
    ]);
    let (forwarded, drops, _) = walk_logs(event);
    assert_eq!(forwarded, None);
    assert_eq!(
        drops,
        vec![
            DroppedRecords { reason: "policy_drop", count: 1 },
            DroppedRecords { reason: "policy_sample_rejected", count: 1 },
            DroppedRecords { reason: "policy_rate_limited", count: 2 },
        ],
    );
}

#[test]
fn lists_that_were_empty_are_pruned_too() {
    let event = envelope(&[resource("r1", &[scope("s1", &[])]), resource("r2", &[])]);
    assert_eq!(walk_logs(event).0, None);
    assert_eq!(walk_logs(envelope(&[])).0, None);
}

#[test]
fn entries_without_lists_stay() {
    let event = json(
        r#"{"resourceLogs": [{"resource": {}}, {"scopeLogs": [{"scope": {}}, {"logRecords": 5}]}, 7]}"#,
    );
    assert_eq!(walk_logs(event.clone()).0, Some(event));
}

#[test]
fn an_untouched_envelope_is_forwarded_as_it_is() {
    let event = json(
        r#"{"a": 1, "resourceLogs": [{
            "resource": {"attributes": []}, "schemaUrl": "u1", "x": [1],
            "scopeLogs": [{"schemaUrl": "u2", "logRecords": [{"body": {"stringValue": "a"}}, 3]}]
        }]}"#,
    );
    let (forwarded, drops, seen) = walk_logs(event.clone());
    assert_eq!(forwarded, Some(event));
    assert!(drops.is_empty());
    assert_eq!(seen, vec!["a", ""]);
}

#[test]
fn failures_let_records_pass_and_are_counted() {
    let mut walk = EnvelopeWalk::start(
        Signal::Logs,
        envelope(&[resource("r", &[scope("s", &["a", "b"])])]),
    );
    walk.settle(Err("first".to_string()));
    walk.settle(Err("second".to_string()));
    assert!(!walk.has_record());
    let report = walk.errors().emit().unwrap();
    assert_eq!((report.count, report.error.as_str()), (2, "first"));
    assert_eq!(walk.finish(), Some(envelope(&[resource("r", &[scope("s", &["a", "b"])])])));
}

#[test]
fn changes_to_record_resource_and_scope_are_forwarded() {
    let event = json(
        r#"{"resourceLogs": [{"resource": {"attributes": []}, "schemaUrl": "u1", "scopeLogs": [
            {"scope": {}, "schemaUrl": "u2", "logRecords": [{"n": 1}, {"n": 2}]}
        ]}]}"#,
    );
    let mut walk = EnvelopeWalk::start(Signal::Logs, event);
    let resource = LogFieldSelector::ResourceAttribute(vec!["seen".to_string()]);
    {
        let mut record = walk.log_record().unwrap();
        assert_eq!(
            record.get_field(&LogFieldSelector::Simple(LogField::ResourceSchemaUrl)).as_deref(),
            Some("u1"),
        );
        assert_eq!(
            record.get_field(&LogFieldSelector::Simple(LogField::ScopeSchemaUrl)).as_deref(),
            Some("u2"),
        );
        record.set_field(&resource, "yes");
        record.set_field(&LogFieldSelector::ScopeAttribute(vec!["s".to_string()]), "1");
        record.set_field(&LogFieldSelector::Simple(LogField::SeverityText), "WARN");
    }
    walk.settle(Ok(EvaluateResult::Keep));
    // The second record sees what the first one's policies did to its resource.
    assert_eq!(walk.log_record().unwrap().get_field(&resource).as_deref(), Some("yes"));
    walk.settle(Ok(EvaluateResult::Drop));
    assert_eq!(
        walk.finish(),
        Some(json(
            r#"{"resourceLogs": [{
                "resource": {"attributes": [{"key": "seen", "value": {"stringValue": "yes"}}]},
                "schemaUrl": "u1",
                "scopeLogs": [{
                    "scope": {"attributes": [{"key": "s", "value": {"stringValue": "1"}}]},
                    "schemaUrl": "u2",
                    "logRecords": [{"n": 1, "severityText": "WARN"}]
                }]
            }]}"#
        )),
    );
}

#[test]
fn dotted_records_leave_their_surroundings_alone() {
    let event = json(
        r#"{"resourceLogs": [{"resource": {"attributes": []}, "scopeLogs": [
            {"logRecords": [{"body": {"intValue": 5}}]}
        ]}]}"#,
    );
    let mut walk = EnvelopeWalk::start(Signal::Logs, event);
    {
        let mut record = walk.dotted_log_record().unwrap();
        assert_eq!(record.get_field(&body()).as_deref(), Some("5"));
        record.set_field(&LogFieldSelector::ResourceAttribute(vec!["a".to_string()]), "x");
        record.set_field(
            &LogFieldSelector::LogAttribute(vec!["a".to_string(), "b".to_string()]),
            "x",
        );
    }
    walk.settle(Ok(EvaluateResult::NoMatch));
    assert_eq!(
        walk.finish(),
        Some(json(
            r#"{"resourceLogs": [{"resource": {"attributes": []}, "scopeLogs": [
                {"logRecords": [{"body": {"intValue": 5},
                    "attributes": [{"key": "a.b", "value": {"stringValue": "x"}}]}]}
            ]}]}"#
        )),
    );
}

#[test]
fn metrics_are_dropped_outright_or_kept() {
    let event = json(
        r#"{"resourceMetrics": [
            {"resource": {}, "scopeMetrics": [
                {"scope": {"name": "lib"}, "metrics": [{"name": "a"}, {"name": "b"}, {"name": "c"}]},
                {"metrics": [{"name": "a"}]}
            ]},
            {"resource": {}},
            {"scopeMetrics": [{"scope": {}}]}
        ]}"#,
    );
    let mut walk = EnvelopeWalk::start(Signal::Metrics, event);
    let mut failures = 0;
    while walk.has_record() {
        let name = walk
            .metric()
            .unwrap()
            .get_field(&MetricFieldSelector::Simple(MetricField::Name))
            .unwrap();
        walk.settle(match name.as_str() {
            "a" => Ok(EvaluateResult::Drop),
            "b" => Ok(EvaluateResult::Sample { keep: false }),
            _ => {
                failures += 1;
                Err("failure".to_string())
            }
        });
    }
    assert_eq!(failures, 1);
    assert_eq!(walk.errors().emit(), None);
    assert_eq!(
        walk.drops().emit(),
        vec![DroppedRecords { reason: "policy_drop", count: 2 }],
    );
    // The resource without a list of scopes is gone as well.
    assert_eq!(
        walk.finish(),
        Some(json(
            r#"{"resourceMetrics": [
                {"resource": {}, "scopeMetrics": [
                    {"scope": {"name": "lib"}, "metrics": [{"name": "b"}, {"name": "c"}]}
                ]},
                {"scopeMetrics": [{"scope": {}}]}
            ]}"#
        )),
    );
}

#[test]
fn spans_are_sampled() {
    let event = json(
        r#"{"resourceSpans": [{"scopeSpans": [
            {"scope": {"name": "lib"}, "spans": [{"name": "a"}, {"name": "b"}, {"name": "c"}]}
        ]}, {"resource": {}}]}"#,
    );
    let mut walk = EnvelopeWalk::start(Signal::Traces, event);
    while walk.has_record() {
        let mut span = walk.span().unwrap();
        let name = span.get_field(&TraceFieldSelector::Simple(TraceField::Name)).unwrap();
        let result = match name.as_str() {
            "a" => EvaluateResult::Sample { keep: false },
            "b" => EvaluateResult::RateLimit { allowed: false },
            _ => {
                span.set_field(&TraceFieldSelector::SamplingThreshold, "8");
                EvaluateResult::Sample { keep: true }
            }
        };
        walk.settle(Ok(result));
    }
    assert_eq!(
        walk.drops().emit(),
        vec![DroppedRecords { reason: "policy_sample_rejected", count: 1 }],
    );
    assert_eq!(
        walk.finish(),
        Some(json(
            r#"{"resourceSpans": [{"scopeSpans": [
                {"scope": {"name": "lib"},
                 "spans": [{"name": "b"}, {"name": "c", "traceState": "ot=th:8"}]}
            ]}, {"resource": {}}]}"#
        )),
    );
}

#[test]
fn a_logs_envelope_that_loses_every_record_is_dropped_whatever_else_it_holds() {
    let logs = json(
        r#"{"resourceLogs": [
            {"scopeLogs": [{"logRecords": [{"body": {"stringValue": "drop"}}]}]},
            {"resource": {"attributes": []}}
        ]}"#,
    );
    let (forwarded, drops, _) = walk_logs(logs);
    assert_eq!(forwarded, None);
    assert_eq!(drops, vec![DroppedRecords { reason: "policy_drop", count: 1 }]);

    let scope_without_list = json(
        r#"{"resourceLogs": [{"scopeLogs": [
            {"scope": {}}, {"logRecords": [{"body": {"stringValue": "reject"}}]}
        ]}]}"#,
    );
    assert_eq!(walk_logs(scope_without_list).0, None);
}

#[test]
fn entries_without_lists_stay_among_metrics_and_traces() {
    for (signal, text, left) in [
        (
            Signal::Traces,
            r#"{"resourceSpans": [{"resource": {}}, {"scopeSpans": [{"spans": [{}]}]}]}"#,
            Some(r#"{"resourceSpans": [{"resource": {}}]}"#),
        ),
        (
            Signal::Traces,
            r#"{"resourceSpans": [{"scopeSpans": [{"scope": {}}, {"spans": [{}]}]}]}"#,
            Some(r#"{"resourceSpans": [{"scopeSpans": [{"scope": {}}]}]}"#),
        ),
        (
            Signal::Metrics,
            r#"{"resourceMetrics": [{"scopeMetrics": [{"metrics": [{}]}, {"scope": {}}]}]}"#,
            Some(r#"{"resourceMetrics": [{"scopeMetrics": [{"scope": {}}]}]}"#),
        ),
        (Signal::Traces, r#"{"resourceSpans": [{"scopeSpans": [{"spans": [{}]}]}]}"#, None),
        (Signal::Metrics, r#"{"resourceMetrics": [{"scopeMetrics": [{"metrics": [{}]}]}]}"#, None),
    ] {
        let mut walk = EnvelopeWalk::start(signal, json(text));
        walk.settle(Ok(EvaluateResult::Drop));
        assert!(!walk.has_record());
        assert_eq!(walk.finish(), left.map(json));
        // With the record kept, the envelope passes.
        let mut walk = EnvelopeWalk::start(signal, json(text));
        walk.settle(Ok(EvaluateResult::Keep));
        assert_eq!(walk.finish(), Some(json(text)));
    }
}

#[test]
fn read_only_walks_leave_the_surroundings_as_they_came() {
    let event = json(
        r#"{"v": 1, "resourceMetrics": [{"resource": {"r": 1}, "schemaUrl": "u1", "x": [], "scopeMetrics": [
            {"scope": {"s": 1}, "schemaUrl": "u2", "metrics": [{"name": "a"}, {"name": "b"}]}
        ]}]}"#,
    );
    let mut walk = EnvelopeWalk::start(Signal::Metrics, event);
    walk.settle(Ok(EvaluateResult::Drop));
    let unit = walk.metric().unwrap();
    let url = |field| unit.get_field(&MetricFieldSelector::Simple(field));
    assert_eq!(url(MetricField::ResourceSchemaUrl).as_deref(), Some("u1"));
    assert_eq!(url(MetricField::ScopeSchemaUrl).as_deref(), Some("u2"));
    walk.settle(Ok(EvaluateResult::Keep));
    assert_eq!(
        walk.finish(),
        Some(json(
            r#"{"v": 1, "resourceMetrics": [{"resource": {"r": 1}, "schemaUrl": "u1", "x": [], "scopeMetrics": [
                {"scope": {"s": 1}, "schemaUrl": "u2", "metrics": [{"name": "b"}]}
            ]}]}"#
        )),
    );
}
