use policy_transform::config::PolicyMode;
use policy_transform::field_mapping::FieldMapping;
use policy_transform::internal_events::DroppedRecords;
use policy_transform::log_event::LogEvent;
use policy_transform::transform::{settle_flat, EventKind, Policy, Route};
use policy_transform::value::{ObjectMap, Value};
use policy_transform::verdict::{drop_reason, EvaluateResult, Signal};

fn log_with(key: &str) -> LogEvent {
    let mut object = ObjectMap::new();
    object.insert(key.to_string(), Value::Array(vec![]));
    LogEvent::from_value(Value::Object(object))
}

#[test]
fn flat_mode_evaluates_logs_and_passes_the_rest() {
    let policy = Policy::new(FieldMapping::default(), PolicyMode::Flat);
    assert_eq!(policy.route(EventKind::Log(&log_with("resourceMetrics"))), Route::Record);
    assert_eq!(policy.route(EventKind::Log(&LogEvent::default())), Route::Record);
    assert_eq!(policy.route(EventKind::Trace), Route::Pass);
    assert_eq!(policy.route(EventKind::Metric), Route::Pass);
}

#[test]
fn otel_mode_walks_envelopes() {
    let policy = Policy::new(FieldMapping::default(), PolicyMode::Otel);
    assert_eq!(
        policy.route(EventKind::Log(&log_with("resourceMetrics"))),
        Route::Envelope(Signal::Metrics),
    );
    assert_eq!(
        policy.route(EventKind::Log(&log_with("resourceLogs"))),
        Route::Envelope(Signal::Logs),
    );
    assert_eq!(
        policy.route(EventKind::Log(&LogEvent::default())),
        Route::Envelope(Signal::Logs),
    );
    assert_eq!(policy.route(EventKind::Trace), Route::Envelope(Signal::Traces));
    assert_eq!(policy.route(EventKind::Metric), Route::Pass);
}

#[test]
fn the_default_mode_is_flat() {
    assert_eq!(PolicyMode::default(), PolicyMode::Flat);
}

#[test]
fn flat_events_pass_or_are_dropped_with_a_report() {
    let passing = [
        EvaluateResult::NoMatch,
        EvaluateResult::Keep,
        EvaluateResult::Sample { keep: true },
        EvaluateResult::RateLimit { allowed: true },
    ];
    for result in passing {
        let outcome = settle_flat(log_with("a"), Ok(result));
        assert_eq!(outcome.forwarded, Some(log_with("a")));
        assert_eq!(outcome.dropped, None);
        assert_eq!(outcome.failure, None);
    }
    let dropping = [
        (EvaluateResult::Drop, "policy_drop"),
        (EvaluateResult::Sample { keep: false }, "policy_sample_rejected"),
        (EvaluateResult::RateLimit { allowed: false }, "policy_rate_limited"),
    ];
    for (result, reason) in dropping {
        let outcome = settle_flat(log_with("a"), Ok(result));
        assert_eq!(outcome.forwarded, None);
        assert_eq!(outcome.dropped, Some(DroppedRecords { reason, count: 1 }));
        assert_eq!(outcome.failure, None);
    }
}

#[test]
fn a_failed_evaluation_lets_the_event_pass() {
    let outcome = settle_flat(log_with("a"), Err("boom".to_string()));
    assert_eq!(outcome.forwarded, Some(log_with("a")));
    assert_eq!(outcome.dropped, None);
    assert_eq!(outcome.failure.as_deref(), Some("boom"));
}

#[test]
fn signals_heed_different_verdicts() {
    let rejected = EvaluateResult::Sample { keep: false };
    let limited = EvaluateResult::RateLimit { allowed: false };
    assert!(drop_reason(Signal::Logs, rejected).is_some());
    assert!(drop_reason(Signal::Logs, limited).is_some());
    assert!(drop_reason(Signal::Traces, rejected).is_some());
    assert!(drop_reason(Signal::Traces, limited).is_none());
    assert!(drop_reason(Signal::Metrics, rejected).is_none());
    assert!(drop_reason(Signal::Metrics, limited).is_none());
    assert!(drop_reason(Signal::Metrics, EvaluateResult::Drop).is_some());
}
