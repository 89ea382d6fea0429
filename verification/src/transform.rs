//! What the policy transform does with an event.

use crate::config::PolicyMode;
use crate::field_mapping::FieldMapping;
use crate::internal_events::{emit_dropped, DropReason, DroppedRecords};
use crate::log_event::LogEvent;
use crate::verdict::{drop_reason, EvaluateResult, Signal};
use vstd::prelude::*;

verus! {

/// An event as far as its way through the transform depends on it.
pub enum EventKind<'a> {
    Log(&'a LogEvent),
    Trace,
    Metric,
}

/// What is done with an event.
#[derive(Clone, Copy, Debug, PartialEq, Eq, Structural)]
pub enum Route {
    /// It is evaluated as one log record.
    Record,
    /// It is walked as an envelope.
    Envelope(Signal),
    /// It is forwarded as it is.
    Pass,
}

/// The settings of the policy transform.
pub struct Policy {
    pub mapping: FieldMapping,
    pub mode: PolicyMode,
}

/// What is done with an event in a mode. In OTel mode a log event is an envelope of metrics if
/// it has resource metrics, and one of logs else. Traces are evaluated only in OTel mode, and
/// native metrics never.
pub open spec fn route_of(mode: PolicyMode, event: EventKind<'_>) -> Route {
    match event {
        EventKind::Log(log) => match mode {
            PolicyMode::Flat => Route::Record,
            PolicyMode::Otel => if log@.field("resourceMetrics"@) is Some {
                Route::Envelope(Signal::Metrics)
            } else {
                Route::Envelope(Signal::Logs)
            },
        },
        EventKind::Trace => match mode {
            PolicyMode::Flat => Route::Pass,
            PolicyMode::Otel => Route::Envelope(Signal::Traces),
        },
        EventKind::Metric => Route::Pass,
    }
}

impl Policy {
    /// A transform with a field mapping and a mode.
    pub fn new(mapping: FieldMapping, mode: PolicyMode) -> (r: Policy)
        ensures
            r.mapping == mapping,
            r.mode == mode,
    {
        Policy { mapping, mode }
    }

    /// What is done with an event.
    pub fn route(&self, event: EventKind<'_>) -> (r: Route)
        ensures
            r == route_of(self.mode, event),
    {
        match event {
            EventKind::Log(log) => match self.mode {
                PolicyMode::Flat => Route::Record,
                PolicyMode::Otel => if log.value().get("resourceMetrics").is_some() {
                    Route::Envelope(Signal::Metrics)
                } else {
                    Route::Envelope(Signal::Logs)
                },
            },
            EventKind::Trace => match self.mode {
                PolicyMode::Flat => Route::Pass,
                PolicyMode::Otel => Route::Envelope(Signal::Traces),
            },
            EventKind::Metric => Route::Pass,
        }
    }
}

/// What comes of a log event that was evaluated as one record: the event to forward, if any,
/// the report of its drop, and the error that it was forwarded in spite of.
pub struct FlatOutcome {
    pub forwarded: Option<LogEvent>,
    pub dropped: Option<DroppedRecords>,
    pub failure: Option<String>,
}

/// Decides on a log event by the outcome of its evaluation. A failed evaluation lets the event
/// pass.
pub fn settle_flat(log: LogEvent, result: Result<EvaluateResult, String>) -> (r: FlatOutcome)
    ensures
        match crate::verdict::outcome_drops(Signal::Logs, result) {
            Some(reason) => {
                &&& r.forwarded is None
                &&& r.dropped matches Some(report) && report@ == (reason.tag(), 1u64)
            },
            None => {
                &&& r.forwarded == Some(log)
                &&& r.dropped is None
            },
        },
        match result {
            Ok(_) => r.failure is None,
            Err(error) => r.failure == Some(error),
        },
{
    match result {
        Ok(result) => match drop_reason(Signal::Logs, result) {
            Some(reason) => FlatOutcome {
                forwarded: None,
                dropped: emit_dropped(reason, 1),
                failure: None,
            },
            None => FlatOutcome { forwarded: Some(log), dropped: None, failure: None },
        },
        Err(error) => FlatOutcome { forwarded: Some(log), dropped: None, failure: Some(error) },
    }
}

/// A failed evaluation never drops a record.
pub proof fn law_failures_pass(signal: Signal, error: String)
    ensures
        crate::verdict::outcome_drops(signal, Err(error)) is None,
{
}

/// Only an outright drop drops among every signal: a rejected sample is dropped except among
/// metrics, and a refused rate limit among logs alone. A record that no policy matches, or that
/// a policy lets through, is never dropped.
pub proof fn law_verdicts(signal: Signal, result: EvaluateResult)
    ensures
        result == EvaluateResult::Drop ==> crate::verdict::reason_to_drop(signal, result) == Some(
            DropReason::PolicyDrop,
        ),
        result == EvaluateResult::NoMatch || result == EvaluateResult::Keep || result == (
        EvaluateResult::Sample { keep: true }) || result == (EvaluateResult::RateLimit {
            allowed: true,
        }) ==> crate::verdict::reason_to_drop(signal, result) is None,
        result == (EvaluateResult::Sample { keep: false }) ==> crate::verdict::reason_to_drop(
            signal,
            result,
        ) == if signal == Signal::Metrics {
            None
        } else {
            Some(DropReason::SampleRejected)
        },
        result == (EvaluateResult::RateLimit { allowed: false })
            ==> crate::verdict::reason_to_drop(signal, result) == if signal == Signal::Logs {
            Some(DropReason::RateLimited)
        } else {
            None
        },
{
}

/// In flat mode every log event is one record and nothing else is evaluated. In OTel mode a log
/// event is an envelope, of metrics if it is an object with `resourceMetrics` and of logs else,
/// and a trace event is an envelope of spans. Native metrics always pass.
pub proof fn law_routes(mode: PolicyMode, log: LogEvent)
    ensures
        route_of(PolicyMode::Flat, EventKind::Log(&log)) == Route::Record,
        route_of(PolicyMode::Flat, EventKind::Trace) == Route::Pass,
        crate::matching_laws::has_key(log@, "resourceMetrics"@) ==> route_of(
            PolicyMode::Otel,
            EventKind::Log(&log),
        ) == Route::Envelope(Signal::Metrics),
        !crate::matching_laws::has_key(log@, "resourceMetrics"@) ==> route_of(
            PolicyMode::Otel,
            EventKind::Log(&log),
        ) == Route::Envelope(Signal::Logs),
        route_of(PolicyMode::Otel, EventKind::Trace) == Route::Envelope(Signal::Traces),
        route_of(mode, EventKind::Metric) == Route::Pass,
{
}

/// An evaluation that succeeds drops a record exactly for the reason its verdict gives.
pub proof fn law_outcome_follows_verdict(signal: Signal, result: EvaluateResult)
    ensures
        crate::verdict::outcome_drops(signal, Ok(result)) == crate::verdict::reason_to_drop(
            signal,
            result,
        ),
{
}

} // verus!
