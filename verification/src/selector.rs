//! The fields that a policy can name in a log record, a metric or a span.

use vstd::prelude::*;

verus! {

/// A field of a log record with a place of its own.
#[derive(Clone, Copy, Debug, PartialEq, Eq, Structural)]
pub enum LogField {
    Unspecified,
    Body,
    SeverityText,
    TraceId,
    SpanId,
    EventName,
    ResourceSchemaUrl,
    ScopeSchemaUrl,
}

/// A field of a log record, of its resource or of its scope.
#[derive(Clone, Debug, PartialEq, Eq)]
pub enum LogFieldSelector {
    Simple(LogField),
    LogAttribute(Vec<String>),
    ResourceAttribute(Vec<String>),
    ScopeAttribute(Vec<String>),
}

/// A field of a metric with a place of its own.
#[derive(Clone, Copy, Debug, PartialEq, Eq, Structural)]
pub enum MetricField {
    Unspecified,
    Name,
    Description,
    Unit,
    ResourceSchemaUrl,
    ScopeSchemaUrl,
    ScopeName,
    ScopeVersion,
}

/// A field of a metric, of its resource or of its scope.
#[derive(Clone, Debug, PartialEq, Eq)]
pub enum MetricFieldSelector {
    Simple(MetricField),
    DatapointAttribute(Vec<String>),
    ResourceAttribute(Vec<String>),
    ScopeAttribute(Vec<String>),
    Type,
    Temporality,
}

/// A field of a span with a place of its own.
#[derive(Clone, Copy, Debug, PartialEq, Eq, Structural)]
pub enum TraceField {
    Unspecified,
    Name,
    TraceId,
    SpanId,
    ParentSpanId,
    TraceState,
    ResourceSchemaUrl,
    ScopeSchemaUrl,
    ScopeName,
    ScopeVersion,
}

/// A field of a span, of its resource or of its scope.
#[derive(Clone, Debug, PartialEq, Eq)]
pub enum TraceFieldSelector {
    Simple(TraceField),
    SpanAttribute(Vec<String>),
    ResourceAttribute(Vec<String>),
    ScopeAttribute(Vec<String>),
    SpanKind,
    SpanStatus,
    EventName,
    EventAttribute(Vec<String>),
    LinkTraceId,
    SamplingThreshold,
}

} // verus!
