//! Which texts a field is matched by, and when it is present, told by what stands in the
//! objects of a record.

use crate::otlp_common::RecordTree;
use crate::selector::{
    LogField, LogFieldSelector, MetricField, MetricFieldSelector, TraceField, TraceFieldSelector,
};
use crate::value::Tree;
use vstd::prelude::*;

verus! {

/// A value is a string that reads as `text`.
pub open spec fn reads_as(value: Tree, text: Seq<char>) -> bool {
    match value {
        Tree::Bytes(bytes) => text == if vstd::utf8::valid_utf8(bytes) {
            vstd::utf8::decode_utf8(bytes)
        } else {
            crate::vrl_bridge::lossy_text(bytes)
        },
        _ => false,
    }
}

/// A value is an object whose field `key` is a string that reads as `text`.
pub open spec fn shows(value: Tree, key: Seq<char>, text: Seq<char>) -> bool {
    match value {
        Tree::Object(fields) => fields.dom().contains(key) && reads_as(fields[key], text),
        _ => false,
    }
}

/// There is a string that reads as `text` under `key` of a value that may be missing.
pub open spec fn shows_in(value: Option<Tree>, key: Seq<char>, text: Seq<char>) -> bool {
    match value {
        Some(value) => shows(value, key, text),
        None => false,
    }
}

/// A value is an object with a field `key`.
pub open spec fn has_key(value: Tree, key: Seq<char>) -> bool {
    match value {
        Tree::Object(fields) => fields.dom().contains(key),
        _ => false,
    }
}

/// What an object holds under a key that it has.
pub open spec fn under(value: Tree, key: Seq<char>) -> Tree {
    match value {
        Tree::Object(fields) => fields[key],
        _ => arbitrary(),
    }
}

/// A value is an object with a list under `key`.
pub open spec fn has_list(value: Tree, key: Seq<char>, list: Seq<Tree>) -> bool {
    has_key(value, key) && under(value, key) == Tree::Array(list)
}

/// There is no list under `key` of a value.
pub open spec fn lacks_list(value: Tree, key: Seq<char>) -> bool {
    !has_key(value, key) || under(value, key) !is Array
}

/// An attribute entry stands under `key`.
pub open spec fn named(entry: Tree, key: Seq<char>) -> bool {
    has_key(entry, "key"@) && under(entry, "key"@) == Tree::Bytes(vstd::utf8::encode_utf8(key))
}

/// The first entry under `key` of an attribute list is at `at`.
pub open spec fn first_named(list: Seq<Tree>, key: Seq<char>, at: int) -> bool {
    &&& 0 <= at < list.len()
    &&& named(list[at], key)
    &&& forall|i: int| 0 <= i < at ==> !named(#[trigger] list[i], key)
}

/// No entry of an attribute list stands under `key`.
pub open spec fn none_named(list: Seq<Tree>, key: Seq<char>) -> bool {
    forall|i: int| 0 <= i < list.len() ==> !named(#[trigger] list[i], key)
}

/// An `AnyValue` holds something that is not a string.
pub open spec fn holds_other_sort(value: Tree) -> bool {
    ||| has_key(value, "boolValue"@)
    ||| has_key(value, "intValue"@)
    ||| has_key(value, "doubleValue"@)
    ||| has_key(value, "arrayValue"@)
    ||| has_key(value, "kvlistValue"@)
    ||| has_key(value, "bytesValue"@)
}

/// An `AnyValue` is matched by its `stringValue`, where that is not empty, and by nothing else.
pub proof fn law_any_value_is_matched(value: Option<Tree>, text: Seq<char>)
    ensures
        crate::otlp_common::any_value_text(value) == Some(text) <==> text.len() > 0 && shows_in(
            value,
            "stringValue"@,
            text,
        ),
        crate::otlp_common::non_empty_text(value) == Some(text) <==> text.len() > 0
            && value is Some && reads_as(value->0, text),
{
}

/// An `AnyValue` is present if it is matched by a text or holds something of another sort.
pub proof fn law_any_value_is_present(value: Option<Tree>)
    ensures
        crate::otlp_common::any_value_is_present(value) <==> value is Some && (holds_other_sort(
            value->0,
        ) || exists|text: Seq<char>| text.len() > 0 && #[trigger] shows(
            value->0,
            "stringValue"@,
            text,
        )),
{
    match value {
        Some(tree) => {
            match crate::otlp_common::any_value_text(value) {
                Some(text) => {
                    assert(shows(tree, "stringValue"@, text));
                },
                None => {
                    assert forall|text: Seq<char>| text.len() > 0 implies !#[trigger] shows(
                        tree,
                        "stringValue"@,
                        text,
                    ) by {
                        law_any_value_is_matched(value, text);
                    }
                },
            }
        },
        None => {},
    }
}

pub(crate) proof fn lemma_position_of(list: Seq<Tree>, key: Seq<char>)
    ensures
        forall|at: int| #[trigger]
            first_named(list, key, at) ==> crate::otlp_common::entry_position(list, key) == at,
        none_named(list, key) ==> crate::otlp_common::entry_position(list, key) == list.len(),
{
    assert forall|entry: Tree| #[trigger]
        crate::otlp_common::entry_has_key(entry, key) == named(entry, key) by {}
    assert forall|at: int| #[trigger] first_named(list, key, at) implies
        crate::otlp_common::entry_position(list, key) == at by {
        crate::otlp_common::lemma_first_position(list, key, at);
    }
    if none_named(list, key) {
        crate::otlp_common::lemma_first_position(list, key, list.len() as int);
    }
}

/// A path of one segment leads to the value of the first attribute under it; a longer one goes
/// on in the entries nested there. Without such an entry, and without segments, a path leads
/// nowhere.
pub proof fn law_attribute_path(list: Seq<Tree>, path: Seq<Seq<char>>, at: int, nested: Seq<Tree>)
    ensures
        path.len() == 0 ==> crate::otlp_common::attribute_at(list, path) is None,
        path.len() > 0 && none_named(list, path[0]) ==> crate::otlp_common::attribute_at(
            list,
            path,
        ) is None,
        path.len() == 1 && first_named(list, path[0], at) ==> crate::otlp_common::attribute_at(
            list,
            path,
        ) == if has_key(list[at], "value"@) {
            Some(under(list[at], "value"@))
        } else {
            None
        },
        path.len() > 1 && first_named(list, path[0], at) && has_key(list[at], "value"@) && has_key(
            under(list[at], "value"@),
            "kvlistValue"@,
        ) && has_list(
            under(under(list[at], "value"@), "kvlistValue"@),
            "values"@,
            nested,
        ) ==> crate::otlp_common::attribute_at(list, path) == crate::otlp_common::attribute_at(
            nested,
            path.drop_first(),
        ),
        path.len() > 1 && first_named(list, path[0], at) && (!has_key(list[at], "value"@)
            || !has_key(under(list[at], "value"@), "kvlistValue"@) || lacks_list(
            under(under(list[at], "value"@), "kvlistValue"@),
            "values"@,
        )) ==> crate::otlp_common::attribute_at(list, path) is None,
{
    if path.len() > 0 {
        lemma_position_of(list, path[0]);
    }
}

/// A path into a value's `attributes` leads into that list, and nowhere without one.
pub proof fn law_attributes_of(value: Option<Tree>, path: Seq<Seq<char>>, list: Seq<Tree>)
    ensures
        value is Some && has_list(value->0, "attributes"@, list)
            ==> crate::otlp_common::attribute_in(
            crate::otlp_common::field_of(value, "attributes"@),
            path,
        ) == crate::otlp_common::attribute_at(list, path),
        value is None || lacks_list(value->0, "attributes"@) ==> crate::otlp_common::attribute_in(
            crate::otlp_common::field_of(value, "attributes"@),
            path,
        ) is None,
{
}

/// The `AnyValue` that a path leads to among the `attributes` of a value.
pub open spec fn attribute_of(value: Option<Tree>, path: Seq<String>) -> Option<Tree> {
    match value {
        Some(value) => if has_key(value, "attributes"@) && under(value, "attributes"@) is Array {
            crate::otlp_common::attribute_at(
                under(value, "attributes"@)->Array_0,
                path.map_values(|segment: String| segment@),
            )
        } else {
            None
        },
        None => None,
    }
}

/// The simple fields of a log record are matched by the strings that stand in it under their
/// names, the body by the string it wraps, and the schema URLs by those of the surroundings.
/// The empty string matches nothing.
pub proof fn law_log_fields_are_matched(state: RecordTree, text: Seq<char>)
    ensures
        state.log_text(LogFieldSelector::Simple(LogField::Body)) == Some(text) <==> text.len() > 0
            && has_key(state.record, "body"@) && shows(
            under(state.record, "body"@),
            "stringValue"@,
            text,
        ),
        state.log_text(LogFieldSelector::Simple(LogField::SeverityText)) == Some(text)
            <==> text.len() > 0 && shows(state.record, "severityText"@, text),
        state.log_text(LogFieldSelector::Simple(LogField::TraceId)) == Some(text) <==> text.len()
            > 0 && shows(state.record, "traceId"@, text),
        state.log_text(LogFieldSelector::Simple(LogField::SpanId)) == Some(text) <==> text.len()
            > 0 && shows(state.record, "spanId"@, text),
        state.log_text(LogFieldSelector::Simple(LogField::EventName)) == Some(text) <==> text.len()
            > 0 && shows(state.record, "eventName"@, text),
        state.log_text(LogFieldSelector::Simple(LogField::ResourceSchemaUrl)) == Some(text)
            <==> text.len() > 0 && state.resource_schema_url is Some && reads_as(
            state.resource_schema_url->0,
            text,
        ),
        state.log_text(LogFieldSelector::Simple(LogField::ScopeSchemaUrl)) == Some(text)
            <==> text.len() > 0 && state.scope_schema_url is Some && reads_as(
            state.scope_schema_url->0,
            text,
        ),
        state.log_text(LogFieldSelector::Simple(LogField::Unspecified)) is None,
{
}

/// The attributes of a log record, of its resource and of its scope are matched by the strings
/// that their paths lead to.
pub proof fn law_log_attributes_are_matched(state: RecordTree, path: Vec<String>, text: Seq<char>)
    ensures
        state.log_text(LogFieldSelector::LogAttribute(path)) == Some(text) <==> text.len() > 0
            && shows_in(attribute_of(Some(state.record), path@), "stringValue"@, text),
        state.log_text(LogFieldSelector::ResourceAttribute(path)) == Some(text) <==> text.len() > 0
            && shows_in(attribute_of(state.resource, path@), "stringValue"@, text),
        state.log_text(LogFieldSelector::ScopeAttribute(path)) == Some(text) <==> text.len() > 0
            && shows_in(attribute_of(state.scope, path@), "stringValue"@, text),
{
}

/// A simple field of a log record is present if it is matched by a text. A body is also present
/// if it is something of another sort and no string.
pub proof fn law_log_fields_are_present(state: RecordTree, field: LogField, text: Seq<char>)
    ensures
        field != LogField::Body ==> (state.log_has(LogFieldSelector::Simple(field))
            <==> state.log_text(LogFieldSelector::Simple(field)) is Some),
        has_key(state.record, "body"@) && shows(under(state.record, "body"@), "stringValue"@, text)
            ==> (state.log_has(LogFieldSelector::Simple(LogField::Body)) <==> text.len() > 0),
        has_key(state.record, "body"@) && !(has_key(
            under(state.record, "body"@),
            "stringValue"@,
        ) && under(under(state.record, "body"@), "stringValue"@) is Bytes) ==> (state.log_has(
            LogFieldSelector::Simple(LogField::Body),
        ) <==> holds_other_sort(under(state.record, "body"@))),
        !has_key(state.record, "body"@) ==> !state.log_has(
            LogFieldSelector::Simple(LogField::Body),
        ),
{
}

/// An attribute of a log record is present if its path leads to something of another sort than
/// a string or to a string that is not empty.
pub proof fn law_log_attributes_are_present(state: RecordTree, path: Vec<String>)
    ensures
        state.log_has(LogFieldSelector::LogAttribute(path)) <==> state.log_text(
            LogFieldSelector::LogAttribute(path),
        ) is Some || (attribute_of(Some(state.record), path@) is Some && holds_other_sort(
            attribute_of(Some(state.record), path@)->0,
        )),
        state.log_has(LogFieldSelector::ResourceAttribute(path)) <==> state.log_text(
            LogFieldSelector::ResourceAttribute(path),
        ) is Some || (attribute_of(state.resource, path@) is Some && holds_other_sort(
            attribute_of(state.resource, path@)->0,
        )),
        state.log_has(LogFieldSelector::ScopeAttribute(path)) <==> state.log_text(
            LogFieldSelector::ScopeAttribute(path),
        ) is Some || (attribute_of(state.scope, path@) is Some && holds_other_sort(
            attribute_of(state.scope, path@)->0,
        )),
{
}

/// The simple fields of a span are matched by the strings that stand in it under their names,
/// and those of its surroundings by the strings there. The empty string matches nothing.
pub proof fn law_span_fields_are_matched(span: RecordTree, text: Seq<char>)
    ensures
        span.span_text(TraceFieldSelector::Simple(TraceField::Name)) == Some(text) <==> text.len()
            > 0 && shows(span.record, "name"@, text),
        span.span_text(TraceFieldSelector::Simple(TraceField::TraceId)) == Some(text)
            <==> text.len() > 0 && shows(span.record, "traceId"@, text),
        span.span_text(TraceFieldSelector::Simple(TraceField::SpanId)) == Some(text)
            <==> text.len() > 0 && shows(span.record, "spanId"@, text),
        span.span_text(TraceFieldSelector::Simple(TraceField::ParentSpanId)) == Some(text)
            <==> text.len() > 0 && shows(span.record, "parentSpanId"@, text),
        span.span_text(TraceFieldSelector::Simple(TraceField::TraceState)) == Some(text)
            <==> text.len() > 0 && shows(span.record, "traceState"@, text),
        span.span_text(TraceFieldSelector::SpanKind) == Some(text) <==> text.len() > 0 && shows(
            span.record,
            "kind"@,
            text,
        ),
        span.span_text(TraceFieldSelector::Simple(TraceField::ScopeName)) == Some(text)
            <==> text.len() > 0 && shows_in(span.scope, "name"@, text),
        span.span_text(TraceFieldSelector::Simple(TraceField::ScopeVersion)) == Some(text)
            <==> text.len() > 0 && shows_in(span.scope, "version"@, text),
        span.span_text(TraceFieldSelector::Simple(TraceField::ResourceSchemaUrl)) == Some(text)
            <==> text.len() > 0 && span.resource_schema_url is Some && reads_as(
            span.resource_schema_url->0,
            text,
        ),
        span.span_text(TraceFieldSelector::Simple(TraceField::ScopeSchemaUrl)) == Some(text)
            <==> text.len() > 0 && span.scope_schema_url is Some && reads_as(
            span.scope_schema_url->0,
            text,
        ),
        span.span_text(TraceFieldSelector::Simple(TraceField::Unspecified)) is None,
        span.span_text(TraceFieldSelector::LinkTraceId) is None,
        span.span_text(TraceFieldSelector::SamplingThreshold) is None,
{
}

/// The attributes of a span, of its resource and of its scope are matched by the strings that
/// their paths lead to, and are also present where those lead to something of another sort.
/// Attributes of events are not matched.
pub proof fn law_span_attributes_are_matched(
    span: RecordTree,
    path: Vec<String>,
    text: Seq<char>,
)
    ensures
        span.span_text(TraceFieldSelector::SpanAttribute(path)) == Some(text) <==> text.len() > 0
            && shows_in(attribute_of(Some(span.record), path@), "stringValue"@, text),
        span.span_text(TraceFieldSelector::ResourceAttribute(path)) == Some(text) <==> text.len()
            > 0 && shows_in(attribute_of(span.resource, path@), "stringValue"@, text),
        span.span_text(TraceFieldSelector::ScopeAttribute(path)) == Some(text) <==> text.len() > 0
            && shows_in(attribute_of(span.scope, path@), "stringValue"@, text),
        span.span_text(TraceFieldSelector::EventAttribute(path)) is None,
        span.span_has(TraceFieldSelector::SpanAttribute(path)) <==> span.span_text(
            TraceFieldSelector::SpanAttribute(path),
        ) is Some || (attribute_of(Some(span.record), path@) is Some && holds_other_sort(
            attribute_of(Some(span.record), path@)->0,
        )),
        span.span_has(TraceFieldSelector::ResourceAttribute(path)) <==> span.span_text(
            TraceFieldSelector::ResourceAttribute(path),
        ) is Some || (attribute_of(span.resource, path@) is Some && holds_other_sort(
            attribute_of(span.resource, path@)->0,
        )),
        span.span_has(TraceFieldSelector::ScopeAttribute(path)) <==> span.span_text(
            TraceFieldSelector::ScopeAttribute(path),
        ) is Some || (attribute_of(span.scope, path@) is Some && holds_other_sort(
            attribute_of(span.scope, path@)->0,
        )),
{
}

/// Every field of a span but an attribute is present exactly if it is matched by a text.
pub proof fn law_span_fields_are_present(span: RecordTree, selector: TraceFieldSelector)
    requires
        selector !is SpanAttribute,
        selector !is ResourceAttribute,
        selector !is ScopeAttribute,
    ensures
        span.span_has(selector) <==> span.span_text(selector) is Some,
{
}

/// A span without a status object has no status. A status without a code, or with one that is
/// no string, is unset; the codes for success, error and unset have a name each, and any other
/// code has none.
pub proof fn law_span_status(span: RecordTree, code: Seq<char>)
    ensures
        ({
            let status = span.span_text(TraceFieldSelector::SpanStatus);
            let there = has_key(span.record, "status"@) && under(span.record, "status"@) is Object;
            let object = under(span.record, "status"@);
            &&& !there ==> status is None
            &&& there && !(has_key(object, "code"@) && under(object, "code"@) is Bytes) ==> status
                == Some("SPAN_STATUS_CODE_UNSPECIFIED"@)
            &&& there && shows(object, "code"@, code) && code == "STATUS_CODE_OK"@ ==> status
                == Some("SPAN_STATUS_CODE_OK"@)
            &&& there && shows(object, "code"@, code) && code == "STATUS_CODE_ERROR"@ ==> status
                == Some("SPAN_STATUS_CODE_ERROR"@)
            &&& there && shows(object, "code"@, code) && code == "STATUS_CODE_UNSET"@ ==> status
                == Some("SPAN_STATUS_CODE_UNSPECIFIED"@)
            &&& there && shows(object, "code"@, code) && code != "STATUS_CODE_OK"@ && code
                != "STATUS_CODE_ERROR"@ && code != "STATUS_CODE_UNSET"@ ==> status is None
        }),
{
    reveal_strlit("STATUS_CODE_OK");
    reveal_strlit("STATUS_CODE_ERROR");
    reveal_strlit("STATUS_CODE_UNSET");
    assert("STATUS_CODE_OK"@.len() == 14);
    assert("STATUS_CODE_ERROR"@.len() == 17);
    assert("STATUS_CODE_ERROR"@[12] == 'E');
    assert("STATUS_CODE_UNSET"@[12] == 'U');
}

proof fn lemma_first_event(events: Seq<Tree>, at: int, name: Seq<char>)
    requires
        0 <= at < events.len(),
        name.len() > 0,
        shows(events[at], "name"@, name),
        forall|i: int, other: Seq<char>|
            0 <= i < at && other.len() > 0 ==> !#[trigger] shows(events[i], "name"@, other),
    ensures
        crate::otlp_trace_adapter::first_event_name(events) == Some(name),
    decreases events.len(),
{
    if at > 0 {
        let rest = events.drop_first();
        match crate::otlp_common::non_empty_text(events[0].field("name"@)) {
            Some(other) => {
                assert(shows(events[0], "name"@, other));
            },
            None => {},
        }
        assert forall|i: int, other: Seq<char>| 0 <= i < at - 1 && other.len() > 0 implies !#[trigger] shows(
            rest[i],
            "name"@,
            other,
        ) by {
            assert(rest[i] == events[i + 1]);
        }
        lemma_first_event(rest, at - 1, name);
    }
}

proof fn lemma_no_event(events: Seq<Tree>)
    requires
        forall|i: int, other: Seq<char>|
            0 <= i < events.len() && other.len() > 0 ==> !#[trigger] shows(
                events[i],
                "name"@,
                other,
            ),
    ensures
        crate::otlp_trace_adapter::first_event_name(events) is None,
    decreases events.len(),
{
    if events.len() > 0 {
        let rest = events.drop_first();
        match crate::otlp_common::non_empty_text(events[0].field("name"@)) {
            Some(other) => {
                assert(shows(events[0], "name"@, other));
            },
            None => {},
        }
        assert forall|i: int, other: Seq<char>| 0 <= i < rest.len() && other.len() > 0 implies !#[trigger] shows(
            rest[i],
            "name"@,
            other,
        ) by {
            assert(rest[i] == events[i + 1]);
        }
        lemma_no_event(rest);
    }
}

/// A span's event name is that of the first event with a name that is not empty. Without such
/// an event, or without a list of events, there is none.
pub proof fn law_span_event_name(span: RecordTree, events: Seq<Tree>, at: int, name: Seq<char>)
    ensures
        has_list(span.record, "events"@, events) && 0 <= at < events.len() && name.len() > 0
            && shows(events[at], "name"@, name) && (forall|i: int, other: Seq<char>|
            0 <= i < at && other.len() > 0 ==> !#[trigger] shows(events[i], "name"@, other))
            ==> span.span_text(TraceFieldSelector::EventName) == Some(name),
        has_list(span.record, "events"@, events) && (forall|i: int, other: Seq<char>|
            0 <= i < events.len() && other.len() > 0 ==> !#[trigger] shows(
                events[i],
                "name"@,
                other,
            )) ==> span.span_text(TraceFieldSelector::EventName) is None,
        lacks_list(span.record, "events"@) ==> span.span_text(TraceFieldSelector::EventName)
            is None,
{
    if has_list(span.record, "events"@, events) && 0 <= at < events.len() && name.len() > 0
        && shows(events[at], "name"@, name) && (forall|i: int, other: Seq<char>|
        0 <= i < at && other.len() > 0 ==> !#[trigger] shows(events[i], "name"@, other)) {
        lemma_first_event(events, at, name);
    }
    if has_list(span.record, "events"@, events) && (forall|i: int, other: Seq<char>|
        0 <= i < events.len() && other.len() > 0 ==> !#[trigger] shows(events[i], "name"@, other)) {
        lemma_no_event(events);
    }
}

/// The simple fields of a metric are matched by the strings that stand in it under their names,
/// and those of its surroundings by the strings there. The empty string matches nothing.
pub proof fn law_metric_fields_are_matched(metric: RecordTree, text: Seq<char>)
    ensures
        metric.metric_text(MetricFieldSelector::Simple(MetricField::Name)) == Some(text)
            <==> text.len() > 0 && shows(metric.record, "name"@, text),
        metric.metric_text(MetricFieldSelector::Simple(MetricField::Description)) == Some(text)
            <==> text.len() > 0 && shows(metric.record, "description"@, text),
        metric.metric_text(MetricFieldSelector::Simple(MetricField::Unit)) == Some(text)
            <==> text.len() > 0 && shows(metric.record, "unit"@, text),
        metric.metric_text(MetricFieldSelector::Simple(MetricField::ScopeName)) == Some(text)
            <==> text.len() > 0 && shows_in(metric.scope, "name"@, text),
        metric.metric_text(MetricFieldSelector::Simple(MetricField::ScopeVersion)) == Some(text)
            <==> text.len() > 0 && shows_in(metric.scope, "version"@, text),
        metric.metric_text(MetricFieldSelector::Simple(MetricField::ResourceSchemaUrl)) == Some(
            text,
        ) <==> text.len() > 0 && metric.resource_schema_url is Some && reads_as(
            metric.resource_schema_url->0,
            text,
        ),
        metric.metric_text(MetricFieldSelector::Simple(MetricField::ScopeSchemaUrl)) == Some(text)
            <==> text.len() > 0 && metric.scope_schema_url is Some && reads_as(
            metric.scope_schema_url->0,
            text,
        ),
        metric.metric_text(MetricFieldSelector::Simple(MetricField::Unspecified)) is None,
{
}

/// The sorts of data that a metric may have, each with the name of its type. Where a metric has
/// several, the first of them counts.
pub open spec fn data_sorts() -> Seq<(Seq<char>, Seq<char>)> {
    seq![
        ("gauge"@, "METRIC_TYPE_GAUGE"@),
        ("sum"@, "METRIC_TYPE_SUM"@),
        ("histogram"@, "METRIC_TYPE_HISTOGRAM"@),
        ("exponentialHistogram"@, "METRIC_TYPE_EXPONENTIAL_HISTOGRAM"@),
        ("summary"@, "METRIC_TYPE_SUMMARY"@),
    ]
}

/// A metric has data of the sort at `sort` and of none before it.
pub open spec fn has_data(metric: Tree, sort: int) -> bool {
    &&& 0 <= sort < 5
    &&& has_key(metric, data_sorts()[sort].0)
    &&& forall|earlier: int| 0 <= earlier < sort ==> !has_key(metric, #[trigger] data_sorts()[earlier].0)
}

/// A metric has data of no known sort.
pub open spec fn has_no_data(metric: Tree) -> bool {
    forall|sort: int| 0 <= sort < 5 ==> !has_key(metric, #[trigger] data_sorts()[sort].0)
}

proof fn lemma_metric_data(metric: Tree, sort: int)
    ensures
        has_data(metric, sort) ==> crate::otlp_metric_adapter::metric_data(metric) == Some(
            (under(metric, data_sorts()[sort].0), data_sorts()[sort].1),
        ),
        has_no_data(metric) ==> crate::otlp_metric_adapter::metric_data(metric) is None,
{
    let sorts = data_sorts();
    assert(sorts[0].0 == "gauge"@);
    assert(sorts[1].0 == "sum"@);
    assert(sorts[2].0 == "histogram"@);
    assert(sorts[3].0 == "exponentialHistogram"@);
    assert(sorts[4].0 == "summary"@);
}

/// A metric's type is the name of the sort of its data, and its temporality is what the data
/// says of it. A metric without data has neither.
pub proof fn law_metric_type(metric: RecordTree, sort: int, text: Seq<char>)
    ensures
        has_data(metric.record, sort) ==> metric.metric_text(MetricFieldSelector::Type) == Some(
            data_sorts()[sort].1,
        ),
        has_data(metric.record, sort) ==> (metric.metric_text(MetricFieldSelector::Temporality)
            == Some(text) <==> text.len() > 0 && shows(
            under(metric.record, data_sorts()[sort].0),
            "aggregationTemporality"@,
            text,
        )),
        has_no_data(metric.record) ==> metric.metric_text(MetricFieldSelector::Type) is None,
        has_no_data(metric.record) ==> metric.metric_text(MetricFieldSelector::Temporality)
            is None,
{
    lemma_metric_data(metric.record, sort);
}

/// Whatever sort of data a metric has, a data point attribute is matched by the string that its
/// path leads to in the first data point. It is also present where the path leads to something
/// of another sort. Without a first data point there is none.
pub proof fn law_metric_data_points(
    metric: RecordTree,
    sort: int,
    points: Seq<Tree>,
    path: Vec<String>,
    text: Seq<char>,
)
    ensures
        has_data(metric.record, sort) && has_list(
            under(metric.record, data_sorts()[sort].0),
            "dataPoints"@,
            points,
        ) && points.len() > 0 ==> {
            &&& metric.metric_text(MetricFieldSelector::DatapointAttribute(path)) == Some(text)
                <==> text.len() > 0 && shows_in(
                attribute_of(Some(points[0]), path@),
                "stringValue"@,
                text,
            )
            &&& metric.metric_has(MetricFieldSelector::DatapointAttribute(path))
                <==> metric.metric_text(MetricFieldSelector::DatapointAttribute(path)) is Some || (
            attribute_of(Some(points[0]), path@) is Some && holds_other_sort(
                attribute_of(Some(points[0]), path@)->0,
            ))
        },
        has_no_data(metric.record) || (has_data(metric.record, sort) && (lacks_list(
            under(metric.record, data_sorts()[sort].0),
            "dataPoints"@,
        ) || has_list(
            under(metric.record, data_sorts()[sort].0),
            "dataPoints"@,
            Seq::empty(),
        ))) ==> metric.metric_text(MetricFieldSelector::DatapointAttribute(path)) is None
            && !metric.metric_has(MetricFieldSelector::DatapointAttribute(path)),
{
    lemma_metric_data(metric.record, sort);
}

/// The attributes of a metric's resource and scope are matched by the strings that their paths
/// lead to, and are also present where those lead to something of another sort. Every other
/// field is present exactly if it is matched by a text.
pub proof fn law_metric_attributes_are_matched(
    metric: RecordTree,
    path: Vec<String>,
    text: Seq<char>,
    other: MetricFieldSelector,
)
    ensures
        metric.metric_text(MetricFieldSelector::ResourceAttribute(path)) == Some(text)
            <==> text.len() > 0 && shows_in(
            attribute_of(metric.resource, path@),
            "stringValue"@,
            text,
        ),
        metric.metric_text(MetricFieldSelector::ScopeAttribute(path)) == Some(text)
            <==> text.len() > 0 && shows_in(
            attribute_of(metric.scope, path@),
            "stringValue"@,
            text,
        ),
        metric.metric_has(MetricFieldSelector::ResourceAttribute(path)) <==> metric.metric_text(
            MetricFieldSelector::ResourceAttribute(path),
        ) is Some || (attribute_of(metric.resource, path@) is Some && holds_other_sort(
            attribute_of(metric.resource, path@)->0,
        )),
        metric.metric_has(MetricFieldSelector::ScopeAttribute(path)) <==> metric.metric_text(
            MetricFieldSelector::ScopeAttribute(path),
        ) is Some || (attribute_of(metric.scope, path@) is Some && holds_other_sort(
            attribute_of(metric.scope, path@)->0,
        )),
        other is Simple || other is Type || other is Temporality ==> (metric.metric_has(other)
            <==> metric.metric_text(other) is Some),
{
}

} // verus!
