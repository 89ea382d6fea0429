//! One OTLP span, with its resource and scope, as policies read and change it.
//!
//! Of a span only the sampling threshold can be written, into its trace state. Resource and
//! scope are read-only.

use crate::otlp_common::{
    attribute_exists_path, field_in, find_attribute_path, non_empty, RecordTree,
};
use crate::selector::{TraceField, TraceFieldSelector};
use crate::text::same_text;
use crate::tracestate::merge_ot_tracestate;
use crate::value::{Tree, Value};
use vstd::prelude::*;

verus! {

broadcast use crate::value::lemma_array_view;

/// The text that a span's status is matched by. A span without a status has none. A status
/// without a code is unset.
pub open spec fn status_text(status: Option<Tree>) -> Option<Seq<char>> {
    match status {
        Some(Tree::Object(fields)) => {
            let code = match Tree::Object(fields).field("code"@) {
                Some(code) => code.as_text(),
                None => None,
            };
            match code {
                None => Some("SPAN_STATUS_CODE_UNSPECIFIED"@),
                Some(text) => if text == "STATUS_CODE_OK"@ {
                    Some("SPAN_STATUS_CODE_OK"@)
                } else if text == "STATUS_CODE_ERROR"@ {
                    Some("SPAN_STATUS_CODE_ERROR"@)
                } else if text == "STATUS_CODE_UNSET"@ {
                    Some("SPAN_STATUS_CODE_UNSPECIFIED"@)
                } else {
                    None
                },
            }
        },
        _ => None,
    }
}

/// The first name that is not empty among a span's events.
pub open spec fn first_event_name(events: Seq<Tree>) -> Option<Seq<char>>
    decreases events.len(),
{
    if events.len() == 0 {
        None
    } else {
        match crate::otlp_common::non_empty_text(events[0].field("name"@)) {
            Some(name) => Some(name),
            None => first_event_name(events.drop_first()),
        }
    }
}

/// The trace state of a span; empty where it has none.
pub open spec fn trace_state(span: Tree) -> Seq<char> {
    match span.field("traceState"@) {
        Some(state) => match state.as_text() {
            Some(text) => text,
            None => Seq::empty(),
        },
        None => Seq::empty(),
    }
}

impl RecordTree {
    /// The text that a field of a span is matched by.
    pub open spec fn span_text(self, selector: TraceFieldSelector) -> Option<Seq<char>> {
        match selector {
            TraceFieldSelector::Simple(field) => match field {
                TraceField::Name => crate::otlp_common::non_empty_text(
                    self.record.field("name"@),
                ),
                TraceField::TraceId => crate::otlp_common::non_empty_text(
                    self.record.field("traceId"@),
                ),
                TraceField::SpanId => crate::otlp_common::non_empty_text(
                    self.record.field("spanId"@),
                ),
                TraceField::ParentSpanId => crate::otlp_common::non_empty_text(
                    self.record.field("parentSpanId"@),
                ),
                TraceField::TraceState => crate::otlp_common::non_empty_text(
                    self.record.field("traceState"@),
                ),
                TraceField::ScopeName => crate::otlp_common::non_empty_text(
                    crate::otlp_common::field_of(self.scope, "name"@),
                ),
                TraceField::ScopeVersion => crate::otlp_common::non_empty_text(
                    crate::otlp_common::field_of(self.scope, "version"@),
                ),
                TraceField::ResourceSchemaUrl => crate::otlp_common::non_empty_text(
                    self.resource_schema_url,
                ),
                TraceField::ScopeSchemaUrl => crate::otlp_common::non_empty_text(
                    self.scope_schema_url,
                ),
                TraceField::Unspecified => None,
            },
            TraceFieldSelector::SpanAttribute(path) => crate::otlp_common::any_value_text(
                crate::otlp_common::attribute_in(
                    self.record.field("attributes"@),
                    crate::text::texts(path@),
                ),
            ),
            TraceFieldSelector::ResourceAttribute(path) => crate::otlp_common::any_value_text(
                crate::otlp_common::attribute_in(
                    crate::otlp_common::field_of(self.resource, "attributes"@),
                    crate::text::texts(path@),
                ),
            ),
            TraceFieldSelector::ScopeAttribute(path) => crate::otlp_common::any_value_text(
                crate::otlp_common::attribute_in(
                    crate::otlp_common::field_of(self.scope, "attributes"@),
                    crate::text::texts(path@),
                ),
            ),
            TraceFieldSelector::SpanKind => crate::otlp_common::non_empty_text(
                self.record.field("kind"@),
            ),
            TraceFieldSelector::SpanStatus => status_text(self.record.field("status"@)),
            TraceFieldSelector::EventName => match crate::otlp_common::items_of(
                self.record.field("events"@),
            ) {
                Some(events) => first_event_name(events),
                None => None,
            },
            TraceFieldSelector::EventAttribute(_)
            | TraceFieldSelector::LinkTraceId
            | TraceFieldSelector::SamplingThreshold => None,
        }
    }

    /// A field of a span counts as present.
    pub open spec fn span_has(self, selector: TraceFieldSelector) -> bool {
        match selector {
            TraceFieldSelector::SpanAttribute(path) => crate::otlp_common::any_value_is_present(
                crate::otlp_common::attribute_in(
                    self.record.field("attributes"@),
                    crate::text::texts(path@),
                ),
            ),
            TraceFieldSelector::ResourceAttribute(path) =>
                crate::otlp_common::any_value_is_present(
                crate::otlp_common::attribute_in(
                    crate::otlp_common::field_of(self.resource, "attributes"@),
                    crate::text::texts(path@),
                ),
            ),
            TraceFieldSelector::ScopeAttribute(path) => crate::otlp_common::any_value_is_present(
                crate::otlp_common::attribute_in(
                    crate::otlp_common::field_of(self.scope, "attributes"@),
                    crate::text::texts(path@),
                ),
            ),
            _ => self.span_text(selector) is Some,
        }
    }

    /// The span with a field set: the sampling threshold goes into the trace state, and any
    /// other field stays as it is.
    pub open spec fn span_with(self, selector: TraceFieldSelector, text: Seq<char>) -> RecordTree {
        if selector is SamplingThreshold {
            RecordTree {
                record: self.record.with_field(
                    "traceState"@,
                    Tree::text(
                        crate::tracestate::merged(trace_state(self.record), seq!['t', 'h', ':'] + text),
                    ),
                ),
                ..self
            }
        } else {
            self
        }
    }
}

/// One span of an OTLP envelope, with its resource and scope.
pub struct TraceAdapter<'a> {
    pub span: &'a mut Value,
    pub resource: Option<&'a Value>,
    pub scope: Option<&'a Value>,
    pub resource_schema_url: Option<&'a Value>,
    pub scope_schema_url: Option<&'a Value>,
}

impl<'a> TraceAdapter<'a> {
    /// The span as it stands.
    pub open spec fn view(self) -> RecordTree {
        RecordTree {
            record: (*self.span)@,
            resource: crate::value::tree_at(self.resource),
            scope: crate::value::tree_at(self.scope),
            resource_schema_url: crate::value::tree_at(self.resource_schema_url),
            scope_schema_url: crate::value::tree_at(self.scope_schema_url),
        }
    }

    /// The first name that is not empty among the span's events.
    fn event_name(&self) -> (r: Option<String>)
        ensures
            crate::value::text_of(r) == self@.span_text(TraceFieldSelector::EventName),
    {
        let events = self.span.get("events")?.as_array()?;
        let mut i: usize = 0;
        let ghost all = crate::value::trees(events@);
        assert(all.skip(0) =~= all);
        while i < events.len()
            invariant
                i <= events@.len(),
                all == crate::value::trees(events@),
                crate::otlp_common::items_of(self@.record.field("events"@)) == Some(all),
                first_event_name(all) == first_event_name(all.skip(i as int)),
            decreases events@.len() - i,
        {
            assert(all.skip(i as int).drop_first() =~= all.skip(i + 1));
            let name = non_empty(events[i].get("name"));
            if name.is_some() {
                return name;
            }
            i = i + 1;
        }
        None
    }

    /// The text that the span's status is matched by.
    fn span_status(&self) -> (r: Option<String>)
        ensures
            crate::value::text_of(r) == self@.span_text(TraceFieldSelector::SpanStatus),
    {
        let status = self.span.get("status")?;
        if !status.is_object() {
            return None;
        }
        let code = match status.get("code") {
            Some(code) => code.as_str(),
            None => None,
        };
        match code {
            None => Some("SPAN_STATUS_CODE_UNSPECIFIED".to_string()),
            Some(text) => if same_text(text.as_str(), "STATUS_CODE_OK") {
                Some("SPAN_STATUS_CODE_OK".to_string())
            } else if same_text(text.as_str(), "STATUS_CODE_ERROR") {
                Some("SPAN_STATUS_CODE_ERROR".to_string())
            } else if same_text(text.as_str(), "STATUS_CODE_UNSET") {
                Some("SPAN_STATUS_CODE_UNSPECIFIED".to_string())
            } else {
                None
            },
        }
    }

    /// The text that a field is matched by.
    pub fn get_field(&self, field: &TraceFieldSelector) -> (r: Option<String>)
        ensures
            crate::value::text_of(r) == self@.span_text(*field),
    {
        match field {
            TraceFieldSelector::Simple(simple) => match simple {
                TraceField::Name => non_empty(self.span.get("name")),
                TraceField::TraceId => non_empty(self.span.get("traceId")),
                TraceField::SpanId => non_empty(self.span.get("spanId")),
                TraceField::ParentSpanId => non_empty(self.span.get("parentSpanId")),
                TraceField::TraceState => non_empty(self.span.get("traceState")),
                TraceField::ScopeName => non_empty(field_in(self.scope, "name")),
                TraceField::ScopeVersion => non_empty(field_in(self.scope, "version")),
                TraceField::ResourceSchemaUrl => non_empty(self.resource_schema_url),
                TraceField::ScopeSchemaUrl => non_empty(self.scope_schema_url),
                TraceField::Unspecified => None,
            },
            TraceFieldSelector::SpanAttribute(path) => find_attribute_path(
                self.span.get("attributes"),
                path.as_slice(),
            ),
            TraceFieldSelector::ResourceAttribute(path) => find_attribute_path(
                field_in(self.resource, "attributes"),
                path.as_slice(),
            ),
            TraceFieldSelector::ScopeAttribute(path) => find_attribute_path(
                field_in(self.scope, "attributes"),
                path.as_slice(),
            ),
            TraceFieldSelector::SpanKind => non_empty(self.span.get("kind")),
            TraceFieldSelector::SpanStatus => self.span_status(),
            TraceFieldSelector::EventName => self.event_name(),
            TraceFieldSelector::EventAttribute(_)
            | TraceFieldSelector::LinkTraceId
            | TraceFieldSelector::SamplingThreshold => None,
        }
    }

    /// Whether a field counts as present.
    pub fn field_exists(&self, field: &TraceFieldSelector) -> (r: bool)
        ensures
            r == self@.span_has(*field),
    {
        match field {
            TraceFieldSelector::SpanAttribute(path) => attribute_exists_path(
                self.span.get("attributes"),
                path.as_slice(),
            ),
            TraceFieldSelector::ResourceAttribute(path) => attribute_exists_path(
                field_in(self.resource, "attributes"),
                path.as_slice(),
            ),
            TraceFieldSelector::ScopeAttribute(path) => attribute_exists_path(
                field_in(self.scope, "attributes"),
                path.as_slice(),
            ),
            _ => self.get_field(field).is_some(),
        }
    }

    /// Writes the sampling threshold into the span's trace state; sets no other field.
    pub fn set_field(&mut self, field: &TraceFieldSelector, value: &str)
        ensures
            final(self)@ == old(self)@.span_with(*field, value@),
            *final(final(self).span) == *final(old(self).span),
            final(self).resource == old(self).resource,
            final(self).scope == old(self).scope,
            final(self).resource_schema_url == old(self).resource_schema_url,
            final(self).scope_schema_url == old(self).scope_schema_url,
    {
        match field {
            TraceFieldSelector::SamplingThreshold => {
                let state = match self.span.get("traceState") {
                    Some(state) => state.as_str(),
                    None => None,
                };
                let current = match state {
                    Some(text) => text,
                    None => String::new(),
                };
                proof {
                    reveal_strlit("th:");
                }
                assert("th:"@ =~= seq!['t', 'h', ':']);
                let mut entry = "th:".to_string();
                entry.append(value);
                let merged = merge_ot_tracestate(current.as_str(), entry.as_str());
                self.span.set_field("traceState", Value::text(merged.as_str()));
            },
            _ => {},
        }
    }

    /// Deletes nothing: no field of a span can be deleted.
    pub fn delete_field(&mut self, _field: &TraceFieldSelector) -> (r: bool)
        ensures
            r == false,
            *final(self) == *old(self),
    {
        false
    }

    /// Moves nothing: no field of a span can be moved.
    pub fn move_field(&mut self, _from: &TraceFieldSelector, _to: &TraceFieldSelector)
        ensures
            *final(self) == *old(self),
    {
    }
}

/// A field of a span that is matched by a text is present.
pub proof fn law_matched_span_field_is_present(span: RecordTree, selector: TraceFieldSelector)
    ensures
        span.span_text(selector) is Some ==> span.span_has(selector),
{
}

/// After the sampling threshold is set, the trace state's last `ot` sub-entry is the threshold,
/// the others are those it had under other keys, and the other vendors' entries stay.
pub proof fn law_threshold_is_written(span: RecordTree, threshold: Seq<char>)
    requires
        span.record is Object,
        threshold.len() > 0,
        crate::tracestate::clean(threshold, ';'),
        crate::text::lacks(threshold, ','),
    ensures
        ({
            let entry = seq!['t', 'h', ':'] + threshold;
            let before = crate::text::pieces(trace_state(span.record), ',');
            let now = crate::text::pieces(
                trace_state(
                    span.span_with(TraceFieldSelector::SamplingThreshold, threshold).record,
                ),
                ',',
            );
            &&& crate::tracestate::ot_entries(now) == crate::tracestate::entries_beside(
                crate::tracestate::ot_entries(before),
                entry,
            ).push(entry)
            &&& crate::tracestate::other_vendors(now) == crate::tracestate::other_vendors(before)
        }),
{
    let entry = seq!['t', 'h', ':'] + threshold;
    assert(crate::tracestate::clean(entry, ';')) by {
        assert forall|i: int| 0 <= i < entry.len() implies #[trigger] entry[i] != ';' by {
            if i >= 3 {
                assert(entry[i] == threshold[i - 3]);
            }
        }
        assert(entry.last() == threshold.last());
    }
    assert forall|i: int| 0 <= i < entry.len() implies #[trigger] entry[i] != ',' by {
        if i >= 3 {
            assert(entry[i] == threshold[i - 3]);
        }
    }
    let state = crate::tracestate::merged(trace_state(span.record), entry);
    crate::vrl_bridge::lemma_shown_text(state);
    crate::tracestate::law_merge(trace_state(span.record), entry);
}

} // verus!
