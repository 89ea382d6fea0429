//! One OTLP log record as policies read and change it, with every scalar as text and
//! attributes under flat, dotted keys.
//!
//! Resource and scope are read-only here. A path of several segments names the one attribute
//! whose key is the segments with dots between them.

use crate::otlp_common::{attribute_index, field_in, RecordTree};
use crate::otlp_log_adapter::{
    make_attribute_entry, make_string_any_value, put_attributes, set_string_entry, take_attribute,
    take_attributes,
};
use crate::path::{PathSegment, Step};
use crate::selector::{LogField, LogFieldSelector};
use crate::text::decimal_text;
use crate::value::{Tree, Value};
use vstd::prelude::*;

verus! {

broadcast use crate::value::lemma_array_view;

/// The key that a path names: its segments with dots between them.
pub open spec fn dotted(path: Seq<Seq<char>>) -> Seq<char> {
    crate::text::joined(path, seq!['.'])
}

/// The text of a truth value.
pub open spec fn truth_text(value: bool) -> Seq<char> {
    if value {
        "true"@
    } else {
        "false"@
    }
}

/// The text of an `AnyValue`: that of the first scalar it has. Containers and bytes have none.
pub open spec fn scalar_text(value: Tree) -> Option<Seq<char>> {
    if let Some(Tree::Bytes(bytes)) = value.field("stringValue"@) {
        Some(crate::vrl_bridge::shown_text(bytes))
    } else if let Some(Tree::Integer(integer)) = value.field("intValue"@) {
        Some(crate::text::decimal(integer as int))
    } else if let Some(Tree::Boolean(boolean)) = value.field("boolValue"@) {
        Some(truth_text(boolean))
    } else if let Some(Tree::Float(text)) = value.field("doubleValue"@) {
        Some(text)
    } else {
        None
    }
}

/// The text of a plain scalar.
pub open spec fn plain_text(value: Tree) -> Option<Seq<char>> {
    match value {
        Tree::Bytes(bytes) => Some(crate::vrl_bridge::shown_text(bytes)),
        Tree::Integer(integer) => Some(crate::text::decimal(integer as int)),
        Tree::Float(text) => Some(text),
        Tree::Boolean(boolean) => Some(truth_text(boolean)),
        _ => None,
    }
}

/// The value of a simple field.
pub open spec fn simple_field(state: RecordTree, field: LogField) -> Option<Tree> {
    match field {
        LogField::Body => state.record.field("body"@),
        LogField::SeverityText => state.record.field("severityText"@),
        LogField::TraceId => state.record.field("traceId"@),
        LogField::SpanId => state.record.field("spanId"@),
        LogField::EventName => state.record.field("eventName"@),
        LogField::ResourceSchemaUrl => state.resource_schema_url,
        LogField::ScopeSchemaUrl => state.scope_schema_url,
        LogField::Unspecified => None,
    }
}

/// The attribute list that a selector looks into.
pub open spec fn attributes_of(state: RecordTree, selector: LogFieldSelector) -> Option<Seq<Tree>> {
    crate::otlp_common::items_of(state.log_attributes(selector))
}

/// The text that a field is matched by.
pub open spec fn record_text(state: RecordTree, selector: LogFieldSelector) -> Option<Seq<char>> {
    match selector {
        LogFieldSelector::Simple(field) => match simple_field(state, field) {
            Some(value) => if field == LogField::Body {
                scalar_text(value)
            } else {
                plain_text(value)
            },
            None => None,
        },
        LogFieldSelector::LogAttribute(path)
        | LogFieldSelector::ResourceAttribute(path)
        | LogFieldSelector::ScopeAttribute(path) => match attributes_of(state, selector) {
            Some(list) => match crate::otlp_common::entry_value(
                list,
                dotted(crate::text::texts(path@)),
            ) {
                Some(value) => scalar_text(value),
                None => None,
            },
            None => None,
        },
    }
}

/// A field counts as present: a simple field that has a value, an attribute that has an entry.
pub open spec fn record_has(state: RecordTree, selector: LogFieldSelector) -> bool {
    match selector {
        LogFieldSelector::Simple(field) => simple_field(state, field) is Some,
        LogFieldSelector::LogAttribute(path)
        | LogFieldSelector::ResourceAttribute(path)
        | LogFieldSelector::ScopeAttribute(path) => match attributes_of(state, selector) {
            Some(list) => crate::otlp_common::entry_position(
                list,
                dotted(crate::text::texts(path@)),
            ) < list.len(),
            None => false,
        },
    }
}

/// The record with a field set to a text. Only what stands in the record itself can be set.
pub open spec fn record_with(
    record: Tree,
    selector: LogFieldSelector,
    text: Seq<char>,
) -> Tree {
    match selector {
        LogFieldSelector::Simple(field) => match field {
            LogField::Body => crate::path::put_at(
                Some(record),
                seq![Step::Field("body"@)],
                crate::otlp_log_adapter::string_any_value(text),
            ),
            LogField::SeverityText => record.with_field("severityText"@, Tree::text(text)),
            LogField::TraceId => record.with_field("traceId"@, Tree::text(text)),
            LogField::SpanId => record.with_field("spanId"@, Tree::text(text)),
            LogField::EventName => record.with_field("eventName"@, Tree::text(text)),
            _ => record,
        },
        LogFieldSelector::LogAttribute(path) => crate::otlp_log_adapter::with_attribute_list(
            record,
            crate::otlp_log_adapter::with_string_entry(
                crate::otlp_log_adapter::ensured_list(record),
                dotted(crate::text::texts(path@)),
                text,
            ),
        ),
        LogFieldSelector::ResourceAttribute(_) => record,
        LogFieldSelector::ScopeAttribute(_) => record,
    }
}

/// The record with a field deleted: of attributes, the first entry under the key.
pub open spec fn record_without(record: Tree, selector: LogFieldSelector) -> Tree {
    match selector {
        LogFieldSelector::Simple(field) => match field {
            LogField::Body => record.without_field("body"@),
            LogField::SeverityText => record.without_field("severityText"@),
            LogField::TraceId => record.without_field("traceId"@),
            LogField::SpanId => record.without_field("spanId"@),
            LogField::EventName => record.without_field("eventName"@),
            _ => record,
        },
        LogFieldSelector::LogAttribute(path) => crate::otlp_log_adapter::attribute_left(
            record,
            seq![dotted(crate::text::texts(path@))],
        ),
        LogFieldSelector::ResourceAttribute(_) => record,
        LogFieldSelector::ScopeAttribute(_) => record,
    }
}

/// There is something under a field for a deletion to remove.
pub open spec fn record_holds(record: Tree, selector: LogFieldSelector) -> bool {
    match selector {
        LogFieldSelector::Simple(field) => match field {
            LogField::Body => record.field("body"@) is Some,
            LogField::SeverityText => record.field("severityText"@) is Some,
            LogField::TraceId => record.field("traceId"@) is Some,
            LogField::SpanId => record.field("spanId"@) is Some,
            LogField::EventName => record.field("eventName"@) is Some,
            _ => false,
        },
        LogFieldSelector::LogAttribute(path) => crate::otlp_log_adapter::attribute_found(
            record,
            seq![dotted(crate::text::texts(path@))],
        ),
        LogFieldSelector::ResourceAttribute(_) => false,
        LogFieldSelector::ScopeAttribute(_) => false,
    }
}

/// The record with an attribute moved to another key, its value as it was, as the last entry.
/// Only attributes of the record itself are moved. An entry without a value is gone.
pub open spec fn record_moved(record: Tree, from: LogFieldSelector, to: LogFieldSelector) -> Tree {
    match (from, to) {
        (LogFieldSelector::LogAttribute(from_path), LogFieldSelector::LogAttribute(to_path)) => {
            let key = seq![dotted(crate::text::texts(from_path@))];
            match crate::otlp_log_adapter::attribute_taken(record, key) {
                Some(entry) => {
                    let left = crate::otlp_log_adapter::attribute_left(record, key);
                    match entry.field("value"@) {
                        Some(value) => crate::otlp_log_adapter::with_attribute_list(
                            left,
                            crate::otlp_log_adapter::ensured_list(left).push(
                                crate::otlp_log_adapter::attribute_entry(
                                    dotted(crate::text::texts(to_path@)),
                                    value,
                                ),
                            ),
                        ),
                        None => left,
                    }
                },
                None => record,
            }
        },
        _ => record,
    }
}

/// The segments of a path with dots between them.
pub fn join_path(segments: &[String]) -> (r: String)
    ensures
        r@ == dotted(crate::text::texts(segments@)),
{
    proof {
        reveal_strlit(".");
    }
    assert("."@ =~= seq!['.']);
    let mut text = String::new();
    let mut i: usize = 0;
    let ghost all = crate::text::texts(segments@);
    while i < segments.len()
        invariant
            i <= segments@.len(),
            all == crate::text::texts(segments@),
            "."@ == seq!['.'],
            text@ == dotted(all.take(i as int)),
        decreases segments@.len() - i,
    {
        assert(all.take(i + 1).drop_last() =~= all.take(i as int));
        if i > 0 {
            text.append(".");
        }
        text.append(segments[i].as_str());
        proof {
            if i == 0 {
                assert(text@ =~= all[0]);
            }
        }
        i = i + 1;
    }
    assert(all.take(i as int) =~= all);
    text
}

fn truth(value: bool) -> (r: String)
    ensures
        r@ == truth_text(value),
{
    if value {
        "true".to_string()
    } else {
        "false".to_string()
    }
}

/// The text of an `AnyValue`.
pub fn any_value_to_string(value: &Value) -> (r: Option<String>)
    ensures
        crate::value::text_of(r) == scalar_text(value@),
{
    if let Some(inner) = value.get("stringValue") {
        if let Some(text) = inner.as_str() {
            return Some(text);
        }
    }
    if let Some(Value::Integer(integer)) = value.get("intValue") {
        return Some(decimal_text(*integer));
    }
    if let Some(Value::Boolean(boolean)) = value.get("boolValue") {
        return Some(truth(*boolean));
    }
    if let Some(Value::Float(float)) = value.get("doubleValue") {
        return Some(float.text().to_string());
    }
    None
}

/// The text of a plain scalar.
pub fn plain_value_to_string(value: &Value) -> (r: Option<String>)
    ensures
        crate::value::text_of(r) == plain_text(value@),
{
    match value {
        Value::Bytes(_) => value.as_str(),
        Value::Integer(integer) => Some(decimal_text(*integer)),
        Value::Float(float) => Some(float.text().to_string()),
        Value::Boolean(boolean) => Some(truth(*boolean)),
        _ => None,
    }
}

/// One log record of an OTLP envelope, with its resource and scope.
pub struct OtlpLogAdapter<'a> {
    pub log_record: &'a mut Value,
    pub resource: Option<&'a Value>,
    pub scope: Option<&'a Value>,
    pub resource_schema_url: Option<&'a Value>,
    pub scope_schema_url: Option<&'a Value>,
}

impl<'a> OtlpLogAdapter<'a> {
    /// The record as it stands.
    pub open spec fn view(self) -> RecordTree {
        RecordTree {
            record: (*self.log_record)@,
            resource: crate::value::tree_at(self.resource),
            scope: crate::value::tree_at(self.scope),
            resource_schema_url: crate::value::tree_at(self.resource_schema_url),
            scope_schema_url: crate::value::tree_at(self.scope_schema_url),
        }
    }

    /// An adapter for a record, with what stands around it.
    pub fn new(
        log_record: &'a mut Value,
        resource: Option<&'a Value>,
        scope: Option<&'a Value>,
        resource_schema_url: Option<&'a Value>,
        scope_schema_url: Option<&'a Value>,
    ) -> (r: OtlpLogAdapter<'a>)
        ensures
            *r.log_record == *old(log_record),
            *final(r.log_record) == *final(log_record),
            r.resource == resource,
            r.scope == scope,
            r.resource_schema_url == resource_schema_url,
            r.scope_schema_url == scope_schema_url,
    {
        OtlpLogAdapter { log_record, resource, scope, resource_schema_url, scope_schema_url }
    }

    /// The value of a simple field.
    fn simple_value(&self, field: LogField) -> (r: Option<&Value>)
        ensures
            crate::value::tree_at(r) == simple_field(self@, field),
    {
        match field {
            LogField::Body => self.log_record.get("body"),
            LogField::SeverityText => self.log_record.get("severityText"),
            LogField::TraceId => self.log_record.get("traceId"),
            LogField::SpanId => self.log_record.get("spanId"),
            LogField::EventName => self.log_record.get("eventName"),
            LogField::ResourceSchemaUrl => self.resource_schema_url,
            LogField::ScopeSchemaUrl => self.scope_schema_url,
            LogField::Unspecified => None,
        }
    }

    /// The attribute list that a selector looks into.
    fn attributes_for(&self, selector: &LogFieldSelector) -> (r: Option<&Vec<Value>>)
        ensures
            match r {
                Some(list) => attributes_of(self@, *selector) == Some(crate::value::trees(list@)),
                None => attributes_of(self@, *selector) is None,
            },
    {
        let attributes = match selector {
            LogFieldSelector::LogAttribute(_) => self.log_record.get("attributes"),
            LogFieldSelector::ResourceAttribute(_) => field_in(self.resource, "attributes"),
            LogFieldSelector::ScopeAttribute(_) => field_in(self.scope, "attributes"),
            LogFieldSelector::Simple(_) => None,
        };
        attributes?.as_array()
    }

    /// The text that a field is matched by.
    pub fn get_field(&self, field: &LogFieldSelector) -> (r: Option<String>)
        ensures
            crate::value::text_of(r) == record_text(self@, *field),
    {
        match field {
            LogFieldSelector::Simple(simple) => {
                let value = self.simple_value(*simple)?;
                match simple {
                    LogField::Body => any_value_to_string(value),
                    _ => plain_value_to_string(value),
                }
            },
            LogFieldSelector::LogAttribute(path)
            | LogFieldSelector::ResourceAttribute(path)
            | LogFieldSelector::ScopeAttribute(path) => {
                let list = self.attributes_for(field)?;
                let at = attribute_index(list, join_path(path.as_slice()).as_str());
                if at < list.len() {
                    let value = list[at].get("value")?;
                    any_value_to_string(value)
                } else {
                    None
                }
            },
        }
    }

    /// Whether a field counts as present.
    pub fn field_exists(&self, field: &LogFieldSelector) -> (r: bool)
        ensures
            r == record_has(self@, *field),
    {
        match field {
            LogFieldSelector::Simple(simple) => self.simple_value(*simple).is_some(),
            LogFieldSelector::LogAttribute(path)
            | LogFieldSelector::ResourceAttribute(path)
            | LogFieldSelector::ScopeAttribute(path) => match self.attributes_for(field) {
                Some(list) => attribute_index(list, join_path(path.as_slice()).as_str())
                    < list.len(),
                None => false,
            },
        }
    }

    /// Sets a field to a text. Only what stands in the record itself can be set.
    pub fn set_field(&mut self, field: &LogFieldSelector, value: &str)
        ensures
            final(self)@ == (RecordTree {
                record: record_with(old(self)@.record, *field, value@),
                ..old(self)@
            }),
            *final(final(self).log_record) == *final(old(self).log_record),
            final(self).resource == old(self).resource,
            final(self).scope == old(self).scope,
            final(self).resource_schema_url == old(self).resource_schema_url,
            final(self).scope_schema_url == old(self).scope_schema_url,
    {
        match field {
            LogFieldSelector::Simple(simple) => match simple {
                LogField::Body => {
                    let mut path: Vec<PathSegment> = Vec::new();
                    path.push(PathSegment::Field("body".to_string()));
                    assert(crate::path::steps(path@) =~= seq![Step::Field("body"@)]);
                    self.log_record.insert_at(&path, make_string_any_value(value));
                },
                LogField::SeverityText => self.log_record.set_field(
                    "severityText",
                    Value::text(value),
                ),
                LogField::TraceId => self.log_record.set_field("traceId", Value::text(value)),
                LogField::SpanId => self.log_record.set_field("spanId", Value::text(value)),
                LogField::EventName => self.log_record.set_field("eventName", Value::text(value)),
                _ => {},
            },
            LogFieldSelector::LogAttribute(path) => {
                let key = join_path(path.as_slice());
                set_attribute(self.log_record, key.as_str(), value);
            },
            _ => {},
        }
    }

    /// Deletes a field of the record; says whether there was something to delete.
    pub fn delete_field(&mut self, field: &LogFieldSelector) -> (r: bool)
        ensures
            final(self)@ == (RecordTree {
                record: record_without(old(self)@.record, *field),
                ..old(self)@
            }),
            r == record_holds(old(self)@.record, *field),
            *final(final(self).log_record) == *final(old(self).log_record),
            final(self).resource == old(self).resource,
            final(self).scope == old(self).scope,
            final(self).resource_schema_url == old(self).resource_schema_url,
            final(self).scope_schema_url == old(self).scope_schema_url,
    {
        match field {
            LogFieldSelector::Simple(simple) => match simple {
                LogField::Body => self.log_record.take_field("body").is_some(),
                LogField::SeverityText => self.log_record.take_field("severityText").is_some(),
                LogField::TraceId => self.log_record.take_field("traceId").is_some(),
                LogField::SpanId => self.log_record.take_field("spanId").is_some(),
                LogField::EventName => self.log_record.take_field("eventName").is_some(),
                _ => false,
            },
            LogFieldSelector::LogAttribute(path) => {
                let key = join_path(path.as_slice());
                take_attribute(self.log_record, key.as_str()).is_some()
            },
            _ => false,
        }
    }

    /// Moves an attribute of the record to another key, its value as it was.
    pub fn move_field(&mut self, from: &LogFieldSelector, to: &LogFieldSelector)
        ensures
            final(self)@ == (RecordTree {
                record: record_moved(old(self)@.record, *from, *to),
                ..old(self)@
            }),
            *final(final(self).log_record) == *final(old(self).log_record),
            final(self).resource == old(self).resource,
            final(self).scope == old(self).scope,
            final(self).resource_schema_url == old(self).resource_schema_url,
            final(self).scope_schema_url == old(self).scope_schema_url,
    {
        match (from, to) {
            (
                LogFieldSelector::LogAttribute(from_path),
                LogFieldSelector::LogAttribute(to_path),
            ) => {
                let from_key = join_path(from_path.as_slice());
                let to_key = join_path(to_path.as_slice());
                match take_attribute(self.log_record, from_key.as_str()) {
                    Some(taken) => {
                        let mut entry = taken;
                        match entry.take_field("value") {
                            Some(value) => push_attribute(
                                self.log_record,
                                make_attribute_entry(to_key.as_str(), value),
                            ),
                            None => {},
                        }
                    },
                    None => {},
                }
            },
            _ => {},
        }
    }
}

/// Sets the first attribute under `key`, or else a new last one, to a string.
fn set_attribute(record: &mut Value, key: &str, value: &str)
    ensures
        final(record)@ == crate::otlp_log_adapter::with_attribute_list(
            old(record)@,
            crate::otlp_log_adapter::with_string_entry(
                crate::otlp_log_adapter::ensured_list(old(record)@),
                key@,
                value@,
            ),
        ),
{
    if !record.is_object() {
        return;
    }
    let list = match take_attributes(record) {
        Some(list) => list,
        None => Vec::new(),
    };
    assert(crate::value::trees(list@) =~= crate::otlp_log_adapter::ensured_list(old(record)@));
    let list = set_string_entry(list, key, value);
    proof {
        crate::otlp_log_adapter::lemma_list_replaced(old(record)@, crate::value::trees(list@));
    }
    put_attributes(record, list);
}

/// Puts an entry last in the record's attribute list.
fn push_attribute(record: &mut Value, entry: Value)
    ensures
        final(record)@ == crate::otlp_log_adapter::with_attribute_list(
            old(record)@,
            crate::otlp_log_adapter::ensured_list(old(record)@).push(entry@),
        ),
{
    if !record.is_object() {
        return;
    }
    let mut list = match take_attributes(record) {
        Some(list) => list,
        None => Vec::new(),
    };
    let ghost before = crate::value::trees(list@);
    assert(before =~= crate::otlp_log_adapter::ensured_list(old(record)@));
    list.push(entry);
    assert(crate::value::trees(list@) =~= before.push(entry@));
    proof {
        crate::otlp_log_adapter::lemma_list_replaced(old(record)@, crate::value::trees(list@));
    }
    put_attributes(record, list);
}

/// A field of the record itself has a place that a text can be written to and read back from.
pub open spec fn settable(record: Tree, selector: LogFieldSelector) -> bool {
    match selector {
        LogFieldSelector::Simple(field) => match field {
            LogField::Body => true,
            LogField::SeverityText
            | LogField::TraceId
            | LogField::SpanId
            | LogField::EventName => record is Object,
            _ => false,
        },
        LogFieldSelector::LogAttribute(_) => record is Object,
        LogFieldSelector::ResourceAttribute(_) => false,
        LogFieldSelector::ScopeAttribute(_) => false,
    }
}

/// A text that was set is read back.
pub proof fn law_record_set_then_get(
    state: RecordTree,
    selector: LogFieldSelector,
    text: Seq<char>,
)
    requires
        settable(state.record, selector),
    ensures
        record_text(
            RecordTree { record: record_with(state.record, selector, text), ..state },
            selector,
        ) == Some(text),
{
    crate::vrl_bridge::lemma_shown_text(text);
    match selector {
        LogFieldSelector::Simple(field) => {
            if field == LogField::Body {
                let path = seq![Step::Field("body"@)];
                let fields = match state.record {
                    Tree::Object(fields) => fields,
                    _ => Map::empty(),
                };
                let inner = if fields.dom().contains("body"@) {
                    Some(fields["body"@])
                } else {
                    None
                };
                assert(path.drop_first() =~= Seq::<Step>::empty());
                assert(crate::path::put_at(
                    inner,
                    path.drop_first(),
                    crate::otlp_log_adapter::string_any_value(text),
                ) == crate::otlp_log_adapter::string_any_value(text));
            }
        },
        LogFieldSelector::LogAttribute(path) => {
            let key = dotted(crate::text::texts(path@));
            crate::otlp_log_adapter::law_set_attribute(
                crate::otlp_log_adapter::ensured_list(state.record),
                key,
                text,
                key,
            );
        },
        _ => {},
    }
}

/// Resource and scope attributes, the schema URLs and the unspecified field cannot be set,
/// deleted or moved.
pub proof fn law_record_surroundings_stay(
    record: Tree,
    selector: LogFieldSelector,
    other: LogFieldSelector,
    text: Seq<char>,
)
    requires
        match selector {
            LogFieldSelector::Simple(field) => field == LogField::Unspecified || field
                == LogField::ResourceSchemaUrl || field == LogField::ScopeSchemaUrl,
            LogFieldSelector::LogAttribute(_) => false,
            LogFieldSelector::ResourceAttribute(_) => true,
            LogFieldSelector::ScopeAttribute(_) => true,
        },
    ensures
        record_with(record, selector, text) == record,
        record_without(record, selector) == record,
        !record_holds(record, selector),
        record_moved(record, selector, other) == record,
        record_moved(record, other, selector) == record,
{
}

/// A moved attribute is found under its new key with the value it had, if there was none under
/// that key before.
pub proof fn law_record_move_keeps_value(
    record: Tree,
    from: LogFieldSelector,
    to: LogFieldSelector,
    from_key: Seq<char>,
    to_key: Seq<char>,
    value: Tree,
)
    requires
        from matches LogFieldSelector::LogAttribute(path) && from_key == dotted(
            crate::text::texts(path@),
        ),
        to matches LogFieldSelector::LogAttribute(path) && to_key == dotted(
            crate::text::texts(path@),
        ),
        crate::otlp_log_adapter::attribute_list(record) matches Some(list)
            && crate::otlp_common::entry_value(list, from_key) == Some(value)
            && crate::otlp_common::entry_position(list, to_key) >= list.len(),
    ensures
        crate::otlp_log_adapter::attribute_list(record_moved(record, from, to)) matches Some(list)
            && crate::otlp_common::entry_value(list, to_key) == Some(value),
{
    let list = crate::otlp_log_adapter::attribute_list(record)->0;
    let at = crate::otlp_common::entry_position(list, from_key);
    crate::otlp_common::lemma_entry_position(list, from_key);
    crate::otlp_common::lemma_entry_position(list, to_key);
    let rest = list.remove(at);
    assert forall|i: int| 0 <= i < rest.len() implies !crate::otlp_common::entry_has_key(
        #[trigger] rest[i],
        to_key,
    ) by {
        let was = if i < at {
            i
        } else {
            i + 1
        };
        assert(rest[i] == list[was]);
    }
    crate::otlp_common::lemma_first_position(rest, to_key, rest.len() as int);
    let left = crate::otlp_log_adapter::attribute_left(record, seq![from_key]);
    assert(crate::otlp_log_adapter::ensured_list(left) == rest);
    let entry = crate::otlp_log_adapter::attribute_entry(to_key, value);
    crate::otlp_log_adapter::lemma_entry_pushed(rest, entry, to_key);
    crate::otlp_log_adapter::lemma_names_differ();
}

} // verus!
