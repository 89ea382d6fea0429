//! One OTLP log record, with its resource and scope, as policies read and change it.
//!
//! Simple fields and attributes match only as non-empty strings. Attributes of the record, the
//! resource and the scope can all be set, deleted and moved.

use crate::otlp_common::{
    any_value_string, attribute_exists_path, attribute_index, attribute_key_eq,
    find_attribute_path, non_empty, RecordTree,
};
use crate::selector::{LogField, LogFieldSelector};
use crate::value::{ObjectMap, Tree, Value};
use vstd::prelude::*;

verus! {

broadcast use crate::value::lemma_array_view;

/// The `attributes` array of a record, resource or scope.
pub open spec fn attribute_list(parent: Tree) -> Option<Seq<Tree>> {
    crate::otlp_common::items_of(parent.field("attributes"@))
}

/// `parent` with `list` as its `attributes` array.
pub open spec fn with_attribute_list(parent: Tree, list: Seq<Tree>) -> Tree {
    parent.with_field("attributes"@, Tree::Array(list))
}

/// The `attributes` array that a new attribute goes into: the one there is, or an empty one.
pub open spec fn ensured_list(parent: Tree) -> Seq<Tree> {
    match attribute_list(parent) {
        Some(list) => list,
        None => Seq::empty(),
    }
}

/// An `AnyValue` that holds a string.
pub open spec fn string_any_value(text: Seq<char>) -> Tree {
    Tree::Object(Map::empty().insert("stringValue"@, Tree::text(text)))
}

/// An attribute entry.
pub open spec fn attribute_entry(key: Seq<char>, value: Tree) -> Tree {
    Tree::Object(Map::empty().insert("key"@, Tree::text(key)).insert("value"@, value))
}

/// `list` with the first entry under `key`, or else a new last one, holding the string `text`.
pub open spec fn with_string_entry(list: Seq<Tree>, key: Seq<char>, text: Seq<char>) -> Seq<Tree> {
    let at = crate::otlp_common::entry_position(list, key);
    if at < list.len() {
        list.update(at, list[at].with_field("value"@, string_any_value(text)))
    } else {
        list.push(attribute_entry(key, string_any_value(text)))
    }
}

/// `list` without the entries under `key`.
pub open spec fn without_entries(list: Seq<Tree>, key: Seq<char>) -> Seq<Tree> {
    list.filter(|entry: Tree| !crate::otlp_common::entry_has_key(entry, key))
}

/// `parent` with the attribute under the path's first segment holding the string `text`.
pub open spec fn attribute_set(parent: Tree, path: Seq<Seq<char>>, text: Seq<char>) -> Tree {
    if path.len() == 0 {
        with_attribute_list(parent, ensured_list(parent))
    } else {
        with_attribute_list(parent, with_string_entry(ensured_list(parent), path[0], text))
    }
}

/// `parent` without the attributes under the path's first segment.
pub open spec fn attribute_removed(parent: Tree, path: Seq<Seq<char>>) -> Tree {
    match attribute_list(parent) {
        Some(list) => if path.len() == 0 {
            parent
        } else {
            with_attribute_list(parent, without_entries(list, path[0]))
        },
        None => parent,
    }
}

/// `parent` has an attribute under the path's first segment.
pub open spec fn attribute_found(parent: Tree, path: Seq<Seq<char>>) -> bool {
    match attribute_list(parent) {
        Some(list) => path.len() > 0 && crate::otlp_common::entry_position(list, path[0])
            < list.len(),
        None => false,
    }
}

/// The first attribute entry under the path's first segment.
pub open spec fn attribute_taken(parent: Tree, path: Seq<Seq<char>>) -> Option<Tree> {
    if attribute_found(parent, path) {
        let list = attribute_list(parent)->0;
        Some(list[crate::otlp_common::entry_position(list, path[0])])
    } else {
        None
    }
}

/// `parent` without the first attribute entry under the path's first segment.
pub open spec fn attribute_left(parent: Tree, path: Seq<Seq<char>>) -> Tree {
    if attribute_found(parent, path) {
        let list = attribute_list(parent)->0;
        with_attribute_list(
            parent,
            list.remove(crate::otlp_common::entry_position(list, path[0])),
        )
    } else {
        parent
    }
}

/// `parent` with `entry` as its only attribute under `key`, last in the list.
pub open spec fn attribute_upserted(parent: Tree, key: Seq<char>, entry: Tree) -> Tree {
    with_attribute_list(parent, without_entries(ensured_list(parent), key).push(entry))
}

/// A log record's `body` counts as present: a string that is not empty, or a value of
/// another sort.
pub open spec fn body_is_present(body: Option<Tree>) -> bool {
    match crate::otlp_common::field_of(body, "stringValue"@) {
        Some(Tree::Bytes(bytes)) => crate::vrl_bridge::shown_text(bytes).len() > 0,
        _ => {
            ||| crate::otlp_common::field_of(body, "boolValue"@) is Some
            ||| crate::otlp_common::field_of(body, "intValue"@) is Some
            ||| crate::otlp_common::field_of(body, "doubleValue"@) is Some
            ||| crate::otlp_common::field_of(body, "arrayValue"@) is Some
            ||| crate::otlp_common::field_of(body, "kvlistValue"@) is Some
            ||| crate::otlp_common::field_of(body, "bytesValue"@) is Some
        },
    }
}

/// Whether a log record's `body` counts as present.
fn log_body_present(body: Option<&Value>) -> (r: bool)
    ensures
        r == body_is_present(crate::value::tree_at(body)),
{
    match body {
        Some(body) => {
            match body.get("stringValue") {
                Some(value) => match value.as_str() {
                    Some(text) => {
                        return !text.as_str().is_empty();
                    },
                    None => {},
                },
                None => {},
            }
            body.get("boolValue").is_some() || body.get("intValue").is_some() || body.get(
                "doubleValue",
            ).is_some() || body.get("arrayValue").is_some() || body.get("kvlistValue").is_some()
                || body.get("bytesValue").is_some()
        },
        None => false,
    }
}

/// An `AnyValue` that holds a string.
pub fn make_string_any_value(value: &str) -> (r: Value)
    ensures
        r@ == string_any_value(value@),
{
    let mut object = ObjectMap::new();
    object.insert("stringValue".to_string(), Value::text(value));
    Value::Object(object)
}

/// An attribute entry.
pub fn make_attribute_entry(key: &str, value: Value) -> (r: Value)
    ensures
        r@ == attribute_entry(key@, value@),
{
    let mut object = ObjectMap::new();
    object.insert("key".to_string(), Value::text(key));
    object.insert("value".to_string(), value);
    Value::Object(object)
}

/// Takes the `attributes` array out of its parent, where there is one.
pub(crate) fn take_attributes(parent: &mut Value) -> (r: Option<Vec<Value>>)
    ensures
        match r {
            Some(list) => attribute_list(old(parent)@) == Some(crate::value::trees(list@))
                && final(parent)@ == old(parent)@.without_field("attributes"@),
            None => attribute_list(old(parent)@) is None && final(parent)@ == old(parent)@,
        },
{
    match parent.get("attributes") {
        Some(Value::Array(_)) => {},
        _ => {
            return None;
        },
    }
    match parent.take_field("attributes") {
        Some(Value::Array(list)) => Some(list),
        _ => None,
    }
}

/// Puts an `attributes` array into a parent.
pub(crate) fn put_attributes(parent: &mut Value, list: Vec<Value>)
    ensures
        final(parent)@ == with_attribute_list(old(parent)@, crate::value::trees(list@)),
{
    parent.set_field("attributes", Value::Array(list));
}

/// Putting a list in over one that was taken out is putting it in.
pub(crate) proof fn lemma_list_replaced(parent: Tree, list: Seq<Tree>)
    ensures
        with_attribute_list(parent.without_field("attributes"@), list) == with_attribute_list(
            parent,
            list,
        ),
{
    match parent {
        Tree::Object(fields) => {
            assert(fields.remove("attributes"@).insert("attributes"@, Tree::Array(list))
                =~= fields.insert("attributes"@, Tree::Array(list)));
        },
        _ => {},
    }
}

/// Takes the entries under `key` out of an attribute list.
fn retain_other_entries(list: Vec<Value>, key: &str) -> (r: Vec<Value>)
    ensures
        crate::value::trees(r@) == without_entries(crate::value::trees(list@), key@),
{
    let mut list = list;
    let mut kept: Vec<Value> = Vec::new();
    let mut i: usize = 0;
    let ghost all = crate::value::trees(list@);
    let ghost wanted = |entry: Tree| !crate::otlp_common::entry_has_key(entry, key@);
    proof {
        reveal(Seq::filter);
    }
    while i < list.len()
        invariant
            i <= list@.len(),
            all.len() == list@.len(),
            forall|j: int| i <= j < list@.len() ==> (#[trigger] list@[j])@ == all[j],
            wanted == (|entry: Tree| !crate::otlp_common::entry_has_key(entry, key@)),
            crate::value::trees(kept@) == all.take(i as int).filter(wanted),
        decreases list@.len() - i,
    {
        let mut item = Value::Null;
        std::mem::swap(&mut item, &mut list[i]);
        let ghost before = kept@;
        proof {
            reveal(Seq::filter);
            assert(item@ == all[i as int]);
            assert(all.take(i + 1).drop_last() =~= all.take(i as int));
        }
        if !attribute_key_eq(&item, key) {
            kept.push(item);
            assert(crate::value::trees(kept@) =~= crate::value::trees(before).push(item@));
        }
        i = i + 1;
    }
    assert(all.take(i as int) =~= all);
    kept
}

/// Sets the first entry under `key`, or else a new last one, to a string.
pub(crate) fn set_string_entry(list: Vec<Value>, key: &str, value: &str) -> (r: Vec<Value>)
    ensures
        crate::value::trees(r@) == with_string_entry(crate::value::trees(list@), key@, value@),
{
    let mut list = list;
    let ghost before = crate::value::trees(list@);
    proof {
        crate::otlp_common::lemma_entry_position(before, key@);
    }
    let at = attribute_index(&list, key);
    if at < list.len() {
        let mut entry = Value::Null;
        std::mem::swap(&mut entry, &mut list[at]);
        entry.set_field("value", make_string_any_value(value));
        list.set(at, entry);
    } else {
        list.push(make_attribute_entry(key, make_string_any_value(value)));
    }
    assert(crate::value::trees(list@) =~= with_string_entry(before, key@, value@));
    list
}

/// Sets the attribute under the path's first segment to a string.
fn set_string_attr(parent: &mut Value, path: &Vec<String>, value: &str)
    ensures
        final(parent)@ == attribute_set(old(parent)@, crate::text::texts(path@), value@),
{
    if !parent.is_object() {
        return;
    }
    let mut list = match take_attributes(parent) {
        Some(list) => list,
        None => Vec::new(),
    };
    assert(crate::value::trees(list@) =~= ensured_list(old(parent)@));
    if path.len() > 0 {
        list = set_string_entry(list, path[0].as_str(), value);
    }
    proof {
        lemma_list_replaced(old(parent)@, crate::value::trees(list@));
    }
    put_attributes(parent, list);
}

/// Removes the attributes under the path's first segment; says whether there were any.
fn remove_attr(parent: &mut Value, path: &Vec<String>) -> (r: bool)
    ensures
        final(parent)@ == attribute_removed(old(parent)@, crate::text::texts(path@)),
        r == attribute_found(old(parent)@, crate::text::texts(path@)),
{
    if path.len() == 0 {
        return false;
    }
    let key = path[0].as_str();
    match take_attributes(parent) {
        Some(list) => {
            let found = attribute_index(&list, key) < list.len();
            let kept = retain_other_entries(list, key);
            proof {
                lemma_list_replaced(old(parent)@, crate::value::trees(kept@));
            }
            put_attributes(parent, kept);
            found
        },
        None => false,
    }
}

/// Takes the first attribute entry under a key.
pub(crate) fn take_attribute(parent: &mut Value, key: &str) -> (r: Option<Value>)
    ensures
        final(parent)@ == attribute_left(old(parent)@, seq![key@]),
        crate::value::tree_of(r) == attribute_taken(old(parent)@, seq![key@]),
{
    match take_attributes(parent) {
        Some(list) => {
            let mut list = list;
            let ghost before = crate::value::trees(list@);
            proof {
                crate::otlp_common::lemma_entry_position(before, key@);
            }
            let at = attribute_index(&list, key);
            let mut taken: Option<Value> = None;
            if at < list.len() {
                taken = Some(list.remove(at));
                assert(crate::value::trees(list@) =~= before.remove(at as int));
            }
            proof {
                lemma_list_replaced(old(parent)@, crate::value::trees(list@));
                if at >= before.len() {
                    crate::otlp_common::law_lift_then_reattach(old(parent)@, "attributes"@);
                }
            }
            put_attributes(parent, list);
            taken
        },
        None => None,
    }
}

/// Takes the first attribute entry under the path's first segment.
fn remove_attr_kv(parent: &mut Value, path: &Vec<String>) -> (r: Option<Value>)
    ensures
        final(parent)@ == attribute_left(old(parent)@, crate::text::texts(path@)),
        crate::value::tree_of(r) == attribute_taken(old(parent)@, crate::text::texts(path@)),
{
    if path.len() == 0 {
        return None;
    }
    take_attribute(parent, path[0].as_str())
}

/// Puts an entry last in an attribute list, in place of those under `key`.
fn upsert_entry(parent: &mut Value, key: &str, entry: Value)
    ensures
        final(parent)@ == attribute_upserted(old(parent)@, key@, entry@),
{
    if !parent.is_object() {
        return;
    }
    let list = match take_attributes(parent) {
        Some(list) => list,
        None => Vec::new(),
    };
    let ghost before = crate::value::trees(list@);
    assert(before =~= ensured_list(old(parent)@));
    let mut kept = retain_other_entries(list, key);
    kept.push(entry);
    assert(crate::value::trees(kept@) =~= without_entries(before, key@).push(entry@));
    proof {
        lemma_list_replaced(old(parent)@, crate::value::trees(kept@));
    }
    put_attributes(parent, kept);
}

impl RecordTree {
    /// The `attributes` that an attribute selector looks into.
    pub open spec fn log_attributes(self, selector: LogFieldSelector) -> Option<Tree> {
        match selector {
            LogFieldSelector::LogAttribute(_) => self.record.field("attributes"@),
            LogFieldSelector::ResourceAttribute(_) => crate::otlp_common::field_of(
                self.resource,
                "attributes"@,
            ),
            LogFieldSelector::ScopeAttribute(_) => crate::otlp_common::field_of(
                self.scope,
                "attributes"@,
            ),
            LogFieldSelector::Simple(_) => None,
        }
    }

    /// The text that a field is matched by.
    pub open spec fn log_text(self, selector: LogFieldSelector) -> Option<Seq<char>> {
        match selector {
            LogFieldSelector::Simple(field) => match field {
                LogField::Body => crate::otlp_common::any_value_text(self.record.field("body"@)),
                LogField::SeverityText => crate::otlp_common::non_empty_text(
                    self.record.field("severityText"@),
                ),
                LogField::TraceId => crate::otlp_common::non_empty_text(
                    self.record.field("traceId"@),
                ),
                LogField::SpanId => crate::otlp_common::non_empty_text(
                    self.record.field("spanId"@),
                ),
                LogField::EventName => crate::otlp_common::non_empty_text(
                    self.record.field("eventName"@),
                ),
                LogField::ResourceSchemaUrl => crate::otlp_common::non_empty_text(
                    self.resource_schema_url,
                ),
                LogField::ScopeSchemaUrl => crate::otlp_common::non_empty_text(
                    self.scope_schema_url,
                ),
                LogField::Unspecified => None,
            },
            LogFieldSelector::LogAttribute(path)
            | LogFieldSelector::ResourceAttribute(path)
            | LogFieldSelector::ScopeAttribute(path) => crate::otlp_common::any_value_text(
                crate::otlp_common::attribute_in(
                    self.log_attributes(selector),
                    crate::text::texts(path@),
                ),
            ),
        }
    }

    /// A field counts as present.
    pub open spec fn log_has(self, selector: LogFieldSelector) -> bool {
        match selector {
            LogFieldSelector::Simple(field) => match field {
                LogField::Body => body_is_present(self.record.field("body"@)),
                LogField::Unspecified => false,
                _ => self.log_text(selector) is Some,
            },
            LogFieldSelector::LogAttribute(path)
            | LogFieldSelector::ResourceAttribute(path)
            | LogFieldSelector::ScopeAttribute(path) => crate::otlp_common::any_value_is_present(
                crate::otlp_common::attribute_in(
                    self.log_attributes(selector),
                    crate::text::texts(path@),
                ),
            ),
        }
    }

    /// The record with a field set to a text.
    pub open spec fn log_with(self, selector: LogFieldSelector, text: Seq<char>) -> RecordTree {
        match selector {
            LogFieldSelector::Simple(field) => {
                let record = match field {
                    LogField::Body => self.record.with_field("body"@, string_any_value(text)),
                    LogField::SeverityText => self.record.with_field(
                        "severityText"@,
                        Tree::text(text),
                    ),
                    LogField::TraceId => self.record.with_field("traceId"@, Tree::text(text)),
                    LogField::SpanId => self.record.with_field("spanId"@, Tree::text(text)),
                    LogField::EventName => self.record.with_field("eventName"@, Tree::text(text)),
                    _ => self.record,
                };
                RecordTree { record, ..self }
            },
            LogFieldSelector::LogAttribute(path) => RecordTree {
                record: attribute_set(self.record, crate::text::texts(path@), text),
                ..self
            },
            LogFieldSelector::ResourceAttribute(path) => RecordTree {
                resource: match self.resource {
                    Some(resource) => Some(
                        attribute_set(resource, crate::text::texts(path@), text),
                    ),
                    None => None,
                },
                ..self
            },
            LogFieldSelector::ScopeAttribute(path) => RecordTree {
                scope: match self.scope {
                    Some(scope) => Some(attribute_set(scope, crate::text::texts(path@), text)),
                    None => None,
                },
                ..self
            },
        }
    }

    /// The record with a field deleted.
    pub open spec fn log_without(self, selector: LogFieldSelector) -> RecordTree {
        match selector {
            LogFieldSelector::Simple(field) => {
                let record = match field {
                    LogField::Body => self.record.without_field("body"@),
                    LogField::SeverityText => self.record.without_field("severityText"@),
                    LogField::TraceId => self.record.without_field("traceId"@),
                    LogField::SpanId => self.record.without_field("spanId"@),
                    LogField::EventName => self.record.without_field("eventName"@),
                    _ => self.record,
                };
                RecordTree { record, ..self }
            },
            LogFieldSelector::LogAttribute(path) => RecordTree {
                record: attribute_removed(self.record, crate::text::texts(path@)),
                ..self
            },
            LogFieldSelector::ResourceAttribute(path) => RecordTree {
                resource: match self.resource {
                    Some(resource) => Some(attribute_removed(resource, crate::text::texts(path@))),
                    None => None,
                },
                ..self
            },
            LogFieldSelector::ScopeAttribute(path) => RecordTree {
                scope: match self.scope {
                    Some(scope) => Some(attribute_removed(scope, crate::text::texts(path@))),
                    None => None,
                },
                ..self
            },
        }
    }

    /// There is something under a field for a deletion to remove.
    pub open spec fn log_holds(self, selector: LogFieldSelector) -> bool {
        match selector {
            LogFieldSelector::Simple(field) => match field {
                LogField::Body => self.record.field("body"@) is Some,
                LogField::SeverityText => self.record.field("severityText"@) is Some,
                LogField::TraceId => self.record.field("traceId"@) is Some,
                LogField::SpanId => self.record.field("spanId"@) is Some,
                LogField::EventName => self.record.field("eventName"@) is Some,
                _ => false,
            },
            LogFieldSelector::LogAttribute(path) => attribute_found(
                self.record,
                crate::text::texts(path@),
            ),
            LogFieldSelector::ResourceAttribute(path) => self.resource is Some && attribute_found(
                self.resource->0,
                crate::text::texts(path@),
            ),
            LogFieldSelector::ScopeAttribute(path) => self.scope is Some && attribute_found(
                self.scope->0,
                crate::text::texts(path@),
            ),
        }
    }

    /// The attribute entry that a move takes.
    pub open spec fn log_taken(self, selector: LogFieldSelector) -> Option<Tree> {
        match selector {
            LogFieldSelector::Simple(_) => None,
            LogFieldSelector::LogAttribute(path) => attribute_taken(
                self.record,
                crate::text::texts(path@),
            ),
            LogFieldSelector::ResourceAttribute(path) => match self.resource {
                Some(resource) => attribute_taken(resource, crate::text::texts(path@)),
                None => None,
            },
            LogFieldSelector::ScopeAttribute(path) => match self.scope {
                Some(scope) => attribute_taken(scope, crate::text::texts(path@)),
                None => None,
            },
        }
    }

    /// What is left once a move has taken its entry.
    pub open spec fn log_left(self, selector: LogFieldSelector) -> RecordTree {
        match selector {
            LogFieldSelector::Simple(_) => self,
            LogFieldSelector::LogAttribute(path) => RecordTree {
                record: attribute_left(self.record, crate::text::texts(path@)),
                ..self
            },
            LogFieldSelector::ResourceAttribute(path) => RecordTree {
                resource: match self.resource {
                    Some(resource) => Some(attribute_left(resource, crate::text::texts(path@))),
                    None => None,
                },
                ..self
            },
            LogFieldSelector::ScopeAttribute(path) => RecordTree {
                scope: match self.scope {
                    Some(scope) => Some(attribute_left(scope, crate::text::texts(path@))),
                    None => None,
                },
                ..self
            },
        }
    }

    /// The record with an attribute entry put under a selector's first segment.
    pub open spec fn log_given(self, selector: LogFieldSelector, entry: Tree) -> RecordTree {
        match selector {
            LogFieldSelector::Simple(_) => self,
            LogFieldSelector::LogAttribute(path) => if path@.len() == 0 {
                self
            } else {
                RecordTree {
                    record: attribute_upserted(
                        self.record,
                        path@[0]@,
                        entry.with_field("key"@, Tree::text(path@[0]@)),
                    ),
                    ..self
                }
            },
            LogFieldSelector::ResourceAttribute(path) => if path@.len() == 0 {
                self
            } else {
                RecordTree {
                    resource: match self.resource {
                        Some(resource) => Some(
                            attribute_upserted(
                                resource,
                                path@[0]@,
                                entry.with_field("key"@, Tree::text(path@[0]@)),
                            ),
                        ),
                        None => None,
                    },
                    ..self
                }
            },
            LogFieldSelector::ScopeAttribute(path) => if path@.len() == 0 {
                self
            } else {
                RecordTree {
                    scope: match self.scope {
                        Some(scope) => Some(
                            attribute_upserted(
                                scope,
                                path@[0]@,
                                entry.with_field("key"@, Tree::text(path@[0]@)),
                            ),
                        ),
                        None => None,
                    },
                    ..self
                }
            },
        }
    }

    /// The record with the first attribute entry under `from` moved to `to`, its value as it
    /// was. An entry with no place to go is gone.
    pub open spec fn log_moved(self, from: LogFieldSelector, to: LogFieldSelector) -> RecordTree {
        match self.log_taken(from) {
            Some(entry) => self.log_left(from).log_given(to, entry),
            None => self,
        }
    }
}

/// What a value is that is lent for changing and may be missing.
pub open spec fn tree_lent(value: Option<&mut Value>) -> Option<Tree> {
    match value {
        Some(value) => Some((*value)@),
        None => None,
    }
}

/// One log record of an OTLP envelope, with its resource and scope.
pub struct OtlpLogAdapter<'a> {
    pub log_record: &'a mut Value,
    pub resource: Option<&'a mut Value>,
    pub scope: Option<&'a mut Value>,
    pub resource_schema_url: Option<&'a Value>,
    pub scope_schema_url: Option<&'a Value>,
}

impl<'a> OtlpLogAdapter<'a> {
    /// The record as it stands.
    pub open spec fn view(self) -> RecordTree {
        RecordTree {
            record: (*self.log_record)@,
            resource: tree_lent(self.resource),
            scope: tree_lent(self.scope),
            resource_schema_url: crate::value::tree_at(self.resource_schema_url),
            scope_schema_url: crate::value::tree_at(self.scope_schema_url),
        }
    }

    /// An adapter for a record, with what stands around it.
    pub fn new(
        log_record: &'a mut Value,
        resource: Option<&'a mut Value>,
        scope: Option<&'a mut Value>,
        resource_schema_url: Option<&'a Value>,
        scope_schema_url: Option<&'a Value>,
    ) -> (r: OtlpLogAdapter<'a>)
        ensures
            *r.log_record == *old(log_record),
            *final(r.log_record) == *final(log_record),
            r.resource == resource,
            r.scope == scope,
            r.resource_schema_url == resource_schema_url,
            r.scope_schema_url == scope_schema_url,
    {
        OtlpLogAdapter { log_record, resource, scope, resource_schema_url, scope_schema_url }
    }

    /// The `attributes` that an attribute selector looks into.
    fn attributes_for(&self, selector: &LogFieldSelector) -> (r: Option<&Value>)
        ensures
            crate::value::tree_at(r) == self@.log_attributes(*selector),
    {
        match selector {
            LogFieldSelector::LogAttribute(_) => self.log_record.get("attributes"),
            LogFieldSelector::ResourceAttribute(_) => match &self.resource {
                Some(resource) => resource.get("attributes"),
                None => None,
            },
            LogFieldSelector::ScopeAttribute(_) => match &self.scope {
                Some(scope) => scope.get("attributes"),
                None => None,
            },
            LogFieldSelector::Simple(_) => None,
        }
    }

    /// The text that a field is matched by.
    pub fn get_field(&self, field: &LogFieldSelector) -> (r: Option<String>)
        ensures
            crate::value::text_of(r) == self@.log_text(*field),
    {
        match field {
            LogFieldSelector::Simple(simple) => match simple {
                LogField::Body => any_value_string(self.log_record.get("body")),
                LogField::SeverityText => non_empty(self.log_record.get("severityText")),
                LogField::TraceId => non_empty(self.log_record.get("traceId")),
                LogField::SpanId => non_empty(self.log_record.get("spanId")),
                LogField::EventName => non_empty(self.log_record.get("eventName")),
                LogField::ResourceSchemaUrl => non_empty(self.resource_schema_url),
                LogField::ScopeSchemaUrl => non_empty(self.scope_schema_url),
                LogField::Unspecified => None,
            },
            LogFieldSelector::LogAttribute(path)
            | LogFieldSelector::ResourceAttribute(path)
            | LogFieldSelector::ScopeAttribute(path) => find_attribute_path(
                self.attributes_for(field),
                path.as_slice(),
            ),
        }
    }

    /// Whether a field counts as present.
    pub fn field_exists(&self, field: &LogFieldSelector) -> (r: bool)
        ensures
            r == self@.log_has(*field),
    {
        match field {
            LogFieldSelector::Simple(simple) => match simple {
                LogField::Body => log_body_present(self.log_record.get("body")),
                LogField::Unspecified => false,
                _ => self.get_field(field).is_some(),
            },
            LogFieldSelector::LogAttribute(path)
            | LogFieldSelector::ResourceAttribute(path)
            | LogFieldSelector::ScopeAttribute(path) => attribute_exists_path(
                self.attributes_for(field),
                path.as_slice(),
            ),
        }
    }
}

impl<'a> OtlpLogAdapter<'a> {
    /// Sets a field to a text. The schema URLs and the unspecified field have no place of
    /// their own in a record and stay as they are.
    pub fn set_field(&mut self, field: &LogFieldSelector, value: &str)
        ensures
            final(self)@ == old(self)@.log_with(*field, value@),
            *final(final(self).log_record) == *final(old(self).log_record),
            match (final(self).resource, old(self).resource) {
                (Some(now), Some(before)) => *final(now) == *final(before),
                (None, None) => true,
                _ => false,
            },
            match (final(self).scope, old(self).scope) {
                (Some(now), Some(before)) => *final(now) == *final(before),
                (None, None) => true,
                _ => false,
            },
            final(self).resource_schema_url == old(self).resource_schema_url,
            final(self).scope_schema_url == old(self).scope_schema_url,
    {
        match field {
            LogFieldSelector::Simple(simple) => match simple {
                LogField::Body => self.log_record.set_field("body", make_string_any_value(value)),
                LogField::SeverityText => self.log_record.set_field(
                    "severityText",
                    Value::text(value),
                ),
                LogField::TraceId => self.log_record.set_field("traceId", Value::text(value)),
                LogField::SpanId => self.log_record.set_field("spanId", Value::text(value)),
                LogField::EventName => self.log_record.set_field("eventName", Value::text(value)),
                _ => {},
            },
            LogFieldSelector::LogAttribute(path) => set_string_attr(self.log_record, path, value),
            LogFieldSelector::ResourceAttribute(path) => match &mut self.resource {
                Some(resource) => set_string_attr(resource, path, value),
                None => {},
            },
            LogFieldSelector::ScopeAttribute(path) => match &mut self.scope {
                Some(scope) => set_string_attr(scope, path, value),
                None => {},
            },
        }
    }

    /// Deletes a field; says whether there was something to delete.
    pub fn delete_field(&mut self, field: &LogFieldSelector) -> (r: bool)
        ensures
            final(self)@ == old(self)@.log_without(*field),
            r == old(self)@.log_holds(*field),
            *final(final(self).log_record) == *final(old(self).log_record),
            match (final(self).resource, old(self).resource) {
                (Some(now), Some(before)) => *final(now) == *final(before),
                (None, None) => true,
                _ => false,
            },
            match (final(self).scope, old(self).scope) {
                (Some(now), Some(before)) => *final(now) == *final(before),
                (None, None) => true,
                _ => false,
            },
            final(self).resource_schema_url == old(self).resource_schema_url,
            final(self).scope_schema_url == old(self).scope_schema_url,
    {
        match field {
            LogFieldSelector::Simple(simple) => match simple {
                LogField::Body => self.log_record.take_field("body").is_some(),
                LogField::SeverityText => self.log_record.take_field("severityText").is_some(),
                LogField::TraceId => self.log_record.take_field("traceId").is_some(),
                LogField::SpanId => self.log_record.take_field("spanId").is_some(),
                LogField::EventName => self.log_record.take_field("eventName").is_some(),
                _ => false,
            },
            LogFieldSelector::LogAttribute(path) => remove_attr(self.log_record, path),
            LogFieldSelector::ResourceAttribute(path) => match &mut self.resource {
                Some(resource) => remove_attr(resource, path),
                None => false,
            },
            LogFieldSelector::ScopeAttribute(path) => match &mut self.scope {
                Some(scope) => remove_attr(scope, path),
                None => false,
            },
        }
    }

    /// Moves the first attribute entry under `from` to `to`, its value as it was, in place of
    /// what stood there.
    pub fn move_field(&mut self, from: &LogFieldSelector, to: &LogFieldSelector)
        ensures
            final(self)@ == old(self)@.log_moved(*from, *to),
            *final(final(self).log_record) == *final(old(self).log_record),
            match (final(self).resource, old(self).resource) {
                (Some(now), Some(before)) => *final(now) == *final(before),
                (None, None) => true,
                _ => false,
            },
            match (final(self).scope, old(self).scope) {
                (Some(now), Some(before)) => *final(now) == *final(before),
                (None, None) => true,
                _ => false,
            },
            final(self).resource_schema_url == old(self).resource_schema_url,
            final(self).scope_schema_url == old(self).scope_schema_url,
    {
        let source = match from {
            LogFieldSelector::LogAttribute(path) => remove_attr_kv(self.log_record, path),
            LogFieldSelector::ResourceAttribute(path) => match &mut self.resource {
                Some(resource) => remove_attr_kv(resource, path),
                None => None,
            },
            LogFieldSelector::ScopeAttribute(path) => match &mut self.scope {
                Some(scope) => remove_attr_kv(scope, path),
                None => None,
            },
            LogFieldSelector::Simple(_) => None,
        };
        let mut entry = match source {
            Some(entry) => entry,
            None => {
                return;
            },
        };
        match to {
            LogFieldSelector::LogAttribute(path) => if path.len() > 0 {
                let key = path[0].as_str();
                entry.set_field("key", Value::text(key));
                upsert_entry(self.log_record, key, entry);
            },
            LogFieldSelector::ResourceAttribute(path) => if path.len() > 0 {
                let key = path[0].as_str();
                entry.set_field("key", Value::text(key));
                match &mut self.resource {
                    Some(resource) => upsert_entry(resource, key, entry),
                    None => {},
                }
            },
            LogFieldSelector::ScopeAttribute(path) => if path.len() > 0 {
                let key = path[0].as_str();
                entry.set_field("key", Value::text(key));
                match &mut self.scope {
                    Some(scope) => upsert_entry(scope, key, entry),
                    None => {},
                }
            },
            LogFieldSelector::Simple(_) => {},
        }
    }
}

/// The two keys of an attribute entry differ.
pub(crate) proof fn lemma_names_differ()
    ensures
        "key"@ != "value"@,
{
    reveal_strlit("key");
    reveal_strlit("value");
    assert("key"@.len() == 3);
    assert("value"@.len() == 5);
}

/// A string is told from a value of another sort by its name.
proof fn lemma_any_value_names_differ()
    ensures
        "stringValue"@ != "boolValue"@,
        "stringValue"@ != "intValue"@,
        "stringValue"@ != "doubleValue"@,
        "stringValue"@ != "arrayValue"@,
        "stringValue"@ != "kvlistValue"@,
        "stringValue"@ != "bytesValue"@,
{
    reveal_strlit("stringValue");
    reveal_strlit("boolValue");
    reveal_strlit("intValue");
    reveal_strlit("doubleValue");
    reveal_strlit("arrayValue");
    reveal_strlit("kvlistValue");
    reveal_strlit("bytesValue");
    assert("stringValue"@[0] == 's');
    assert("boolValue"@[0] == 'b');
    assert("intValue"@[0] == 'i');
    assert("doubleValue"@[0] == 'd');
    assert("arrayValue"@[0] == 'a');
    assert("kvlistValue"@[0] == 'k');
    assert("bytesValue"@[0] == 'b');
}

/// Two texts with the same bytes are the same text.
pub(crate) proof fn lemma_text_injective(a: Seq<char>, b: Seq<char>)
    requires
        Tree::text(a) == Tree::text(b),
    ensures
        a == b,
{
    vstd::utf8::encode_utf8_decode_utf8(a);
    vstd::utf8::encode_utf8_decode_utf8(b);
}

proof fn lemma_string_any_value(text: Seq<char>)
    ensures
        text.len() > 0 ==> crate::otlp_common::any_value_text(Some(string_any_value(text)))
            == Some(text),
        text.len() == 0 ==> crate::otlp_common::any_value_text(Some(string_any_value(text)))
            is None,
{
    crate::vrl_bridge::lemma_shown_text(text);
}

/// Pushing an entry changes what a key holds only where there was none under it.
pub(crate) proof fn lemma_entry_pushed(list: Seq<Tree>, entry: Tree, key: Seq<char>)
    ensures
        crate::otlp_common::entry_value(list.push(entry), key) == if
            crate::otlp_common::entry_position(list, key) < list.len() {
            crate::otlp_common::entry_value(list, key)
        } else if crate::otlp_common::entry_has_key(entry, key) {
            entry.field("value"@)
        } else {
            None
        },
{
    let longer = list.push(entry);
    let at = crate::otlp_common::entry_position(list, key);
    crate::otlp_common::lemma_entry_position(list, key);
    assert forall|i: int| 0 <= i < at implies !crate::otlp_common::entry_has_key(
        #[trigger] longer[i],
        key,
    ) by {
        assert(longer[i] == list[i]);
    }
    if at < list.len() || crate::otlp_common::entry_has_key(entry, key) {
        crate::otlp_common::lemma_first_position(longer, key, at);
    } else {
        crate::otlp_common::lemma_first_position(longer, key, at + 1);
    }
}

proof fn lemma_without_entries(list: Seq<Tree>, key: Seq<char>)
    ensures
        crate::otlp_common::entry_position(without_entries(list, key), key) == without_entries(
            list,
            key,
        ).len(),
{
    let kept = without_entries(list, key);
    let wanted = |entry: Tree| !crate::otlp_common::entry_has_key(entry, key);
    assert forall|i: int| 0 <= i < kept.len() implies !crate::otlp_common::entry_has_key(
        #[trigger] kept[i],
        key,
    ) by {
        list.lemma_filter_pred(wanted, i);
    }
    crate::otlp_common::lemma_first_position(kept, key, kept.len() as int);
}

proof fn lemma_other_entries_stay(list: Seq<Tree>, key: Seq<char>, other: Seq<char>)
    requires
        key != other,
    ensures
        crate::otlp_common::entry_value(without_entries(list, key), other)
            == crate::otlp_common::entry_value(list, other),
        (crate::otlp_common::entry_position(without_entries(list, key), other) < without_entries(
            list,
            key,
        ).len()) == (crate::otlp_common::entry_position(list, other) < list.len()),
    decreases list.len(),
{
    reveal(Seq::filter);
    if list.len() > 0 {
        let shorter = list.drop_last();
        let last = list.last();
        lemma_other_entries_stay(shorter, key, other);
        assert(shorter.push(last) =~= list);
        lemma_entry_pushed(shorter, last, other);
        lemma_entry_pushed(without_entries(shorter, key), last, other);
        if crate::otlp_common::entry_has_key(last, key) && crate::otlp_common::entry_has_key(
            last,
            other,
        ) {
            lemma_text_injective(key, other);
        }
        lemma_position_pushed(shorter, last, other);
        lemma_position_pushed(without_entries(shorter, key), last, other);
    }
}

proof fn lemma_position_pushed(list: Seq<Tree>, entry: Tree, key: Seq<char>)
    ensures
        (crate::otlp_common::entry_position(list.push(entry), key) < list.len() + 1) == (
        crate::otlp_common::entry_position(list, key) < list.len()
            || crate::otlp_common::entry_has_key(entry, key)),
{
    let longer = list.push(entry);
    crate::otlp_common::lemma_entry_position(longer, key);
    crate::otlp_common::lemma_entry_position(list, key);
    let at = crate::otlp_common::entry_position(longer, key);
    if at < list.len() {
        assert(longer[at] == list[at]);
        if crate::otlp_common::entry_position(list, key) >= list.len() {
            assert(!crate::otlp_common::entry_has_key(list[at], key));
        }
    } else if crate::otlp_common::entry_position(list, key) < list.len() {
        let found = crate::otlp_common::entry_position(list, key);
        assert(longer[found] == list[found]);
        assert(!crate::otlp_common::entry_has_key(longer[found], key));
    } else if crate::otlp_common::entry_has_key(entry, key) {
        assert(longer[list.len() as int] == entry);
        if at > list.len() {
            assert(!crate::otlp_common::entry_has_key(longer[list.len() as int], key));
        }
    }
}

/// After setting a string attribute, its key holds that string and every other key holds what
/// it held.
pub proof fn law_set_attribute(list: Seq<Tree>, key: Seq<char>, text: Seq<char>, other: Seq<char>)
    ensures
        crate::otlp_common::entry_value(with_string_entry(list, key, text), key) == Some(
            string_any_value(text),
        ),
        other != key ==> crate::otlp_common::entry_value(
            with_string_entry(list, key, text),
            other,
        ) == crate::otlp_common::entry_value(list, other),
{
    lemma_names_differ();
    let at = crate::otlp_common::entry_position(list, key);
    let now = with_string_entry(list, key, text);
    crate::otlp_common::lemma_entry_position(list, key);
    if at < list.len() {
        assert forall|i: int| 0 <= i < at implies !crate::otlp_common::entry_has_key(
            #[trigger] now[i],
            key,
        ) by {
            assert(now[i] == list[i]);
        }
        crate::otlp_common::lemma_first_position(now, key, at);
        if other != key {
            let there = crate::otlp_common::entry_position(list, other);
            crate::otlp_common::lemma_entry_position(list, other);
            if there == at {
                lemma_text_injective(key, other);
            }
            assert forall|i: int| 0 <= i < there implies !crate::otlp_common::entry_has_key(
                #[trigger] now[i],
                other,
            ) by {
                if i == at {
                    assert(now[i].field("key"@) == list[i].field("key"@));
                } else {
                    assert(now[i] == list[i]);
                }
                assert(!crate::otlp_common::entry_has_key(list[i], other));
            }
            if there < list.len() {
                assert(now[there] == list[there]);
            }
            crate::otlp_common::lemma_first_position(now, other, there);
        }
    } else {
        let entry = attribute_entry(key, string_any_value(text));
        lemma_entry_pushed(list, entry, key);
        if other != key {
            lemma_entry_pushed(list, entry, other);
            if crate::otlp_common::entry_has_key(entry, other) {
                lemma_text_injective(key, other);
            }
        }
    }
}

/// After removing the attributes under a key, none is left under it and every other key holds
/// what it held.
pub proof fn law_remove_attribute(list: Seq<Tree>, key: Seq<char>, other: Seq<char>)
    ensures
        crate::otlp_common::entry_value(without_entries(list, key), key) is None,
        other != key ==> crate::otlp_common::entry_value(without_entries(list, key), other)
            == crate::otlp_common::entry_value(list, other),
{
    lemma_without_entries(list, key);
    if other != key {
        lemma_other_entries_stay(list, key, other);
    }
}

impl RecordTree {
    /// A field has a place that a text can be written to and read back from: a simple field
    /// of an object record, or an attribute of one segment in an object.
    pub open spec fn log_settable(self, selector: LogFieldSelector) -> bool {
        match selector {
            LogFieldSelector::Simple(field) => self.record is Object && match field {
                LogField::Body
                | LogField::SeverityText
                | LogField::TraceId
                | LogField::SpanId
                | LogField::EventName => true,
                _ => false,
            },
            LogFieldSelector::LogAttribute(path) => self.record is Object && path@.len() == 1,
            LogFieldSelector::ResourceAttribute(path) => self.resource is Some
                && self.resource->0 is Object && path@.len() == 1,
            LogFieldSelector::ScopeAttribute(path) => self.scope is Some && self.scope->0 is Object
                && path@.len() == 1,
        }
    }
}

proof fn lemma_attribute_set_read(parent: Tree, path: Seq<Seq<char>>, text: Seq<char>)
    requires
        parent is Object,
        path.len() == 1,
    ensures
        crate::otlp_common::attribute_in(
            attribute_set(parent, path, text).field("attributes"@),
            path,
        ) == Some(string_any_value(text)),
{
    law_set_attribute(ensured_list(parent), path[0], text, path[0]);
}

/// A text that was set is read back, unless it is empty: an empty text reads as absent.
pub proof fn law_set_then_get(state: RecordTree, selector: LogFieldSelector, text: Seq<char>)
    requires
        state.log_settable(selector),
    ensures
        text.len() > 0 ==> state.log_with(selector, text).log_text(selector) == Some(text)
            && state.log_with(selector, text).log_has(selector),
        text.len() == 0 ==> state.log_with(selector, text).log_text(selector) is None
            && !state.log_with(selector, text).log_has(selector),
{
    lemma_any_value_names_differ();
    crate::vrl_bridge::lemma_shown_text(text);
    lemma_string_any_value(text);
    match selector {
        LogFieldSelector::Simple(_) => {},
        LogFieldSelector::LogAttribute(path) => {
            lemma_attribute_set_read(state.record, crate::text::texts(path@), text);
        },
        LogFieldSelector::ResourceAttribute(path) => {
            lemma_attribute_set_read(state.resource->0, crate::text::texts(path@), text);
        },
        LogFieldSelector::ScopeAttribute(path) => {
            lemma_attribute_set_read(state.scope->0, crate::text::texts(path@), text);
        },
    }
}

proof fn lemma_attribute_removed_read(parent: Tree, path: Seq<Seq<char>>)
    requires
        path.len() > 0,
    ensures
        crate::otlp_common::attribute_in(
            attribute_removed(parent, path).field("attributes"@),
            path,
        ) is None,
        !attribute_found(attribute_removed(parent, path), path),
        !attribute_found(parent, path) ==> attribute_removed(parent, path) == parent,
{
    match attribute_list(parent) {
        Some(list) => {
            law_remove_attribute(list, path[0], path[0]);
            lemma_without_entries(list, path[0]);
            if !attribute_found(parent, path) {
                crate::otlp_common::lemma_entry_position(list, path[0]);
                let wanted = |entry: Tree| !crate::otlp_common::entry_has_key(entry, path[0]);
                lemma_nothing_filtered(list, wanted);
                match parent {
                    Tree::Object(fields) => {
                        assert(fields.insert("attributes"@, Tree::Array(list)) =~= fields);
                    },
                    _ => {},
                }
            }
        },
        None => {},
    }
}

proof fn lemma_nothing_filtered(list: Seq<Tree>, wanted: spec_fn(Tree) -> bool)
    requires
        forall|i: int| 0 <= i < list.len() ==> wanted(#[trigger] list[i]),
    ensures
        list.filter(wanted) == list,
    decreases list.len(),
{
    reveal(Seq::filter);
    if list.len() > 0 {
        let shorter = list.drop_last();
        assert forall|i: int| 0 <= i < shorter.len() implies wanted(#[trigger] shorter[i]) by {
            assert(shorter[i] == list[i]);
        }
        lemma_nothing_filtered(shorter, wanted);
        assert(wanted(list[list.len() - 1]));
        assert(shorter.push(list.last()) =~= list);
    }
}

/// A deleted field is gone: it is not matched, not present, and there is nothing more to
/// delete. Where there was nothing to delete, nothing changes. A selector that names no
/// place in the record (a schema URL, the empty path) deletes nothing.
pub proof fn law_delete(state: RecordTree, selector: LogFieldSelector)
    ensures
        !state.log_without(selector).log_holds(selector),
        !state.log_holds(selector) ==> state.log_without(selector) == state,
        match selector {
            LogFieldSelector::Simple(LogField::ResourceSchemaUrl)
            | LogFieldSelector::Simple(LogField::ScopeSchemaUrl) => true,
            _ => state.log_without(selector).log_text(selector) is None && !state.log_without(selector).log_has(
                selector,
            ),
        },
{
    match selector {
        LogFieldSelector::Simple(_) => {
            crate::otlp_common::law_lift_absent(state.record, "body"@);
            crate::otlp_common::law_lift_absent(state.record, "severityText"@);
            crate::otlp_common::law_lift_absent(state.record, "traceId"@);
            crate::otlp_common::law_lift_absent(state.record, "spanId"@);
            crate::otlp_common::law_lift_absent(state.record, "eventName"@);
        },
        LogFieldSelector::LogAttribute(path) => {
            if path@.len() > 0 {
                lemma_attribute_removed_read(state.record, crate::text::texts(path@));
            }
        },
        LogFieldSelector::ResourceAttribute(path) => {
            if path@.len() > 0 && state.resource is Some {
                lemma_attribute_removed_read(state.resource->0, crate::text::texts(path@));
            }
        },
        LogFieldSelector::ScopeAttribute(path) => {
            if path@.len() > 0 && state.scope is Some {
                lemma_attribute_removed_read(state.scope->0, crate::text::texts(path@));
            }
        },
    }
}

/// A field that is matched by a text is present.
pub proof fn law_matched_field_is_present(state: RecordTree, selector: LogFieldSelector)
    ensures
        state.log_text(selector) is Some ==> state.log_has(selector),
{
}

/// The unspecified field and the schema URLs cannot be set, deleted or moved.
pub proof fn law_placeless_fields_stay(
    state: RecordTree,
    field: LogField,
    other: LogFieldSelector,
    text: Seq<char>,
)
    requires
        field == LogField::Unspecified || field == LogField::ResourceSchemaUrl || field
            == LogField::ScopeSchemaUrl,
    ensures
        state.log_with(LogFieldSelector::Simple(field), text) == state,
        state.log_without(LogFieldSelector::Simple(field)) == state,
        !state.log_holds(LogFieldSelector::Simple(field)),
        state.log_moved(LogFieldSelector::Simple(field), other) == state,
{
}

impl RecordTree {
    /// Where the attributes of a selector's sort stand.
    pub open spec fn log_home(self, selector: LogFieldSelector) -> Option<Tree> {
        match selector {
            LogFieldSelector::Simple(_) => None,
            LogFieldSelector::LogAttribute(_) => Some(self.record),
            LogFieldSelector::ResourceAttribute(_) => self.resource,
            LogFieldSelector::ScopeAttribute(_) => self.scope,
        }
    }
}

/// The path of an attribute selector.
pub open spec fn attribute_path(selector: LogFieldSelector) -> Seq<Seq<char>> {
    match selector {
        LogFieldSelector::Simple(_) => Seq::empty(),
        LogFieldSelector::LogAttribute(path)
        | LogFieldSelector::ResourceAttribute(path)
        | LogFieldSelector::ScopeAttribute(path) => crate::text::texts(path@),
    }
}

/// Two selectors name attributes of the same place.
pub open spec fn same_home(a: LogFieldSelector, b: LogFieldSelector) -> bool {
    ||| a is LogAttribute && b is LogAttribute
    ||| a is ResourceAttribute && b is ResourceAttribute
    ||| a is ScopeAttribute && b is ScopeAttribute
}

/// At most one attribute entry stands under `key`.
pub open spec fn at_most_one_entry(list: Seq<Tree>, key: Seq<char>) -> bool {
    forall|i: int, j: int|
        0 <= i < list.len() && 0 <= j < list.len() && crate::otlp_common::entry_has_key(
            #[trigger] list[i],
            key,
        ) && crate::otlp_common::entry_has_key(#[trigger] list[j], key) ==> i == j
}

/// A moved attribute is found under its new selector with the value it had, of whatever sort
/// that was.
pub proof fn law_move_keeps_value(
    state: RecordTree,
    from: LogFieldSelector,
    to: LogFieldSelector,
)
    requires
        state.log_taken(from) is Some,
        to !is Simple,
        state.log_settable(to),
    ensures
        crate::otlp_common::attribute_in(
            state.log_moved(from, to).log_attributes(to),
            attribute_path(to),
        ) == crate::otlp_common::attribute_in(
            state.log_attributes(from),
            attribute_path(from).take(1),
        ),
{
    lemma_names_differ();
    let source = state.log_home(from)->0;
    let list = attribute_list(source)->0;
    let from_key = attribute_path(from)[0];
    let at = crate::otlp_common::entry_position(list, from_key);
    crate::otlp_common::lemma_entry_position(list, from_key);
    let entry = list[at];
    assert(state.log_taken(from) == Some(entry));
    let to_key = attribute_path(to)[0];
    let placed = entry.with_field("key"@, Tree::text(to_key));
    let target = state.log_left(from).log_home(to)->0;
    assert(target is Object);
    assert(state.log_moved(from, to).log_home(to) == Some(attribute_upserted(target, to_key, placed)));
    let kept = without_entries(ensured_list(target), to_key);
    lemma_without_entries(ensured_list(target), to_key);
    lemma_entry_pushed(kept, placed, to_key);
    assert(placed.field("value"@) == entry.field("value"@));
}

/// A moved attribute that was the only one under its key is gone from there, unless it was
/// moved back onto itself.
pub proof fn law_move_empties_source(
    state: RecordTree,
    from: LogFieldSelector,
    to: LogFieldSelector,
)
    requires
        state.log_taken(from) is Some,
        at_most_one_entry(attribute_list(state.log_home(from)->0)->0, attribute_path(from)[0]),
        same_home(from, to) && attribute_path(to).len() > 0 ==> attribute_path(to)[0]
            != attribute_path(from)[0],
    ensures
        !state.log_moved(from, to).log_holds(from),
{
    let source = state.log_home(from)->0;
    let list = attribute_list(source)->0;
    let key = attribute_path(from)[0];
    let at = crate::otlp_common::entry_position(list, key);
    crate::otlp_common::lemma_entry_position(list, key);
    let entry = list[at];
    let rest = list.remove(at);
    assert forall|i: int| 0 <= i < rest.len() implies !crate::otlp_common::entry_has_key(
        #[trigger] rest[i],
        key,
    ) by {
        let was = if i < at {
            i
        } else {
            i + 1
        };
        assert(rest[i] == list[was]);
        assert(crate::otlp_common::entry_has_key(list[at], key));
    }
    crate::otlp_common::lemma_first_position(rest, key, rest.len() as int);
    assert(state.log_left(from).log_home(from) == Some(with_attribute_list(source, rest)));
    if same_home(from, to) && attribute_path(to).len() > 0 {
        let to_key = attribute_path(to)[0];
        let placed = entry.with_field("key"@, Tree::text(to_key));
        lemma_other_entries_stay(rest, to_key, key);
        lemma_position_pushed(without_entries(rest, to_key), placed, key);
        if crate::otlp_common::entry_has_key(placed, key) {
            lemma_text_injective(to_key, key);
        }
        assert(attribute_list(with_attribute_list(source, rest)) == Some(rest));
        assert(state.log_moved(from, to).log_home(from) == Some(
            attribute_upserted(with_attribute_list(source, rest), to_key, placed),
        ));
    } else {
        assert(state.log_moved(from, to).log_home(from) == Some(with_attribute_list(source, rest)));
    }
}

} // verus!
