//! What the adapters for OTLP-shaped events share: reading `AnyValue`s and attribute lists,
//! and taking envelope entries apart.
//!
//! The events are the JSON-shaped trees that an `opentelemetry` source produces: camel-case
//! keys, values wrapped as `AnyValue`, attributes as arrays of `{ key, value }` entries.

use crate::text::same_bytes;
use crate::value::{Tree, Value};
use vstd::prelude::*;

verus! {

broadcast use crate::value::lemma_array_view;

/// A log record, metric or span with what stands around it in its envelope.
#[verifier::ext_equal]
pub struct RecordTree {
    pub record: Tree,
    pub resource: Option<Tree>,
    pub scope: Option<Tree>,
    pub resource_schema_url: Option<Tree>,
    pub scope_schema_url: Option<Tree>,
}

/// The text of a plain string, where it is not empty.
pub open spec fn non_empty_text(value: Option<Tree>) -> Option<Seq<char>> {
    match value {
        Some(tree) => match tree.as_text() {
            Some(text) => if text.len() > 0 {
                Some(text)
            } else {
                None
            },
            None => None,
        },
        None => None,
    }
}

/// The field `key` of a value that may be missing.
pub open spec fn field_of(value: Option<Tree>, key: Seq<char>) -> Option<Tree> {
    match value {
        Some(tree) => tree.field(key),
        None => None,
    }
}

/// The items of a value that may be missing.
pub open spec fn items_of(value: Option<Tree>) -> Option<Seq<Tree>> {
    match value {
        Some(tree) => tree.items(),
        None => None,
    }
}

/// The text that an `AnyValue` is matched by: that of its `stringValue`, where it is not empty.
pub open spec fn any_value_text(value: Option<Tree>) -> Option<Seq<char>> {
    non_empty_text(field_of(value, "stringValue"@))
}

/// An `AnyValue` carries a value of some sort. An empty string is none.
pub open spec fn any_value_is_present(value: Option<Tree>) -> bool {
    ||| any_value_text(value) is Some
    ||| field_of(value, "boolValue"@) is Some
    ||| field_of(value, "intValue"@) is Some
    ||| field_of(value, "doubleValue"@) is Some
    ||| field_of(value, "arrayValue"@) is Some
    ||| field_of(value, "kvlistValue"@) is Some
    ||| field_of(value, "bytesValue"@) is Some
}

/// An attribute entry stands under `key`.
pub open spec fn entry_has_key(entry: Tree, key: Seq<char>) -> bool {
    entry.field("key"@) == Some(Tree::text(key))
}

/// Where the first entry under `key` stands; the length of the list where there is none.
pub open spec fn entry_position(attributes: Seq<Tree>, key: Seq<char>) -> int
    decreases attributes.len(),
{
    if attributes.len() == 0 || entry_has_key(attributes[0], key) {
        0
    } else {
        1 + entry_position(attributes.drop_first(), key)
    }
}

/// The value of the first entry under `key`.
pub open spec fn entry_value(attributes: Seq<Tree>, key: Seq<char>) -> Option<Tree> {
    let at = entry_position(attributes, key);
    if at < attributes.len() {
        attributes[at].field("value"@)
    } else {
        None
    }
}

/// The entries nested in an `AnyValue`.
pub open spec fn nested_entries(value: Option<Tree>) -> Option<Seq<Tree>> {
    items_of(field_of(field_of(value, "kvlistValue"@), "values"@))
}

/// The `AnyValue` that `path` leads to: through the first entry under each segment, and
/// through the nested entries of all but the last.
pub open spec fn attribute_at(attributes: Seq<Tree>, path: Seq<Seq<char>>) -> Option<Tree>
    decreases path.len(),
{
    if path.len() == 0 {
        None
    } else if path.len() == 1 {
        entry_value(attributes, path[0])
    } else {
        match nested_entries(entry_value(attributes, path[0])) {
            Some(nested) => attribute_at(nested, path.drop_first()),
            None => None,
        }
    }
}

/// The `AnyValue` that `path` leads to in an attribute list that may be missing.
pub open spec fn attribute_in(attributes: Option<Tree>, path: Seq<Seq<char>>) -> Option<Tree> {
    match items_of(attributes) {
        Some(entries) => attribute_at(entries, path),
        None => None,
    }
}

/// Where an entry under `key` stands with none before it, there the first one stands.
pub proof fn lemma_entry_position(attributes: Seq<Tree>, key: Seq<char>)
    ensures
        0 <= entry_position(attributes, key) <= attributes.len(),
        entry_position(attributes, key) < attributes.len() ==> entry_has_key(
            attributes[entry_position(attributes, key)],
            key,
        ),
        forall|i: int|
            0 <= i < entry_position(attributes, key) ==> !entry_has_key(
                #[trigger] attributes[i],
                key,
            ),
    decreases attributes.len(),
{
    if attributes.len() > 0 && !entry_has_key(attributes[0], key) {
        let rest = attributes.drop_first();
        lemma_entry_position(rest, key);
        assert forall|i: int| 0 <= i < entry_position(attributes, key) implies !entry_has_key(
            #[trigger] attributes[i],
            key,
        ) by {
            if i > 0 {
                assert(rest[i - 1] == attributes[i]);
            }
        }
    }
}

/// A position before which no entry stands under `key`, and at which one does or the list
/// ends, is the first one's.
pub proof fn lemma_first_position(attributes: Seq<Tree>, key: Seq<char>, at: int)
    requires
        0 <= at <= attributes.len(),
        at < attributes.len() ==> entry_has_key(attributes[at], key),
        forall|i: int| 0 <= i < at ==> !entry_has_key(#[trigger] attributes[i], key),
    ensures
        entry_position(attributes, key) == at,
{
    lemma_entry_position(attributes, key);
    let found = entry_position(attributes, key);
    if found < at {
        assert(entry_has_key(attributes[found], key));
    } else if at < found {
        assert(!entry_has_key(attributes[at], key));
    }
}

/// The field `key` of a value that may be missing.
pub fn field_in<'a>(value: Option<&'a Value>, key: &str) -> (r: Option<&'a Value>)
    ensures
        crate::value::tree_at(r) == field_of(
            crate::value::tree_at(value),
            key@,
        ),
{
    match value {
        Some(value) => value.get(key),
        None => None,
    }
}

/// The non-empty text of a plain string value.
pub fn non_empty(value: Option<&Value>) -> (r: Option<String>)
    ensures
        crate::value::text_of(r) == non_empty_text(crate::value::tree_at(value)),
{
    match value {
        Some(value) => match value.as_str() {
            Some(text) => if text.as_str().is_empty() {
                None
            } else {
                Some(text)
            },
            None => None,
        },
        None => None,
    }
}

/// The text that an `AnyValue` is matched by.
///
/// Only a non-empty `stringValue` gives one, so string matchers and redaction never work on
/// values of another sort.
pub fn any_value_string(value: Option<&Value>) -> (r: Option<String>)
    ensures
        crate::value::text_of(r) == any_value_text(crate::value::tree_at(value)),
{
    match value {
        Some(value) => non_empty(value.get("stringValue")),
        None => None,
    }
}

/// Whether an `AnyValue` carries a value of some sort. An empty string is none.
pub fn any_value_present(value: Option<&Value>) -> (r: bool)
    ensures
        r == any_value_is_present(crate::value::tree_at(value)),
{
    match value {
        Some(value) => {
            non_empty(value.get("stringValue")).is_some() || value.get("boolValue").is_some()
                || value.get("intValue").is_some() || value.get("doubleValue").is_some() || value.get("arrayValue").is_some()
                || value.get("kvlistValue").is_some() || value.get("bytesValue").is_some()
        },
        None => false,
    }
}

/// Whether an attribute entry stands under `key`.
pub fn attribute_key_eq(item: &Value, key: &str) -> (r: bool)
    ensures
        r == entry_has_key(item@, key@),
{
    match item.get("key") {
        Some(Value::Bytes(bytes)) => same_bytes(bytes.as_slice(), key.as_bytes()),
        _ => false,
    }
}

/// Where the first entry under `key` stands; the length of the list where there is none.
pub fn attribute_index(attributes: &Vec<Value>, key: &str) -> (r: usize)
    ensures
        r == entry_position(crate::value::trees(attributes@), key@),
{
    let mut at: usize = 0;
    let ghost list = crate::value::trees(attributes@);
    while at < attributes.len()
        invariant
            at <= attributes@.len(),
            list == crate::value::trees(attributes@),
            forall|i: int| 0 <= i < at ==> !entry_has_key(#[trigger] list[i], key@),
        decreases attributes@.len() - at,
    {
        if attribute_key_eq(&attributes[at], key) {
            proof {
                lemma_first_position(list, key@, at as int);
            }
            return at;
        }
        at = at + 1;
    }
    proof {
        lemma_first_position(list, key@, at as int);
    }
    at
}

/// The entries nested in an `AnyValue`.
pub fn nested_values(value: Option<&Value>) -> (r: Option<&Vec<Value>>)
    ensures
        match r {
            Some(nested) => nested_entries(crate::value::tree_at(value)) == Some(
                crate::value::trees(nested@),
            ),
            None => nested_entries(crate::value::tree_at(value)) is None,
        },
{
    let list = value?.get("kvlistValue")?;
    list.get("values")?.as_array()
}

/// The `AnyValue` that a path leads to in an attribute list.
fn attribute_in_kvlist<'a>(attributes: &'a Vec<Value>, path: &[String]) -> (r: Option<&'a Value>)
    ensures
        crate::value::tree_at(r) == attribute_at(
            crate::value::trees(attributes@),
            crate::text::texts(path@),
        ),
{
    let ghost keys = crate::text::texts(path@);
    let mut list: &'a Vec<Value> = attributes;
    let mut step: usize = 0;
    if path.len() == 0 {
        return None;
    }
    assert(keys.skip(0) =~= keys);
    loop
        invariant
            step < path@.len(),
            keys == crate::text::texts(path@),
            attribute_at(crate::value::trees(attributes@), keys) == attribute_at(
                crate::value::trees(list@),
                keys.skip(step as int),
            ),
        decreases path@.len() - step,
    {
        assert(keys.skip(step as int).drop_first() =~= keys.skip(step + 1));
        let at = attribute_index(list, path[step].as_str());
        let value: Option<&'a Value> = if at < list.len() {
            list[at].get("value")
        } else {
            None
        };
        if step + 1 == path.len() {
            return value;
        }
        match nested_values(value) {
            Some(nested) => {
                list = nested;
            },
            None => {
                return None;
            },
        }
        step = step + 1;
    }
}

/// The text that the attribute at `path` is matched by, walking nested entries.
pub fn find_attribute_path(attributes: Option<&Value>, path: &[String]) -> (r: Option<String>)
    ensures
        crate::value::text_of(r) == any_value_text(
            attribute_in(crate::value::tree_at(attributes), crate::text::texts(path@)),
        ),
{
    let list = attributes?.as_array()?;
    any_value_string(attribute_in_kvlist(list, path))
}

/// Whether the attribute at `path` carries a value, walking nested entries.
pub fn attribute_exists_path(attributes: Option<&Value>, path: &[String]) -> (r: bool)
    ensures
        r == any_value_is_present(
            attribute_in(crate::value::tree_at(attributes), crate::text::texts(path@)),
        ),
{
    match attributes {
        Some(attributes) => match attributes.as_array() {
            Some(list) => any_value_present(attribute_in_kvlist(list, path)),
            None => false,
        },
        None => false,
    }
}

/// Takes the child under `key` out of an envelope entry.
pub fn lift_child(entry: &mut Value, key: &str) -> (r: Option<Value>)
    ensures
        crate::value::tree_of(r) == old(entry)@.field(key@),
        final(entry)@ == old(entry)@.without_field(key@),
{
    entry.take_field(key)
}

/// Puts a child back under `key` in an envelope entry.
pub fn reattach_child(entry: &mut Value, key: &str, child: Value)
    ensures
        final(entry)@ == old(entry)@.with_field(key@, child@),
{
    entry.set_field(key, child);
}

/// Whether an entry has no items under `key`: an empty array, no array, or nothing at all.
pub fn array_field_is_empty(entry: &Value, key: &str) -> (r: bool)
    ensures
        r == match items_of(entry@.field(key@)) {
            Some(items) => items.len() == 0,
            None => true,
        },
{
    match entry.get(key) {
        Some(field) => match field.as_array() {
            Some(items) => items.len() == 0,
            None => true,
        },
        None => true,
    }
}

/// Lifting a child out and putting it back restores the entry.
pub proof fn law_lift_then_reattach(entry: Tree, key: Seq<char>)
    requires
        entry.field(key) is Some,
    ensures
        entry.without_field(key).field(key) is None,
        entry.without_field(key).with_field(key, entry.field(key)->0) == entry,
{
    match entry {
        Tree::Object(fields) => {
            assert(fields.remove(key).insert(key, fields[key]) =~= fields);
        },
        _ => {},
    }
}

/// Lifting a child that is not there changes nothing.
pub proof fn law_lift_absent(entry: Tree, key: Seq<char>)
    ensures
        entry.field(key) is None ==> entry.without_field(key) == entry,
{
    match entry {
        Tree::Object(fields) => {
            if !fields.dom().contains(key) {
                assert(fields.remove(key) =~= fields);
            }
        },
        _ => {},
    }
}

/// What matches as text is present.
pub proof fn law_matched_text_is_present(value: Option<Tree>)
    ensures
        any_value_text(value) is Some ==> any_value_is_present(value),
{
}

/// The list under a key is there exactly if an object has an array under it.
pub proof fn law_list_under_key(value: Tree, key: Seq<char>, list: Seq<Tree>)
    ensures
        items_of(value.field(key)) == Some(list) <==> (match value {
            Tree::Object(fields) => fields.dom().contains(key) && fields[key] == Tree::Array(list),
            _ => false,
        }),
        items_of(field_of(Some(value), key)) == items_of(value.field(key)),
        field_of(None, key) is None,
        items_of(None) is None,
{
}

} // verus!
