//! The calls into `vrl`: converting values, working at paths, reading and printing paths.

use crate::path::{PathSegment, Step};
use crate::value::{Float, ObjectMap, Opaque, Tree, Value};
use vrl::path::{parse_value_path, OwnedSegment, OwnedValuePath};
use vrl::value::Value as VrlValue;
use vstd::prelude::*;

verus! {

/// What a `vrl` value holds.
pub uninterp spec fn vrl_contents(value: VrlValue) -> Tree;

/// What a `vrl` value holds that may be missing.
pub open spec fn vrl_contents_of(value: Option<VrlValue>) -> Option<Tree> {
    match value {
        Some(value) => Some(vrl_contents(value)),
        None => None,
    }
}

/// A text is what some float of `vrl` prints as.
pub open spec fn prints_float(text: Seq<char>) -> bool {
    exists|value: VrlValue| #[trigger] vrl_contents(value) == Tree::Float(text)
}

/// `vrl::value::Value`'s variants: a value of this crate as the `vrl` value that holds the
/// same. A float's text was printed by `vrl`'s own number type, which reads it back; on another
/// text that reading would fail. A float or an opaque scalar inside an object or array meets
/// the same demands by the invariant of its type.
#[verifier::external_body]
pub(crate) fn to_vrl(value: Value) -> (r: VrlValue)
    requires
        value matches Value::Float(float) ==> prints_float(float@),
        value matches Value::Opaque(scalar) ==> vrl_contents(scalar@) == Tree::Opaque(scalar@),
    ensures
        vrl_contents(r) == value@,
{
    match value {
        Value::Bytes(bytes) => VrlValue::Bytes(bytes.into()),
        Value::Integer(integer) => VrlValue::Integer(integer),
        Value::Float(float) => VrlValue::Float(float.text.parse().unwrap()),
        Value::Boolean(boolean) => VrlValue::Boolean(boolean),
        Value::Opaque(scalar) => scalar.scalar,
        Value::Object(object) => VrlValue::Object(
            object.entries.into_iter().map(|(key, value)| (key.into(), to_vrl(value))).collect(),
        ),
        Value::Array(items) => VrlValue::Array(items.into_iter().map(to_vrl).collect()),
        Value::Null => VrlValue::Null,
    }
}

/// `vrl::value::Value`'s variants: a `vrl` value as the value of this crate that holds the
/// same. The fields of a `vrl` object come out of its `BTreeMap` in key order, each key once. A
/// scalar that is carried along unread is the `vrl` value itself.
#[verifier::external_body]
pub(crate) fn from_vrl(value: VrlValue) -> (r: Value)
    ensures
        r@ == vrl_contents(value),
        r matches Value::Opaque(scalar) ==> scalar@ == value,
{
    match value {
        VrlValue::Bytes(bytes) => Value::Bytes(bytes.to_vec()),
        VrlValue::Integer(integer) => Value::Integer(integer),
        VrlValue::Float(float) => Value::Float(Float { text: float.to_string() }),
        VrlValue::Boolean(boolean) => Value::Boolean(boolean),
        VrlValue::Object(fields) => Value::Object(ObjectMap {
            entries: fields.into_iter().map(|(key, value)| (key.into(), from_vrl(value))).collect(),
        }),
        VrlValue::Array(items) => Value::Array(items.into_iter().map(from_vrl).collect()),
        VrlValue::Null => Value::Null,
        scalar => Value::Opaque(Opaque { scalar }),
    }
}

/// `vrl::value::Value::insert`: puts `value` at `path`, making the collections on the way,
/// and returns what was there. An index too large for an allocation is left out, since
/// `insert` panics on it.
#[verifier::external_body]
pub(crate) fn vrl_insert(target: &mut VrlValue, path: &Vec<PathSegment>, value: VrlValue) -> (r:
    Option<VrlValue>)
    requires
        crate::path::indexes_in_reach(crate::path::steps(path@)),
    ensures
        vrl_contents(*final(target)) == crate::path::put_at(
            Some(vrl_contents(*old(target))),
            crate::path::steps(path@),
            vrl_contents(value),
        ),
        vrl_contents_of(r) == crate::path::value_at(
            vrl_contents(*old(target)),
            crate::path::steps(path@),
        ),
{
    let segments: Vec<OwnedSegment> = path.iter().map(|segment| match segment {
        PathSegment::Field(field) => OwnedSegment::field(field),
        PathSegment::Index(index) => OwnedSegment::index(*index),
    }).collect();
    target.insert(&OwnedValuePath::from(segments), value)
}

/// `vrl::value::Value::remove` without pruning: takes the value at `path` out and returns it.
/// Collections that become empty stay.
#[verifier::external_body]
pub(crate) fn vrl_remove(target: &mut VrlValue, path: &Vec<PathSegment>) -> (r: Option<VrlValue>)
    ensures
        vrl_contents(*final(target)) == crate::path::removed_at(
            vrl_contents(*old(target)),
            crate::path::steps(path@),
        ),
        vrl_contents_of(r) == crate::path::value_at(
            vrl_contents(*old(target)),
            crate::path::steps(path@),
        ),
{
    let segments: Vec<OwnedSegment> = path.iter().map(|segment| match segment {
        PathSegment::Field(field) => OwnedSegment::field(field),
        PathSegment::Index(index) => OwnedSegment::index(*index),
    }).collect();
    target.remove(&OwnedValuePath::from(segments), false)
}

/// The steps that `vrl` reads in the text of a path; nothing where the text is no path.
pub uninterp spec fn parsed_path(text: Seq<char>) -> Option<Seq<Step>>;

/// A field name that needs no quotes in the text of a path.
pub open spec fn plain_field(field: Seq<char>) -> bool {
    &&& field.len() > 0
    &&& forall|i: int|
        0 <= i < field.len() ==> {
            ||| 'A' <= #[trigger] field[i] <= 'Z'
            ||| 'a' <= field[i] <= 'z'
            ||| '0' <= field[i] <= '9'
            ||| field[i] == '_'
            ||| field[i] == '@'
        }
}

/// Field names that need no quotes in the text of a path, one at least.
pub open spec fn plain_fields(fields: Seq<Seq<char>>) -> bool {
    &&& fields.len() > 0
    &&& forall|i: int| 0 <= i < fields.len() ==> plain_field(#[trigger] fields[i])
}

/// Fields as the steps of a path.
pub open spec fn field_steps(fields: Seq<Seq<char>>) -> Seq<Step> {
    fields.map_values(|field: Seq<char>| Step::Field(field))
}

/// `vrl::path::parse_value_path`: reads the text of a path. Plain field names with dots
/// between them are read as those fields. A text with an index that fits no `isize` is left
/// out, since the parser's arithmetic overflows on it.
#[verifier::external_body]
pub(crate) fn vrl_parse(text: &str) -> (r: Option<Vec<PathSegment>>)
    requires
        crate::path::index_digits_fit(text@, false),
    ensures
        match r {
            Some(segments) => parsed_path(text@) == Some(crate::path::steps(segments@)),
            None => parsed_path(text@) is None,
        },
        forall|fields: Seq<Seq<char>>|
            plain_fields(fields) && #[trigger] crate::text::joined(fields, seq!['.']) == text@
                ==> r is Some && crate::path::steps(r->0@) == field_steps(fields),
{
    let path = parse_value_path(text).ok()?;
    let segments = path.segments.into_iter().map(|segment| match segment {
        OwnedSegment::Field(field) => PathSegment::Field(field.into()),
        OwnedSegment::Index(index) => PathSegment::Index(index),
    });
    Some(segments.collect())
}

/// `String::from(&OwnedValuePath)`: the text of a path. Fields have dots between them, and
/// those that are not plain stand in quotes; indexes stand in brackets.
#[verifier::external_body]
pub(crate) fn vrl_path_text(path: &Vec<PathSegment>) -> (r: String)
    ensures
        r@ == crate::path::rendered(crate::path::steps(path@)),
{
    let segments: Vec<OwnedSegment> = path.iter().map(|segment| match segment {
        PathSegment::Field(field) => OwnedSegment::field(field),
        PathSegment::Index(index) => OwnedSegment::index(*index),
    }).collect();
    String::from(&OwnedValuePath::from(segments))
}

/// The text that `vrl` shows for bytes that are not valid UTF-8.
pub uninterp spec fn lossy_text(bytes: Seq<u8>) -> Seq<char>;

/// The text of bytes: what they encode, or a stand-in where they are not valid UTF-8.
pub open spec fn shown_text(bytes: Seq<u8>) -> Seq<char> {
    if vstd::utf8::valid_utf8(bytes) {
        vstd::utf8::decode_utf8(bytes)
    } else {
        lossy_text(bytes)
    }
}

/// A text's bytes show that text.
pub proof fn lemma_shown_text(text: Seq<char>)
    ensures
        shown_text(vstd::utf8::encode_utf8(text)) == text,
{
    vstd::utf8::encode_utf8_valid_utf8(text);
    vstd::utf8::encode_utf8_decode_utf8(text);
}

/// `vrl::value::Value::as_str` on bytes: the text they encode, or, where they are not valid
/// UTF-8, one with replacement characters in place of the parts that are not.
#[verifier::external_body]
pub(crate) fn vrl_text(bytes: &Vec<u8>) -> (r: String)
    ensures
        vstd::utf8::valid_utf8(bytes@) ==> r@ == vstd::utf8::decode_utf8(bytes@),
        !vstd::utf8::valid_utf8(bytes@) ==> r@ == lossy_text(bytes@),
{
    VrlValue::Bytes(bytes.clone().into()).as_str().unwrap().into_owned()
}

} // verus!
