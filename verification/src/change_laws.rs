//! What setting, deleting and moving a field makes of the objects of a record.

use crate::field_mapping::FieldMapping;
use crate::otlp_common::RecordTree;
use crate::path::Step;
use crate::selector::{LogField, LogFieldSelector, TraceFieldSelector};
use crate::value::Tree;
use vstd::prelude::*;

verus! {

/// An object with one field put in; what is no object stays.
pub open spec fn put(value: Tree, key: Seq<char>, field: Tree) -> Tree {
    match value {
        Tree::Object(fields) => Tree::Object(fields.insert(key, field)),
        _ => value,
    }
}

/// An object with one field taken out; what is no object stays.
pub open spec fn taken_out(value: Tree, key: Seq<char>) -> Tree {
    match value {
        Tree::Object(fields) => Tree::Object(fields.remove(key)),
        _ => value,
    }
}

/// A plain string.
pub open spec fn string(text: Seq<char>) -> Tree {
    Tree::Bytes(vstd::utf8::encode_utf8(text))
}

/// A string wrapped as an `AnyValue`.
pub open spec fn wrapped(text: Seq<char>) -> Tree {
    Tree::Object(Map::<Seq<char>, Tree>::empty().insert("stringValue"@, string(text)))
}

/// An attribute entry.
pub open spec fn entry(key: Seq<char>, value: Tree) -> Tree {
    Tree::Object(
        Map::<Seq<char>, Tree>::empty().insert("key"@, string(key)).insert("value"@, value),
    )
}

/// Setting a simple field of a log record puts the text into the record under the field's name,
/// the body wrapped, and touches nothing else. The other simple fields cannot be set.
pub proof fn law_log_set_simple(state: RecordTree, text: Seq<char>)
    ensures
        state.log_with(LogFieldSelector::Simple(LogField::Body), text) == (RecordTree {
            record: put(state.record, "body"@, wrapped(text)),
            ..state
        }),
        state.log_with(LogFieldSelector::Simple(LogField::SeverityText), text) == (RecordTree {
            record: put(state.record, "severityText"@, string(text)),
            ..state
        }),
        state.log_with(LogFieldSelector::Simple(LogField::TraceId), text) == (RecordTree {
            record: put(state.record, "traceId"@, string(text)),
            ..state
        }),
        state.log_with(LogFieldSelector::Simple(LogField::SpanId), text) == (RecordTree {
            record: put(state.record, "spanId"@, string(text)),
            ..state
        }),
        state.log_with(LogFieldSelector::Simple(LogField::EventName), text) == (RecordTree {
            record: put(state.record, "eventName"@, string(text)),
            ..state
        }),
        state.log_with(LogFieldSelector::Simple(LogField::ResourceSchemaUrl), text) == state,
        state.log_with(LogFieldSelector::Simple(LogField::ScopeSchemaUrl), text) == state,
        state.log_with(LogFieldSelector::Simple(LogField::Unspecified), text) == state,
{
}

/// Deleting a simple field of a log record takes it out of the record and touches nothing else.
/// There was something to delete exactly if the record had the field.
pub proof fn law_log_delete_simple(state: RecordTree)
    ensures
        state.log_without(LogFieldSelector::Simple(LogField::Body)) == (RecordTree {
            record: taken_out(state.record, "body"@),
            ..state
        }),
        state.log_without(LogFieldSelector::Simple(LogField::SeverityText)) == (RecordTree {
            record: taken_out(state.record, "severityText"@),
            ..state
        }),
        state.log_without(LogFieldSelector::Simple(LogField::TraceId)) == (RecordTree {
            record: taken_out(state.record, "traceId"@),
            ..state
        }),
        state.log_without(LogFieldSelector::Simple(LogField::SpanId)) == (RecordTree {
            record: taken_out(state.record, "spanId"@),
            ..state
        }),
        state.log_without(LogFieldSelector::Simple(LogField::EventName)) == (RecordTree {
            record: taken_out(state.record, "eventName"@),
            ..state
        }),
        state.log_holds(LogFieldSelector::Simple(LogField::Body))
            <==> crate::matching_laws::has_key(state.record, "body"@),
        state.log_holds(LogFieldSelector::Simple(LogField::SeverityText))
            <==> crate::matching_laws::has_key(state.record, "severityText"@),
        state.log_holds(LogFieldSelector::Simple(LogField::TraceId))
            <==> crate::matching_laws::has_key(state.record, "traceId"@),
        state.log_holds(LogFieldSelector::Simple(LogField::SpanId))
            <==> crate::matching_laws::has_key(state.record, "spanId"@),
        state.log_holds(LogFieldSelector::Simple(LogField::EventName))
            <==> crate::matching_laws::has_key(state.record, "eventName"@),
{
}

/// The attribute list of a value: the one it has, or an empty one.
pub open spec fn list_of(value: Tree) -> Seq<Tree> {
    if crate::matching_laws::has_key(value, "attributes"@) && crate::matching_laws::under(
        value,
        "attributes"@,
    ) is Array {
        crate::matching_laws::under(value, "attributes"@)->Array_0
    } else {
        Seq::empty()
    }
}

/// Setting an attribute replaces the value of the first entry under its key, or puts a new entry
/// last, and touches no other entry and no other field. Of a path only the first segment counts.
pub proof fn law_attribute_set(parent: Tree, path: Seq<Seq<char>>, text: Seq<char>, at: int)
    ensures
        path.len() > 0 && crate::matching_laws::first_named(list_of(parent), path[0], at)
            ==> crate::otlp_log_adapter::attribute_set(parent, path, text) == put(
            parent,
            "attributes"@,
            Tree::Array(
                list_of(parent).update(at, put(list_of(parent)[at], "value"@, wrapped(text))),
            ),
        ),
        path.len() > 0 && crate::matching_laws::none_named(list_of(parent), path[0])
            ==> crate::otlp_log_adapter::attribute_set(parent, path, text) == put(
            parent,
            "attributes"@,
            Tree::Array(list_of(parent).push(entry(path[0], wrapped(text)))),
        ),
        path.len() == 0 ==> crate::otlp_log_adapter::attribute_set(parent, path, text) == put(
            parent,
            "attributes"@,
            Tree::Array(list_of(parent)),
        ),
{
    if path.len() > 0 {
        crate::matching_laws::lemma_position_of(list_of(parent), path[0]);
    }
    assert(list_of(parent) =~= crate::otlp_log_adapter::ensured_list(parent));
}

/// Deleting an attribute removes every entry under its key, leaves the other entries in their
/// order, and touches no other field. There was something to delete exactly if there was such
/// an entry.
pub proof fn law_attribute_removed(parent: Tree, path: Seq<Seq<char>>, at: int)
    ensures
        path.len() > 0 && crate::matching_laws::has_list(parent, "attributes"@, list_of(parent))
            ==> crate::otlp_log_adapter::attribute_removed(parent, path) == put(
            parent,
            "attributes"@,
            Tree::Array(
                list_of(parent).filter(
                    |item: Tree| !crate::matching_laws::named(item, path[0]),
                ),
            ),
        ),
        path.len() == 0 || crate::matching_laws::lacks_list(parent, "attributes"@)
            ==> crate::otlp_log_adapter::attribute_removed(parent, path) == parent,
        path.len() > 0 && crate::matching_laws::first_named(list_of(parent), path[0], at)
            ==> crate::otlp_log_adapter::attribute_found(parent, path),
        path.len() == 0 || crate::matching_laws::none_named(list_of(parent), path[0])
            ==> !crate::otlp_log_adapter::attribute_found(parent, path),
{
    if path.len() > 0 {
        crate::matching_laws::lemma_position_of(list_of(parent), path[0]);
        let ours = |item: Tree| !crate::matching_laws::named(item, path[0]);
        let theirs = |item: Tree| !crate::otlp_common::entry_has_key(item, path[0]);
        assert(ours =~= theirs) by {
            assert forall|item: Tree| #[trigger] ours(item) == theirs(item) by {}
        }
    }
}

/// Taking an attribute for a move takes the first entry under its key and no other.
pub proof fn law_attribute_taken(parent: Tree, path: Seq<Seq<char>>, at: int)
    ensures
        path.len() > 0 && crate::matching_laws::first_named(list_of(parent), path[0], at) ==> {
            &&& crate::otlp_log_adapter::attribute_taken(parent, path) == Some(list_of(parent)[at])
            &&& crate::otlp_log_adapter::attribute_left(parent, path) == put(
                parent,
                "attributes"@,
                Tree::Array(list_of(parent).remove(at)),
            )
        },
        path.len() == 0 || crate::matching_laws::none_named(list_of(parent), path[0]) ==> {
            &&& crate::otlp_log_adapter::attribute_taken(parent, path) is None
            &&& crate::otlp_log_adapter::attribute_left(parent, path) == parent
        },
{
    if path.len() > 0 {
        crate::matching_laws::lemma_position_of(list_of(parent), path[0]);
    }
}

/// An entry that is moved in comes last, in place of every entry under its key. The other
/// entries stay in their order, and no other field is touched.
pub proof fn law_attribute_upserted(parent: Tree, key: Seq<char>, item: Tree)
    ensures
        crate::otlp_log_adapter::attribute_upserted(parent, key, item) == put(
            parent,
            "attributes"@,
            Tree::Array(
                list_of(parent).filter(
                    |other: Tree| !crate::matching_laws::named(other, key),
                ).push(item),
            ),
        ),
{
    let ours = |other: Tree| !crate::matching_laws::named(other, key);
    let theirs = |other: Tree| !crate::otlp_common::entry_has_key(other, key);
    assert(ours =~= theirs) by {
        assert forall|other: Tree| #[trigger] ours(other) == theirs(other) by {}
    }
    assert(list_of(parent) =~= crate::otlp_log_adapter::ensured_list(parent));
}

/// A change of a value that may be missing.
pub open spec fn changed(value: Option<Tree>, change: spec_fn(Tree) -> Tree) -> Option<Tree> {
    match value {
        Some(value) => Some(change(value)),
        None => None,
    }
}

/// Setting or deleting an attribute works on the record, the resource or the scope, whichever
/// the selector names, and on nothing else. Without that one there is nothing to delete.
pub proof fn law_log_attributes_have_a_home(
    state: RecordTree,
    path: Vec<String>,
    text: Seq<char>,
)
    ensures
        ({
            let keys = path@.map_values(|segment: String| segment@);
            let set = |parent: Tree| crate::otlp_log_adapter::attribute_set(parent, keys, text);
            let removed = |parent: Tree| crate::otlp_log_adapter::attribute_removed(parent, keys);
            &&& state.log_with(LogFieldSelector::LogAttribute(path), text) == (RecordTree {
                record: set(state.record),
                ..state
            })
            &&& state.log_with(LogFieldSelector::ResourceAttribute(path), text) == (RecordTree {
                resource: changed(state.resource, set),
                ..state
            })
            &&& state.log_with(LogFieldSelector::ScopeAttribute(path), text) == (RecordTree {
                scope: changed(state.scope, set),
                ..state
            })
            &&& state.log_without(LogFieldSelector::LogAttribute(path)) == (RecordTree {
                record: removed(state.record),
                ..state
            })
            &&& state.log_without(LogFieldSelector::ResourceAttribute(path)) == (RecordTree {
                resource: changed(state.resource, removed),
                ..state
            })
            &&& state.log_without(LogFieldSelector::ScopeAttribute(path)) == (RecordTree {
                scope: changed(state.scope, removed),
                ..state
            })
            &&& state.log_holds(LogFieldSelector::LogAttribute(path))
                == crate::otlp_log_adapter::attribute_found(state.record, keys)
            &&& state.log_holds(LogFieldSelector::ResourceAttribute(path)) == (state.resource
                is Some && crate::otlp_log_adapter::attribute_found(state.resource->0, keys))
            &&& state.log_holds(LogFieldSelector::ScopeAttribute(path)) == (state.scope is Some
                && crate::otlp_log_adapter::attribute_found(state.scope->0, keys))
        }),
{
}

/// The home of a selector's attributes replaced.
pub open spec fn rehomed(state: RecordTree, selector: LogFieldSelector, home: Tree) -> RecordTree {
    match selector {
        LogFieldSelector::LogAttribute(_) => RecordTree { record: home, ..state },
        LogFieldSelector::ResourceAttribute(_) => RecordTree { resource: Some(home), ..state },
        LogFieldSelector::ScopeAttribute(_) => RecordTree { scope: Some(home), ..state },
        LogFieldSelector::Simple(_) => state,
    }
}

/// The home of a selector's attributes.
pub open spec fn home(state: RecordTree, selector: LogFieldSelector) -> Option<Tree> {
    match selector {
        LogFieldSelector::LogAttribute(_) => Some(state.record),
        LogFieldSelector::ResourceAttribute(_) => state.resource,
        LogFieldSelector::ScopeAttribute(_) => state.scope,
        LogFieldSelector::Simple(_) => None,
    }
}

/// The segments of an attribute selector.
pub open spec fn segments(selector: LogFieldSelector) -> Seq<Seq<char>> {
    match selector {
        LogFieldSelector::LogAttribute(path)
        | LogFieldSelector::ResourceAttribute(path)
        | LogFieldSelector::ScopeAttribute(path) => path@.map_values(|segment: String| segment@),
        LogFieldSelector::Simple(_) => Seq::empty(),
    }
}

/// Moving an attribute takes the first entry under its key out of the list it stands in, and
/// puts it, under the new key and otherwise as it was, last into the target's list, in place of
/// what stood under that key. Nothing else changes. An entry that has no place to go is gone.
/// Without an entry to move, nothing changes.
pub proof fn law_log_move(
    state: RecordTree,
    from: LogFieldSelector,
    to: LogFieldSelector,
    at: int,
)
    ensures
        home(state, from) is Some && segments(from).len() > 0 && crate::matching_laws::first_named(
            list_of(home(state, from)->0),
            segments(from)[0],
            at,
        ) ==> ({
            let source = home(state, from)->0;
            let item = list_of(source)[at];
            let left = rehomed(
                state,
                from,
                put(source, "attributes"@, Tree::Array(list_of(source).remove(at))),
            );
            state.log_moved(from, to) == if home(left, to) is Some && segments(to).len() > 0 {
                let target = home(left, to)->0;
                let key = segments(to)[0];
                rehomed(
                    left,
                    to,
                    put(
                        target,
                        "attributes"@,
                        Tree::Array(
                            list_of(target).filter(
                                |other: Tree| !crate::matching_laws::named(other, key),
                            ).push(put(item, "key"@, string(key))),
                        ),
                    ),
                )
            } else {
                left
            }
        }),
        home(state, from) is None || segments(from).len() == 0 || crate::matching_laws::none_named(
            list_of(home(state, from)->0),
            segments(from)[0],
        ) ==> state.log_moved(from, to) == state,
{
    if home(state, from) is Some {
        let source = home(state, from)->0;
        law_attribute_taken(source, segments(from), at);
        if segments(from).len() > 0 && crate::matching_laws::first_named(
            list_of(source),
            segments(from)[0],
            at,
        ) {
            let item = list_of(source)[at];
            let left = rehomed(
                state,
                from,
                put(source, "attributes"@, Tree::Array(list_of(source).remove(at))),
            );
            assert(state.log_taken(from) == Some(item));
            assert(state.log_left(from) == left);
            if home(left, to) is Some && segments(to).len() > 0 {
                law_attribute_upserted(
                    home(left, to)->0,
                    segments(to)[0],
                    put(item, "key"@, string(segments(to)[0])),
                );
            }
        }
    }
}

/// The key that dotted segments make: nothing for none, and each segment after the first behind
/// a dot.
pub proof fn law_dotted(path: Seq<Seq<char>>, segment: Seq<char>)
    ensures
        crate::otlp_adapter::dotted(Seq::empty()) == Seq::<char>::empty(),
        crate::otlp_adapter::dotted(seq![segment]) == segment,
        path.len() > 0 ==> crate::otlp_adapter::dotted(path.push(segment))
            == crate::otlp_adapter::dotted(path) + seq!['.'] + segment,
{
    assert(path.push(segment).drop_last() =~= path);
}

/// The text of a scalar: a string as it reads, an integer in decimal, a float as it prints, a
/// truth value by its name.
pub open spec fn scalar(value: Tree, text: Seq<char>) -> bool {
    match value {
        Tree::Integer(integer) => text == crate::text::decimal(integer as int),
        Tree::Float(printed) => text == printed,
        Tree::Boolean(truth) => text == if truth {
            "true"@
        } else {
            "false"@
        },
        _ => crate::matching_laws::reads_as(value, text),
    }
}

/// The sorts of an `AnyValue` that show as text with dotted keys, in the order they are looked
/// for.
pub open spec fn wrapped_scalar(value: Tree, text: Seq<char>) -> bool {
    let string = crate::matching_laws::has_key(value, "stringValue"@)
        && crate::matching_laws::under(value, "stringValue"@) is Bytes;
    let integer = crate::matching_laws::has_key(value, "intValue"@) && crate::matching_laws::under(
        value,
        "intValue"@,
    ) is Integer;
    let truth = crate::matching_laws::has_key(value, "boolValue"@) && crate::matching_laws::under(
        value,
        "boolValue"@,
    ) is Boolean;
    let float = crate::matching_laws::has_key(value, "doubleValue"@)
        && crate::matching_laws::under(value, "doubleValue"@) is Float;
    if string {
        scalar(crate::matching_laws::under(value, "stringValue"@), text)
    } else if integer {
        scalar(crate::matching_laws::under(value, "intValue"@), text)
    } else if truth {
        scalar(crate::matching_laws::under(value, "boolValue"@), text)
    } else {
        float && scalar(crate::matching_laws::under(value, "doubleValue"@), text)
    }
}

/// With dotted keys, the simple fields of a log record are matched by the scalars that stand in
/// it under their names, and are present if anything stands there.
pub proof fn law_record_fields_are_matched(state: RecordTree, text: Seq<char>)
    ensures
        crate::otlp_adapter::record_text(state, LogFieldSelector::Simple(LogField::Body)) == Some(
            text,
        ) <==> crate::matching_laws::has_key(state.record, "body"@) && wrapped_scalar(
            crate::matching_laws::under(state.record, "body"@),
            text,
        ),
        crate::otlp_adapter::record_text(state, LogFieldSelector::Simple(LogField::SeverityText))
            == Some(text) <==> crate::matching_laws::has_key(state.record, "severityText"@)
            && scalar(crate::matching_laws::under(state.record, "severityText"@), text),
        crate::otlp_adapter::record_text(state, LogFieldSelector::Simple(LogField::TraceId))
            == Some(text) <==> crate::matching_laws::has_key(state.record, "traceId"@) && scalar(
            crate::matching_laws::under(state.record, "traceId"@),
            text,
        ),
        crate::otlp_adapter::record_text(state, LogFieldSelector::Simple(LogField::SpanId)) == Some(
            text,
        ) <==> crate::matching_laws::has_key(state.record, "spanId"@) && scalar(
            crate::matching_laws::under(state.record, "spanId"@),
            text,
        ),
        crate::otlp_adapter::record_text(state, LogFieldSelector::Simple(LogField::EventName))
            == Some(text) <==> crate::matching_laws::has_key(state.record, "eventName"@) && scalar(
            crate::matching_laws::under(state.record, "eventName"@),
            text,
        ),
        crate::otlp_adapter::record_text(
            state,
            LogFieldSelector::Simple(LogField::ResourceSchemaUrl),
        ) == Some(text) <==> state.resource_schema_url is Some && scalar(
            state.resource_schema_url->0,
            text,
        ),
        crate::otlp_adapter::record_text(state, LogFieldSelector::Simple(LogField::ScopeSchemaUrl))
            == Some(text) <==> state.scope_schema_url is Some && scalar(
            state.scope_schema_url->0,
            text,
        ),
        crate::otlp_adapter::record_text(state, LogFieldSelector::Simple(LogField::Unspecified))
            is None,
        crate::otlp_adapter::record_has(state, LogFieldSelector::Simple(LogField::Body))
            <==> crate::matching_laws::has_key(state.record, "body"@),
        crate::otlp_adapter::record_has(state, LogFieldSelector::Simple(LogField::SeverityText))
            <==> crate::matching_laws::has_key(state.record, "severityText"@),
        crate::otlp_adapter::record_has(state, LogFieldSelector::Simple(LogField::TraceId))
            <==> crate::matching_laws::has_key(state.record, "traceId"@),
        crate::otlp_adapter::record_has(state, LogFieldSelector::Simple(LogField::SpanId))
            <==> crate::matching_laws::has_key(state.record, "spanId"@),
        crate::otlp_adapter::record_has(state, LogFieldSelector::Simple(LogField::EventName))
            <==> crate::matching_laws::has_key(state.record, "eventName"@),
        crate::otlp_adapter::record_has(
            state,
            LogFieldSelector::Simple(LogField::ResourceSchemaUrl),
        ) <==> state.resource_schema_url is Some,
        crate::otlp_adapter::record_has(state, LogFieldSelector::Simple(LogField::ScopeSchemaUrl))
            <==> state.scope_schema_url is Some,
        !crate::otlp_adapter::record_has(state, LogFieldSelector::Simple(LogField::Unspecified)),
{
}

/// With dotted keys, an attribute is matched by the scalar of the first entry under its whole
/// path, and is present if there is such an entry.
pub proof fn law_record_attributes_are_matched(
    state: RecordTree,
    selector: LogFieldSelector,
    at: int,
    text: Seq<char>,
)
    requires
        selector !is Simple,
    ensures
        ({
            let key = crate::otlp_adapter::dotted(segments(selector));
            let there = home(state, selector) is Some;
            let list = list_of(home(state, selector)->0);
            &&& there && crate::matching_laws::first_named(list, key, at) ==> {
                &&& crate::otlp_adapter::record_text(state, selector) == Some(text)
                    <==> crate::matching_laws::has_key(list[at], "value"@) && wrapped_scalar(
                    crate::matching_laws::under(list[at], "value"@),
                    text,
                )
                &&& crate::otlp_adapter::record_has(state, selector)
            }
            &&& !there || crate::matching_laws::none_named(list, key) ==> {
                &&& crate::otlp_adapter::record_text(state, selector) is None
                &&& !crate::otlp_adapter::record_has(state, selector)
            }
        }),
{
    if home(state, selector) is Some {
        crate::matching_laws::lemma_position_of(
            list_of(home(state, selector)->0),
            crate::otlp_adapter::dotted(segments(selector)),
        );
    }
}

/// With dotted keys, setting a field puts the text into the record under the field's name, the
/// body wrapped, or into the first attribute entry under the whole path, or a new last one, and
/// touches nothing else. A body makes an object of a record that is none.
pub proof fn law_record_set(record: Tree, path: Vec<String>, text: Seq<char>, at: int)
    ensures
        crate::otlp_adapter::record_with(record, LogFieldSelector::Simple(LogField::Body), text)
            == if record is Object {
            put(record, "body"@, wrapped(text))
        } else {
            Tree::Object(Map::<Seq<char>, Tree>::empty().insert("body"@, wrapped(text)))
        },
        crate::otlp_adapter::record_with(
            record,
            LogFieldSelector::Simple(LogField::SeverityText),
            text,
        ) == put(record, "severityText"@, string(text)),
        crate::otlp_adapter::record_with(record, LogFieldSelector::Simple(LogField::TraceId), text)
            == put(record, "traceId"@, string(text)),
        crate::otlp_adapter::record_with(record, LogFieldSelector::Simple(LogField::SpanId), text)
            == put(record, "spanId"@, string(text)),
        crate::otlp_adapter::record_with(
            record,
            LogFieldSelector::Simple(LogField::EventName),
            text,
        ) == put(record, "eventName"@, string(text)),
        ({
            let key = crate::otlp_adapter::dotted(path@.map_values(|segment: String| segment@));
            crate::otlp_adapter::record_with(record, LogFieldSelector::LogAttribute(path), text)
                == crate::otlp_log_adapter::attribute_set(record, seq![key], text)
        }),
{
    reveal_with_fuel(crate::path::put_at, 2);
    let steps = seq![Step::Field("body"@)];
    assert(steps.drop_first() =~= Seq::<Step>::empty());
    let fields = match record {
        Tree::Object(fields) => fields,
        _ => Map::empty(),
    };
    assert(crate::path::put_at(Some(record), steps, wrapped(text)) == Tree::Object(
        fields.insert("body"@, wrapped(text)),
    ));
}

/// With dotted keys, deleting a simple field takes it out of the record, and deleting an
/// attribute takes out the first entry under the whole path; nothing else is touched. A deletion
/// says that there was something exactly if the field was present.
pub proof fn law_record_delete(state: RecordTree, path: Vec<String>, at: int)
    ensures
        crate::otlp_adapter::record_without(state.record, LogFieldSelector::Simple(LogField::Body))
            == taken_out(state.record, "body"@),
        crate::otlp_adapter::record_without(
            state.record,
            LogFieldSelector::Simple(LogField::SeverityText),
        ) == taken_out(state.record, "severityText"@),
        crate::otlp_adapter::record_without(
            state.record,
            LogFieldSelector::Simple(LogField::TraceId),
        ) == taken_out(state.record, "traceId"@),
        crate::otlp_adapter::record_without(
            state.record,
            LogFieldSelector::Simple(LogField::SpanId),
        ) == taken_out(state.record, "spanId"@),
        crate::otlp_adapter::record_without(
            state.record,
            LogFieldSelector::Simple(LogField::EventName),
        ) == taken_out(state.record, "eventName"@),
        ({
            let key = crate::otlp_adapter::dotted(path@.map_values(|segment: String| segment@));
            let list = list_of(state.record);
            &&& crate::matching_laws::first_named(list, key, at)
                ==> crate::otlp_adapter::record_without(
                state.record,
                LogFieldSelector::LogAttribute(path),
            ) == put(state.record, "attributes"@, Tree::Array(list.remove(at)))
            &&& crate::matching_laws::none_named(list, key)
                ==> crate::otlp_adapter::record_without(
                state.record,
                LogFieldSelector::LogAttribute(path),
            ) == state.record
        }),
{
    let key = crate::otlp_adapter::dotted(path@.map_values(|segment: String| segment@));
    law_attribute_taken(state.record, seq![key], at);
}

/// With dotted keys, a deletion of a field of the record says that there was something exactly
/// if the field was present. A simple field is then neither matched nor present.
pub proof fn law_record_deleted_is_gone(state: RecordTree, selector: LogFieldSelector)
    requires
        match selector {
            LogFieldSelector::Simple(field) => field == LogField::Body || field
                == LogField::SeverityText || field == LogField::TraceId || field
                == LogField::SpanId || field == LogField::EventName,
            LogFieldSelector::LogAttribute(_) => true,
            _ => false,
        },
    ensures
        crate::otlp_adapter::record_holds(state.record, selector)
            == crate::otlp_adapter::record_has(state, selector),
        selector is Simple ==> ({
            let after = RecordTree {
                record: crate::otlp_adapter::record_without(state.record, selector),
                ..state
            };
            crate::otlp_adapter::record_text(after, selector) is None
                && !crate::otlp_adapter::record_has(after, selector)
        }),
{
    match selector {
        LogFieldSelector::LogAttribute(path) => {
            let key = crate::otlp_adapter::dotted(crate::text::texts(path@));
            assert(seq![key][0] == key);
        },
        _ => {},
    }
}

/// With dotted keys, moving an attribute takes the first entry under its whole path out of the
/// record's list and puts its value last under the new key. Nothing else changes. An entry
/// without a value is gone. Without an entry to move, nothing changes.
pub proof fn law_record_move(record: Tree, from: Vec<String>, to: Vec<String>, at: int)
    ensures
        ({
            let from_key = crate::otlp_adapter::dotted(
                from@.map_values(|segment: String| segment@),
            );
            let to_key = crate::otlp_adapter::dotted(to@.map_values(|segment: String| segment@));
            let list = list_of(record);
            let moved = crate::otlp_adapter::record_moved(
                record,
                LogFieldSelector::LogAttribute(from),
                LogFieldSelector::LogAttribute(to),
            );
            &&& crate::matching_laws::first_named(list, from_key, at) ==> moved == put(
                record,
                "attributes"@,
                Tree::Array(
                    if crate::matching_laws::has_key(list[at], "value"@) {
                        list.remove(at).push(
                            entry(to_key, crate::matching_laws::under(list[at], "value"@)),
                        )
                    } else {
                        list.remove(at)
                    },
                ),
            )
            &&& crate::matching_laws::none_named(list, from_key) ==> moved == record
        }),
{
    let from_key = crate::otlp_adapter::dotted(from@.map_values(|segment: String| segment@));
    let list = list_of(record);
    law_attribute_taken(record, seq![from_key], at);
    assert(seq![from_key][0] == from_key);
    if crate::matching_laws::first_named(list, from_key, at) {
        match record {
            Tree::Object(fields) => {
                let now = crate::otlp_adapter::record_moved(
                    record,
                    LogFieldSelector::LogAttribute(from),
                    LogFieldSelector::LogAttribute(to),
                );
                assert(forall|a: Tree, b: Tree| #[trigger]
                    fields.insert("attributes"@, a).insert("attributes"@, b) =~= fields.insert(
                        "attributes"@,
                        b,
                    ));
                assert(now->Object_0 =~= put(
                    record,
                    "attributes"@,
                    now->Object_0["attributes"@],
                )->Object_0);
            },
            _ => {},
        }
    }
}

/// Setting the sampling threshold of a span puts the merged trace state into the span and
/// touches nothing else; no other field can be set. A span without a trace state, or with one
/// that is no string, counts as having an empty one.
pub proof fn law_span_set(
    span: RecordTree,
    selector: TraceFieldSelector,
    text: Seq<char>,
    state: Seq<char>,
)
    ensures
        selector !is SamplingThreshold ==> span.span_with(selector, text) == span,
        selector is SamplingThreshold && (crate::matching_laws::shows(
            span.record,
            "traceState"@,
            state,
        ) || state.len() == 0 && !(crate::matching_laws::has_key(span.record, "traceState"@)
            && crate::matching_laws::under(span.record, "traceState"@) is Bytes))
            ==> span.span_with(selector, text) == (RecordTree {
            record: put(
                span.record,
                "traceState"@,
                string(crate::tracestate::merged(state, seq!['t', 'h', ':'] + text)),
            ),
            ..span
        }),
{
    if state.len() == 0 {
        assert(state =~= Seq::<char>::empty());
    }
}

/// The path that a selector has in a flat log event: the one that the mapping gives the field,
/// or the one it gives the attributes with the selector's segments as fields after it.
pub proof fn law_flat_places(mapping: FieldMapping, path: Vec<String>)
    ensures
        crate::adapter::mapped_path(mapping, LogFieldSelector::Simple(LogField::Body)) == Some(
            mapping.body@,
        ),
        crate::adapter::mapped_path(mapping, LogFieldSelector::Simple(LogField::SeverityText))
            == Some(mapping.severity_text@),
        crate::adapter::mapped_path(mapping, LogFieldSelector::Simple(LogField::TraceId)) == Some(
            mapping.trace_id@,
        ),
        crate::adapter::mapped_path(mapping, LogFieldSelector::Simple(LogField::SpanId)) == Some(
            mapping.span_id@,
        ),
        crate::adapter::mapped_path(mapping, LogFieldSelector::Simple(LogField::EventName))
            == Some(mapping.event_name@),
        crate::adapter::mapped_path(mapping, LogFieldSelector::Simple(LogField::ResourceSchemaUrl))
            == Some(mapping.resource_schema_url@),
        crate::adapter::mapped_path(mapping, LogFieldSelector::Simple(LogField::ScopeSchemaUrl))
            == Some(mapping.scope_schema_url@),
        crate::adapter::mapped_path(mapping, LogFieldSelector::LogAttribute(path)) == Some(
            mapping.log_attributes@ + Seq::new(path@.len(), |i: int| Step::Field(path@[i]@)),
        ),
        crate::adapter::mapped_path(mapping, LogFieldSelector::ResourceAttribute(path)) == Some(
            mapping.resource_attributes@ + Seq::new(path@.len(), |i: int| Step::Field(path@[i]@)),
        ),
        crate::adapter::mapped_path(mapping, LogFieldSelector::ScopeAttribute(path)) == Some(
            mapping.scope_attributes@ + Seq::new(path@.len(), |i: int| Step::Field(path@[i]@)),
        ),
{
    assert(crate::vrl_bridge::field_steps(crate::text::texts(path@)) =~= Seq::new(
        path@.len(),
        |i: int| Step::Field(path@[i]@),
    ));
}

/// Under the default mapping, each field stands under its OpenTelemetry name.
pub proof fn law_default_places(mapping: FieldMapping)
    requires
        mapping.is_default(),
    ensures
        mapping.body@ == seq![Step::Field("message"@)],
        mapping.severity_text@ == seq![Step::Field("severity_text"@)],
        mapping.trace_id@ == seq![Step::Field("trace_id"@)],
        mapping.span_id@ == seq![Step::Field("span_id"@)],
        mapping.event_name@ == seq![Step::Field("event_name"@)],
        mapping.resource_schema_url@ == seq![
            Step::Field("resource"@),
            Step::Field("schema_url"@),
        ],
        mapping.scope_schema_url@ == seq![Step::Field("scope"@), Step::Field("schema_url"@)],
        mapping.log_attributes@ == seq![Step::Field("attributes"@)],
        mapping.resource_attributes@ == seq![
            Step::Field("resource"@),
            Step::Field("attributes"@),
        ],
        mapping.scope_attributes@ == seq![Step::Field("scope"@), Step::Field("attributes"@)],
{
    assert(mapping.body@ =~= seq![Step::Field("message"@)]);
    assert(mapping.severity_text@ =~= seq![Step::Field("severity_text"@)]);
    assert(mapping.trace_id@ =~= seq![Step::Field("trace_id"@)]);
    assert(mapping.span_id@ =~= seq![Step::Field("span_id"@)]);
    assert(mapping.event_name@ =~= seq![Step::Field("event_name"@)]);
    assert(mapping.log_attributes@ =~= seq![Step::Field("attributes"@)]);
}

/// What stands at a path: at the root the value itself, below a field what stands there in the
/// field, and below an index what stands there in the item, counted from the end where the index
/// is negative. Anywhere else there is nothing.
pub proof fn law_value_at(
    fields: Map<Seq<char>, Tree>,
    items: Seq<Tree>,
    other: Tree,
    key: Seq<char>,
    index: int,
    rest: Seq<Step>,
)
    ensures
        crate::path::value_at(other, Seq::empty()) == Some(other),
        crate::path::value_at(Tree::Object(fields), seq![Step::Field(key)] + rest)
            == if fields.dom().contains(key) {
            crate::path::value_at(fields[key], rest)
        } else {
            None
        },
        0 <= index < items.len() ==> {
            &&& crate::path::value_at(Tree::Array(items), seq![Step::Index(index)] + rest)
                == crate::path::value_at(items[index], rest)
            &&& crate::path::value_at(
                Tree::Array(items),
                seq![Step::Index(index - items.len())] + rest,
            ) == crate::path::value_at(items[index], rest)
        },
        index >= items.len() || index < -items.len() ==> crate::path::value_at(
            Tree::Array(items),
            seq![Step::Index(index)] + rest,
        ) is None,
        other !is Object ==> crate::path::value_at(other, seq![Step::Field(key)] + rest) is None,
        other !is Array ==> crate::path::value_at(other, seq![Step::Index(index)] + rest) is None,
{
    assert((seq![Step::Field(key)] + rest).drop_first() =~= rest);
    assert((seq![Step::Index(index)] + rest).drop_first() =~= rest);
    assert((seq![Step::Index(index - items.len())] + rest).drop_first() =~= rest);
}

/// A field of a flat log event is present if there is a value at its path, and is matched by
/// that value's text: a string in valid UTF-8 as it reads, an integer in decimal, a float as it
/// prints, a truth value by its name, and nothing else.
pub proof fn law_flat_fields_are_matched(
    log: Tree,
    mapping: FieldMapping,
    selector: LogFieldSelector,
    text: Seq<char>,
)
    ensures
        crate::adapter::flat_value(log, mapping, selector) == match crate::adapter::mapped_path(
            mapping,
            selector,
        ) {
            Some(path) => crate::path::value_at(log, path),
            None => None,
        },
        crate::adapter::flat_text(log, mapping, selector) == Some(text) <==> match (
        crate::adapter::flat_value(log, mapping, selector)) {
            Some(Tree::Bytes(bytes)) => vstd::utf8::valid_utf8(bytes) && text
                == vstd::utf8::decode_utf8(bytes),
            Some(value) => scalar(value, text),
            None => false,
        },
{
}

/// Setting a field of a flat log event puts the value at its path, and deleting it removes what
/// is there; nothing else is done.
pub proof fn law_flat_changes(
    log: Tree,
    mapping: FieldMapping,
    selector: LogFieldSelector,
    value: Tree,
)
    requires
        crate::adapter::mapped_path(mapping, selector) is Some,
    ensures
        crate::adapter::flat_with(log, mapping, selector, value) == crate::path::put_at(
            Some(log),
            crate::adapter::mapped_path(mapping, selector)->0,
            value,
        ),
        crate::adapter::flat_without(log, mapping, selector) == crate::path::removed_at(
            log,
            crate::adapter::mapped_path(mapping, selector)->0,
        ),
{
}

/// Moving a field of a flat log event leaves alone every field whose path parts, at a field,
/// from the path it is moved from and from the one it is moved to.
pub proof fn law_flat_move_others_stay(
    log: Tree,
    mapping: FieldMapping,
    from: LogFieldSelector,
    to: LogFieldSelector,
    other: LogFieldSelector,
)
    requires
        (crate::adapter::mapped_path(mapping, from), crate::adapter::mapped_path(mapping, other))
            matches (Some(path), Some(other_path)) ==> crate::path::part_at_field(
            path,
            other_path,
        ),
        (crate::adapter::mapped_path(mapping, to), crate::adapter::mapped_path(mapping, other))
            matches (Some(path), Some(other_path)) ==> crate::path::part_at_field(
            path,
            other_path,
        ),
    ensures
        crate::adapter::flat_value(
            crate::adapter::flat_moved(log, mapping, from, to),
            mapping,
            other,
        ) == crate::adapter::flat_value(log, mapping, other),
        crate::adapter::flat_text(
            crate::adapter::flat_moved(log, mapping, from, to),
            mapping,
            other,
        ) == crate::adapter::flat_text(log, mapping, other),
{
    match (
        crate::adapter::mapped_path(mapping, from),
        crate::adapter::mapped_path(mapping, to),
        crate::adapter::mapped_path(mapping, other),
    ) {
        (Some(from_path), Some(to_path), Some(other_path)) => {
            match crate::path::value_at(log, from_path) {
                Some(value) => {
                    let rest = crate::path::removed_at(log, from_path);
                    crate::path::law_remove_elsewhere(log, from_path, other_path);
                    crate::path::law_put_elsewhere(Some(rest), to_path, value, other_path);
                },
                None => {},
            }
        },
        _ => {},
    }
}

/// Moving a field of a flat log event is taking its value out and putting it in at the new
/// path. Without a value to move, or a path to move it to, nothing changes.
pub proof fn law_flat_move_is_delete_and_set(
    log: Tree,
    mapping: FieldMapping,
    from: LogFieldSelector,
    to: LogFieldSelector,
    value: Tree,
)
    ensures
        crate::adapter::flat_value(log, mapping, from) == Some(value)
            && crate::adapter::mapped_path(mapping, to) is Some ==> crate::adapter::flat_moved(
            log,
            mapping,
            from,
            to,
        ) == crate::adapter::flat_with(
            crate::adapter::flat_without(log, mapping, from),
            mapping,
            to,
            value,
        ),
        crate::adapter::flat_value(log, mapping, from) is None || crate::adapter::mapped_path(
            mapping,
            to,
        ) is None ==> crate::adapter::flat_moved(log, mapping, from, to) == log,
{
}

} // verus!
