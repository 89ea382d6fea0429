//! What a change of one field leaves alone.

use crate::field_mapping::FieldMapping;
use crate::otlp_common::RecordTree;
use crate::selector::{LogFieldSelector, TraceField, TraceFieldSelector};
use crate::value::Tree;
use vstd::prelude::*;

verus! {

/// The names of a log record's fields are different.
proof fn lemma_log_names_differ()
    ensures
        "body"@.len() == 4,
        "spanId"@.len() == 6,
        "traceId"@.len() == 7,
        "eventName"@.len() == 9,
        "attributes"@.len() == 10,
        "severityText"@.len() == 12,
{
    reveal_strlit("body");
    reveal_strlit("spanId");
    reveal_strlit("traceId");
    reveal_strlit("eventName");
    reveal_strlit("attributes");
    reveal_strlit("severityText");
}

/// Two selectors name different places: different simple fields, attributes of different
/// parents, or attributes whose paths begin differently. The empty path names no place.
pub open spec fn apart(a: LogFieldSelector, b: LogFieldSelector) -> bool {
    match (a, b) {
        (LogFieldSelector::Simple(a), LogFieldSelector::Simple(b)) => a != b,
        _ => {
            let a_path = crate::otlp_log_adapter::attribute_path(a);
            let b_path = crate::otlp_log_adapter::attribute_path(b);
            crate::otlp_log_adapter::same_home(a, b) ==> keys_apart(a_path, b_path)
        },
    }
}

/// Two attribute paths do not begin with the same segment.
pub open spec fn keys_apart(a: Seq<Seq<char>>, b: Seq<Seq<char>>) -> bool {
    a.len() > 0 && b.len() > 0 ==> a[0] != b[0]
}

/// What a path leads to depends only on what stands under its first segment.
proof fn lemma_first_segment(before: Seq<Tree>, after: Seq<Tree>, path: Seq<Seq<char>>)
    requires
        path.len() > 0 ==> crate::otlp_common::entry_value(after, path[0])
            == crate::otlp_common::entry_value(before, path[0]),
    ensures
        crate::otlp_common::attribute_at(after, path) == crate::otlp_common::attribute_at(
            before,
            path,
        ),
{
}

proof fn lemma_nothing_in_empty(path: Seq<Seq<char>>)
    ensures
        crate::otlp_common::attribute_at(Seq::empty(), path) is None,
{
    if path.len() > 0 {
        crate::otlp_common::lemma_entry_position(Seq::empty(), path[0]);
    }
}

proof fn lemma_set_elsewhere(
    parent: Tree,
    path: Seq<Seq<char>>,
    text: Seq<char>,
    other: Seq<Seq<char>>,
)
    requires
        keys_apart(path, other),
    ensures
        crate::otlp_common::attribute_in(
            crate::otlp_log_adapter::attribute_set(parent, path, text).field("attributes"@),
            other,
        ) == crate::otlp_common::attribute_in(parent.field("attributes"@), other),
{
    let list = crate::otlp_log_adapter::ensured_list(parent);
    lemma_nothing_in_empty(other);
    if path.len() > 0 {
        if other.len() > 0 {
            crate::otlp_log_adapter::law_set_attribute(list, path[0], text, other[0]);
        }
        lemma_first_segment(
            list,
            crate::otlp_log_adapter::with_string_entry(list, path[0], text),
            other,
        );
    }
}

proof fn lemma_removed_elsewhere(parent: Tree, path: Seq<Seq<char>>, other: Seq<Seq<char>>)
    requires
        keys_apart(path, other),
    ensures
        crate::otlp_common::attribute_in(
            crate::otlp_log_adapter::attribute_removed(parent, path).field("attributes"@),
            other,
        ) == crate::otlp_common::attribute_in(parent.field("attributes"@), other),
{
    match crate::otlp_log_adapter::attribute_list(parent) {
        Some(list) => if path.len() > 0 {
            if other.len() > 0 {
                crate::otlp_log_adapter::law_remove_attribute(list, path[0], other[0]);
            }
            lemma_first_segment(
                list,
                crate::otlp_log_adapter::without_entries(list, path[0]),
                other,
            );
        },
        None => {},
    }
}

/// Taking an entry out leaves alone what stands under another key.
proof fn lemma_entry_taken(list: Seq<Tree>, at: int, key: Seq<char>, other: Seq<char>)
    requires
        0 <= at < list.len(),
        crate::otlp_common::entry_has_key(list[at], key),
        key != other,
    ensures
        crate::otlp_common::entry_value(list.remove(at), other)
            == crate::otlp_common::entry_value(list, other),
{
    let rest = list.remove(at);
    let there = crate::otlp_common::entry_position(list, other);
    crate::otlp_common::lemma_entry_position(list, other);
    if there == at {
        crate::otlp_log_adapter::lemma_text_injective(key, other);
    }
    let now = if there < at {
        there
    } else {
        there - 1
    };
    assert forall|i: int| 0 <= i < now implies !crate::otlp_common::entry_has_key(
        #[trigger] rest[i],
        other,
    ) by {
        let was = if i < at {
            i
        } else {
            i + 1
        };
        assert(rest[i] == list[was]);
    }
    if there < list.len() {
        assert(rest[now] == list[there]);
    }
    crate::otlp_common::lemma_first_position(rest, other, now);
}

proof fn lemma_left_elsewhere(parent: Tree, path: Seq<Seq<char>>, other: Seq<Seq<char>>)
    requires
        keys_apart(path, other),
    ensures
        crate::otlp_common::attribute_in(
            crate::otlp_log_adapter::attribute_left(parent, path).field("attributes"@),
            other,
        ) == crate::otlp_common::attribute_in(parent.field("attributes"@), other),
{
    if crate::otlp_log_adapter::attribute_found(parent, path) {
        let list = crate::otlp_log_adapter::attribute_list(parent)->0;
        let at = crate::otlp_common::entry_position(list, path[0]);
        crate::otlp_common::lemma_entry_position(list, path[0]);
        if other.len() > 0 {
            lemma_entry_taken(list, at, path[0], other[0]);
        }
        lemma_first_segment(list, list.remove(at), other);
    }
}

proof fn lemma_upserted_elsewhere(
    parent: Tree,
    key: Seq<char>,
    entry: Tree,
    other: Seq<Seq<char>>,
)
    requires
        entry is Object ==> entry.field("key"@) == Some(Tree::text(key)),
        keys_apart(seq![key], other),
    ensures
        crate::otlp_common::attribute_in(
            crate::otlp_log_adapter::attribute_upserted(parent, key, entry).field("attributes"@),
            other,
        ) == crate::otlp_common::attribute_in(parent.field("attributes"@), other),
{
    let list = crate::otlp_log_adapter::ensured_list(parent);
    let kept = crate::otlp_log_adapter::without_entries(list, key);
    lemma_nothing_in_empty(other);
    if other.len() > 0 {
        assert(seq![key][0] == key);
        crate::otlp_log_adapter::law_remove_attribute(list, key, other[0]);
        crate::otlp_log_adapter::lemma_entry_pushed(kept, entry, other[0]);
        if crate::otlp_common::entry_has_key(entry, other[0]) {
            crate::otlp_log_adapter::lemma_text_injective(key, other[0]);
        }
        crate::otlp_common::lemma_entry_position(kept, other[0]);
    }
    lemma_first_segment(list, kept.push(entry), other);
}

/// Setting or deleting a field of a log record leaves alone how every field of another place
/// is matched, and whether it is present.
pub proof fn law_others_stay(
    state: RecordTree,
    selector: LogFieldSelector,
    text: Seq<char>,
    other: LogFieldSelector,
)
    requires
        apart(selector, other),
    ensures
        state.log_with(selector, text).log_text(other) == state.log_text(other),
        state.log_with(selector, text).log_has(other) == state.log_has(other),
        state.log_without(selector).log_text(other) == state.log_text(other),
        state.log_without(selector).log_has(other) == state.log_has(other),
{
    lemma_log_names_differ();
    let path = crate::otlp_log_adapter::attribute_path(selector);
    let other_path = crate::otlp_log_adapter::attribute_path(other);
    if crate::otlp_log_adapter::same_home(selector, other) {
        match state.log_home(selector) {
            Some(parent) => {
                lemma_set_elsewhere(parent, path, text, other_path);
                lemma_removed_elsewhere(parent, path, other_path);
            },
            None => {},
        }
    }
}

/// Moving an attribute of a log record leaves alone how every field of another place than its
/// own and its target's is matched, and whether it is present.
pub proof fn law_move_others_stay(
    state: RecordTree,
    from: LogFieldSelector,
    to: LogFieldSelector,
    other: LogFieldSelector,
)
    requires
        apart(from, other),
        apart(to, other),
    ensures
        state.log_moved(from, to).log_text(other) == state.log_text(other),
        state.log_moved(from, to).log_has(other) == state.log_has(other),
{
    lemma_log_names_differ();
    let other_path = crate::otlp_log_adapter::attribute_path(other);
    match state.log_taken(from) {
        Some(entry) => {
            let left = state.log_left(from);
            if crate::otlp_log_adapter::same_home(from, other) {
                match state.log_home(from) {
                    Some(parent) => {
                        lemma_left_elsewhere(
                            parent,
                            crate::otlp_log_adapter::attribute_path(from),
                            other_path,
                        );
                    },
                    None => {},
                }
            }
            assert(left.log_text(other) == state.log_text(other));
            assert(left.log_has(other) == state.log_has(other));
            let to_path = crate::otlp_log_adapter::attribute_path(to);
            if crate::otlp_log_adapter::same_home(to, other) && to_path.len() > 0 {
                match left.log_home(to) {
                    Some(parent) => {
                        lemma_upserted_elsewhere(
                            parent,
                            to_path[0],
                            entry.with_field("key"@, Tree::text(to_path[0])),
                            other_path,
                        );
                    },
                    None => {},
                }
            }
        },
        None => {},
    }
}

/// Two selectors name different places of a log record with dotted attribute keys.
pub open spec fn dotted_apart(a: LogFieldSelector, b: LogFieldSelector) -> bool {
    match (a, b) {
        (LogFieldSelector::Simple(a), LogFieldSelector::Simple(b)) => a != b,
        (LogFieldSelector::LogAttribute(a), LogFieldSelector::LogAttribute(b)) =>
            crate::otlp_adapter::dotted(crate::text::texts(a@)) != crate::otlp_adapter::dotted(
                crate::text::texts(b@),
            ),
        _ => true,
    }
}

/// Setting or deleting a field of a log record with dotted attribute keys leaves alone how
/// every field of another place is matched.
pub proof fn law_record_others_stay(
    state: RecordTree,
    selector: LogFieldSelector,
    text: Seq<char>,
    other: LogFieldSelector,
)
    requires
        dotted_apart(selector, other),
    ensures
        crate::otlp_adapter::record_text(
            (RecordTree {
                record: crate::otlp_adapter::record_with(state.record, selector, text),
                ..state
            }),
            other,
        ) == crate::otlp_adapter::record_text(state, other),
        crate::otlp_adapter::record_text(
            (RecordTree {
                record: crate::otlp_adapter::record_without(state.record, selector),
                ..state
            }),
            other,
        ) == crate::otlp_adapter::record_text(state, other),
{
    lemma_log_names_differ();
    reveal_with_fuel(crate::path::put_at, 2);
    match (selector, other) {
        (LogFieldSelector::LogAttribute(path), LogFieldSelector::LogAttribute(other_path)) => {
            let key = crate::otlp_adapter::dotted(crate::text::texts(path@));
            let other_key = crate::otlp_adapter::dotted(crate::text::texts(other_path@));
            let list = crate::otlp_log_adapter::ensured_list(state.record);
            crate::otlp_log_adapter::law_set_attribute(list, key, text, other_key);
            crate::otlp_common::lemma_entry_position(list, key);
            crate::otlp_common::lemma_entry_position(list, other_key);
            if crate::otlp_log_adapter::attribute_found(state.record, seq![key]) {
                let at = crate::otlp_common::entry_position(list, key);
                lemma_entry_taken(list, at, key, other_key);
            }
        },
        _ => {},
    }
}

/// Writing or deleting a field of a flat log event leaves alone every field whose path parts
/// from its path at a field.
pub proof fn law_flat_others_stay(
    log: Tree,
    mapping: FieldMapping,
    selector: LogFieldSelector,
    value: Tree,
    other: LogFieldSelector,
)
    requires
        (crate::adapter::mapped_path(mapping, selector), crate::adapter::mapped_path(mapping, other))
            matches (Some(path), Some(other_path)) ==> crate::path::part_at_field(
            path,
            other_path,
        ),
    ensures
        crate::adapter::flat_value(
            crate::adapter::flat_with(log, mapping, selector, value),
            mapping,
            other,
        ) == crate::adapter::flat_value(log, mapping, other),
        crate::adapter::flat_value(
            crate::adapter::flat_without(log, mapping, selector),
            mapping,
            other,
        ) == crate::adapter::flat_value(log, mapping, other),
{
    match (crate::adapter::mapped_path(mapping, selector), crate::adapter::mapped_path(mapping, other)) {
        (Some(path), Some(other_path)) => {
            crate::path::law_put_elsewhere(Some(log), path, value, other_path);
            crate::path::law_remove_elsewhere(log, path, other_path);
        },
        _ => {},
    }
}

/// Writing the sampling threshold of a span leaves alone every field but its trace state.
pub proof fn law_span_others_stay(
    span: RecordTree,
    selector: TraceFieldSelector,
    text: Seq<char>,
    other: TraceFieldSelector,
)
    requires
        other != TraceFieldSelector::Simple(TraceField::TraceState),
    ensures
        span.span_with(selector, text).span_text(other) == span.span_text(other),
        span.span_with(selector, text).span_has(other) == span.span_has(other),
{
    reveal_strlit("traceState");
    reveal_strlit("name");
    reveal_strlit("traceId");
    reveal_strlit("spanId");
    reveal_strlit("parentSpanId");
    reveal_strlit("kind");
    reveal_strlit("status");
    reveal_strlit("events");
    reveal_strlit("attributes");
    assert("traceState"@[0] == 't');
    assert("attributes"@[0] == 'a');
    assert("traceState"@.len() == 10);
    assert("name"@.len() == 4);
    assert("traceId"@.len() == 7);
    assert("spanId"@.len() == 6);
    assert("parentSpanId"@.len() == 12);
    assert("kind"@.len() == 4);
    assert("status"@.len() == 6);
    assert("events"@.len() == 6);
}

} // verus!
