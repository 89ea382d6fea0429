//! A log event as policies read and change it, by way of a field mapping.

use crate::field_mapping::FieldMapping;
use crate::log_event::LogEvent;
use crate::path::{ConfigValuePath, Step};
use crate::selector::{LogField, LogFieldSelector};
use crate::text::{decimal_text, utf8_text};
use crate::value::{Tree, Value};
use vstd::prelude::*;

verus! {

/// The path of a selector under a mapping; nothing for the unspecified field.
pub open spec fn mapped_path(mapping: FieldMapping, selector: LogFieldSelector) -> Option<
    Seq<Step>,
> {
    match selector {
        LogFieldSelector::Simple(field) => match field {
            LogField::Body => Some(mapping.body@),
            LogField::SeverityText => Some(mapping.severity_text@),
            LogField::TraceId => Some(mapping.trace_id@),
            LogField::SpanId => Some(mapping.span_id@),
            LogField::EventName => Some(mapping.event_name@),
            LogField::ResourceSchemaUrl => Some(mapping.resource_schema_url@),
            LogField::ScopeSchemaUrl => Some(mapping.scope_schema_url@),
            LogField::Unspecified => None,
        },
        LogFieldSelector::LogAttribute(path) => Some(
            mapping.log_attributes@ + crate::vrl_bridge::field_steps(crate::text::texts(path@)),
        ),
        LogFieldSelector::ResourceAttribute(path) => Some(
            mapping.resource_attributes@ + crate::vrl_bridge::field_steps(
                crate::text::texts(path@),
            ),
        ),
        LogFieldSelector::ScopeAttribute(path) => Some(
            mapping.scope_attributes@ + crate::vrl_bridge::field_steps(crate::text::texts(path@)),
        ),
    }
}

/// The text that a value is matched by. Strings in valid UTF-8 and other scalars have one;
/// containers, timestamps, regular expressions and null have none.
pub open spec fn match_text(tree: Tree) -> Option<Seq<char>> {
    match tree {
        Tree::Bytes(bytes) => if vstd::utf8::valid_utf8(bytes) {
            Some(vstd::utf8::decode_utf8(bytes))
        } else {
            None
        },
        Tree::Integer(integer) => Some(crate::text::decimal(integer as int)),
        Tree::Float(text) => Some(text),
        Tree::Boolean(boolean) => if boolean {
            Some("true"@)
        } else {
            Some("false"@)
        },
        _ => None,
    }
}

/// The value that a selector leads to.
pub open spec fn flat_value(
    log: Tree,
    mapping: FieldMapping,
    selector: LogFieldSelector,
) -> Option<Tree> {
    match mapped_path(mapping, selector) {
        Some(path) => crate::path::value_at(log, path),
        None => None,
    }
}

/// The text that a field is matched by.
pub open spec fn flat_text(
    log: Tree,
    mapping: FieldMapping,
    selector: LogFieldSelector,
) -> Option<Seq<char>> {
    match flat_value(log, mapping, selector) {
        Some(value) => match_text(value),
        None => None,
    }
}

/// The event with a field set to a value.
pub open spec fn flat_with(
    log: Tree,
    mapping: FieldMapping,
    selector: LogFieldSelector,
    value: Tree,
) -> Tree {
    match mapped_path(mapping, selector) {
        Some(path) => crate::path::put_at(Some(log), path, value),
        None => log,
    }
}

/// The event with a field deleted.
pub open spec fn flat_without(
    log: Tree,
    mapping: FieldMapping,
    selector: LogFieldSelector,
) -> Tree {
    match mapped_path(mapping, selector) {
        Some(path) => crate::path::removed_at(log, path),
        None => log,
    }
}

/// The event with a field moved. Without a place on either side, or a value to move, nothing
/// changes.
pub open spec fn flat_moved(
    log: Tree,
    mapping: FieldMapping,
    from: LogFieldSelector,
    to: LogFieldSelector,
) -> Tree {
    if mapped_path(mapping, from) is None || mapped_path(mapping, to) is None {
        log
    } else {
        match flat_value(log, mapping, from) {
            Some(value) => flat_with(flat_without(log, mapping, from), mapping, to, value),
            None => log,
        }
    }
}

proof fn lemma_fields_in_reach(root: Seq<Step>, fields: Seq<Seq<char>>)
    requires
        crate::path::indexes_in_reach(root),
    ensures
        crate::path::indexes_in_reach(root + crate::vrl_bridge::field_steps(fields)),
{
    let path = root + crate::vrl_bridge::field_steps(fields);
    assert forall|i: int| 0 <= i < path.len() implies (#[trigger] path[i] matches Step::Index(index)
        ==> -(isize::MAX / 64) <= index < isize::MAX / 64) by {
        if i < root.len() {
            assert(path[i] == root[i]);
        } else {
            assert(path[i] == Step::Field(fields[i - root.len()]));
        }
    }
}

proof fn lemma_mapped_in_reach(mapping: FieldMapping, selector: LogFieldSelector)
    requires
        mapping.reachable(),
    ensures
        mapped_path(mapping, selector) matches Some(path) ==> crate::path::indexes_in_reach(path),
{
    match selector {
        LogFieldSelector::Simple(_) => {},
        LogFieldSelector::LogAttribute(path) => {
            lemma_fields_in_reach(mapping.log_attributes@, crate::text::texts(path@));
        },
        LogFieldSelector::ResourceAttribute(path) => {
            lemma_fields_in_reach(mapping.resource_attributes@, crate::text::texts(path@));
        },
        LogFieldSelector::ScopeAttribute(path) => {
            lemma_fields_in_reach(mapping.scope_attributes@, crate::text::texts(path@));
        },
    }
}

/// The text that a value is matched by.
pub fn value_to_match_string(value: &Value) -> (r: Option<String>)
    ensures
        crate::value::text_of(r) == match_text(value@),
{
    match value {
        Value::Bytes(bytes) => {
            let copy = bytes.clone();
            assert(copy@ =~= bytes@);
            utf8_text(copy)
        },
        Value::Integer(integer) => Some(decimal_text(*integer)),
        Value::Float(float) => Some(float.text().to_string()),
        Value::Boolean(boolean) => if *boolean {
            Some("true".to_string())
        } else {
            Some("false".to_string())
        },
        Value::Opaque(_) | Value::Object(_) | Value::Array(_) | Value::Null => None,
    }
}

/// A log event with the mapping that its fields are found by.
pub struct VectorLogAdapter<'a> {
    pub log: &'a mut LogEvent,
    pub mapping: &'a FieldMapping,
}

impl<'a> VectorLogAdapter<'a> {
    /// The event as it stands.
    pub open spec fn view(self) -> Tree {
        (*self.log)@
    }

    /// An adapter for an event.
    pub fn new(log: &'a mut LogEvent, mapping: &'a FieldMapping) -> (r: VectorLogAdapter<'a>)
        ensures
            *r.log == *old(log),
            *final(r.log) == *final(log),
            *r.mapping == *mapping,
    {
        VectorLogAdapter { log, mapping }
    }

    /// The path of a selector; nothing for the unspecified field.
    fn path_for(&self, selector: &LogFieldSelector) -> (r: Option<ConfigValuePath>)
        ensures
            match r {
                Some(path) => mapped_path(*self.mapping, *selector) == Some(path@),
                None => mapped_path(*self.mapping, *selector) is None,
            },
    {
        match selector {
            LogFieldSelector::Simple(field) => self.simple_path(*field),
            LogFieldSelector::LogAttribute(path) => Some(
                FieldMapping::append_segments(&self.mapping.log_attributes, path.as_slice()),
            ),
            LogFieldSelector::ResourceAttribute(path) => Some(
                FieldMapping::append_segments(&self.mapping.resource_attributes, path.as_slice()),
            ),
            LogFieldSelector::ScopeAttribute(path) => Some(
                FieldMapping::append_segments(&self.mapping.scope_attributes, path.as_slice()),
            ),
        }
    }

    fn simple_path(&self, field: LogField) -> (r: Option<ConfigValuePath>)
        ensures
            match r {
                Some(path) => mapped_path(*self.mapping, LogFieldSelector::Simple(field)) == Some(
                    path@,
                ),
                None => mapped_path(*self.mapping, LogFieldSelector::Simple(field)) is None,
            },
    {
        match field {
            LogField::Body => Some(self.mapping.body.clone()),
            LogField::SeverityText => Some(self.mapping.severity_text.clone()),
            LogField::TraceId => Some(self.mapping.trace_id.clone()),
            LogField::SpanId => Some(self.mapping.span_id.clone()),
            LogField::EventName => Some(self.mapping.event_name.clone()),
            LogField::ResourceSchemaUrl => Some(self.mapping.resource_schema_url.clone()),
            LogField::ScopeSchemaUrl => Some(self.mapping.scope_schema_url.clone()),
            LogField::Unspecified => None,
        }
    }

    /// The text that a field is matched by.
    pub fn get_field(&self, field: &LogFieldSelector) -> (r: Option<String>)
        ensures
            crate::value::text_of(r) == flat_text(self@, *self.mapping, *field),
    {
        let path = self.path_for(field)?;
        let value = self.log.get(&path)?;
        value_to_match_string(value)
    }

    /// Whether there is a value at a field's path, matched by a text or not.
    pub fn field_exists(&self, field: &LogFieldSelector) -> (r: bool)
        ensures
            r == (flat_value(self@, *self.mapping, *field) is Some),
    {
        match self.path_for(field) {
            Some(path) => self.log.get(&path).is_some(),
            None => false,
        }
    }

    /// Puts a text at a field's path, making what is missing on the way.
    pub fn set_field(&mut self, field: &LogFieldSelector, value: &str)
        requires
            old(self).mapping.reachable(),
        ensures
            final(self)@ == flat_with(
                old(self)@,
                *old(self).mapping,
                *field,
                Tree::text(value@),
            ),
            *final(self).mapping == *old(self).mapping,
            *final(final(self).log) == *final(old(self).log),
    {
        proof {
            lemma_mapped_in_reach(*self.mapping, *field);
        }
        match self.path_for(field) {
            Some(path) => {
                self.log.insert(&path, Value::text(value));
            },
            None => {},
        }
    }

    /// Removes what stands at a field's path; says whether there was something.
    pub fn delete_field(&mut self, field: &LogFieldSelector) -> (r: bool)
        ensures
            final(self)@ == flat_without(old(self)@, *old(self).mapping, *field),
            r == (flat_value(old(self)@, *old(self).mapping, *field) is Some),
            *final(self).mapping == *old(self).mapping,
            *final(final(self).log) == *final(old(self).log),
    {
        match self.path_for(field) {
            Some(path) => self.log.remove(&path).is_some(),
            None => false,
        }
    }

    /// Moves what stands at one field's path to another's, as it is.
    pub fn move_field(&mut self, from: &LogFieldSelector, to: &LogFieldSelector)
        requires
            old(self).mapping.reachable(),
        ensures
            final(self)@ == flat_moved(old(self)@, *old(self).mapping, *from, *to),
            *final(self).mapping == *old(self).mapping,
            *final(final(self).log) == *final(old(self).log),
    {
        proof {
            lemma_mapped_in_reach(*self.mapping, *to);
        }
        match (self.path_for(from), self.path_for(to)) {
            (Some(from_path), Some(to_path)) => match self.log.remove(&from_path) {
                Some(value) => {
                    self.log.insert(&to_path, value);
                },
                None => {
                    proof {
                        crate::path::lemma_nothing_removed(old(self)@, from_path@);
                    }
                },
            },
            _ => {},
        }
    }
}

/// The unspecified field is never matched, never present, and cannot be set, deleted or moved.
pub proof fn law_unspecified_field(
    log: Tree,
    mapping: FieldMapping,
    other: LogFieldSelector,
    value: Tree,
)
    ensures
        ({
            let unspecified = LogFieldSelector::Simple(LogField::Unspecified);
            &&& flat_value(log, mapping, unspecified) is None
            &&& flat_text(log, mapping, unspecified) is None
            &&& flat_with(log, mapping, unspecified, value) == log
            &&& flat_without(log, mapping, unspecified) == log
            &&& flat_moved(log, mapping, unspecified, other) == log
            &&& flat_moved(log, mapping, other, unspecified) == log
        }),
{
}

/// A text that was set is read back.
pub proof fn law_flat_set_then_get(
    log: Tree,
    mapping: FieldMapping,
    selector: LogFieldSelector,
    text: Seq<char>,
)
    requires
        mapped_path(mapping, selector) is Some,
    ensures
        flat_text(
            flat_with(log, mapping, selector, Tree::text(text)),
            mapping,
            selector,
        ) == Some(text),
{
    let path = mapped_path(mapping, selector)->0;
    crate::path::law_put_then_get(Some(log), path, Tree::text(text));
    vstd::utf8::encode_utf8_valid_utf8(text);
    vstd::utf8::encode_utf8_decode_utf8(text);
}

/// A deleted field is gone, if its path ends in a field: neither in an index nor at the root.
pub proof fn law_flat_delete(log: Tree, mapping: FieldMapping, selector: LogFieldSelector)
    requires
        mapped_path(mapping, selector) matches Some(path) ==> path.len() > 0 && path.last()
            is Field,
    ensures
        flat_value(flat_without(log, mapping, selector), mapping, selector) is None,
        flat_value(log, mapping, selector) is None ==> flat_without(log, mapping, selector) == log,
{
    match mapped_path(mapping, selector) {
        Some(path) => {
            crate::path::law_remove_then_get(log, path);
            if flat_value(log, mapping, selector) is None {
                crate::path::lemma_nothing_removed(log, path);
            }
        },
        None => {},
    }
}

/// A moved value stands at its new place as it was, of whatever sort. It is gone from its old
/// place, if that ends in a field and the two paths part at a field.
pub proof fn law_flat_move(
    log: Tree,
    mapping: FieldMapping,
    from: LogFieldSelector,
    to: LogFieldSelector,
)
    requires
        flat_value(log, mapping, from) is Some,
        mapped_path(mapping, to) is Some,
    ensures
        flat_value(flat_moved(log, mapping, from, to), mapping, to) == flat_value(
            log,
            mapping,
            from,
        ),
        ({
            let from_path = mapped_path(mapping, from)->0;
            from_path.len() > 0 && from_path.last() is Field && crate::path::part_at_field(
                mapped_path(mapping, to)->0,
                from_path,
            )
        }) ==> flat_value(flat_moved(log, mapping, from, to), mapping, from) is None,
{
    let from_path = mapped_path(mapping, from)->0;
    let to_path = mapped_path(mapping, to)->0;
    let value = flat_value(log, mapping, from)->0;
    let rest = flat_without(log, mapping, from);
    crate::path::law_put_then_get(Some(rest), to_path, value);
    if from_path.len() > 0 && from_path.last() is Field && crate::path::part_at_field(
        to_path,
        from_path,
    ) {
        crate::path::law_remove_then_get(log, from_path);
        crate::path::law_put_elsewhere(Some(rest), to_path, value, from_path);
    }
}

/// A field that is matched by a text is present.
pub proof fn law_flat_matched_is_present(
    log: Tree,
    mapping: FieldMapping,
    selector: LogFieldSelector,
)
    ensures
        flat_text(log, mapping, selector) is Some ==> flat_value(log, mapping, selector) is Some,
{
}

} // verus!
