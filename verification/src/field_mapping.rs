//! Where the fields that policies name stand in a log event.
//!
//! Log events have no schema of their own. The defaults follow the OpenTelemetry semantic
//! conventions, so that events of an `opentelemetry` source match without configuration.

use crate::path::ConfigValuePath;
use vstd::prelude::*;

verus! {

/// The paths of the fields that policies name.
#[derive(Debug, PartialEq, Eq)]
pub struct FieldMapping {
    /// The log body.
    pub body: ConfigValuePath,
    /// The severity text.
    pub severity_text: ConfigValuePath,
    /// The trace ID.
    pub trace_id: ConfigValuePath,
    /// The span ID.
    pub span_id: ConfigValuePath,
    /// The event name.
    pub event_name: ConfigValuePath,
    /// The resource's schema URL.
    pub resource_schema_url: ConfigValuePath,
    /// The scope's schema URL.
    pub scope_schema_url: ConfigValuePath,
    /// The root of the log attributes. A selector's segments are appended to it.
    pub log_attributes: ConfigValuePath,
    /// The root of the resource attributes.
    pub resource_attributes: ConfigValuePath,
    /// The root of the scope attributes.
    pub scope_attributes: ConfigValuePath,
}

impl FieldMapping {
    /// The paths are those of OpenTelemetry's conventions.
    pub open spec fn is_default(self) -> bool {
        &&& self.body@ == crate::vrl_bridge::field_steps(seq!["message"@])
        &&& self.severity_text@ == crate::vrl_bridge::field_steps(seq!["severity_text"@])
        &&& self.trace_id@ == crate::vrl_bridge::field_steps(seq!["trace_id"@])
        &&& self.span_id@ == crate::vrl_bridge::field_steps(seq!["span_id"@])
        &&& self.event_name@ == crate::vrl_bridge::field_steps(seq!["event_name"@])
        &&& self.resource_schema_url@ == crate::vrl_bridge::field_steps(
            seq!["resource"@, "schema_url"@],
        )
        &&& self.scope_schema_url@ == crate::vrl_bridge::field_steps(seq!["scope"@, "schema_url"@])
        &&& self.log_attributes@ == crate::vrl_bridge::field_steps(seq!["attributes"@])
        &&& self.resource_attributes@ == crate::vrl_bridge::field_steps(
            seq!["resource"@, "attributes"@],
        )
        &&& self.scope_attributes@ == crate::vrl_bridge::field_steps(seq!["scope"@, "attributes"@])
    }
}

impl FieldMapping {
    /// Every index in the mapping's paths is one up to which an array can be allocated.
    pub open spec fn reachable(self) -> bool {
        &&& crate::path::indexes_in_reach(self.body@)
        &&& crate::path::indexes_in_reach(self.severity_text@)
        &&& crate::path::indexes_in_reach(self.trace_id@)
        &&& crate::path::indexes_in_reach(self.span_id@)
        &&& crate::path::indexes_in_reach(self.event_name@)
        &&& crate::path::indexes_in_reach(self.resource_schema_url@)
        &&& crate::path::indexes_in_reach(self.scope_schema_url@)
        &&& crate::path::indexes_in_reach(self.log_attributes@)
        &&& crate::path::indexes_in_reach(self.resource_attributes@)
        &&& crate::path::indexes_in_reach(self.scope_attributes@)
    }

    /// Whether every index in the mapping's paths is one up to which an array can be
    /// allocated.
    pub fn in_reach(&self) -> (r: bool)
        ensures
            r == self.reachable(),
    {
        self.body.in_reach() && self.severity_text.in_reach() && self.trace_id.in_reach()
            && self.span_id.in_reach() && self.event_name.in_reach()
            && self.resource_schema_url.in_reach() && self.scope_schema_url.in_reach()
            && self.log_attributes.in_reach() && self.resource_attributes.in_reach()
            && self.scope_attributes.in_reach()
    }
}

proof fn lemma_fields_reachable(fields: Seq<Seq<char>>)
    ensures
        crate::path::indexes_in_reach(crate::vrl_bridge::field_steps(fields)),
{
}

impl Clone for FieldMapping {
    /// The same mapping again.
    fn clone(&self) -> (r: FieldMapping)
        ensures
            r.body@ == self.body@,
            r.severity_text@ == self.severity_text@,
            r.trace_id@ == self.trace_id@,
            r.span_id@ == self.span_id@,
            r.event_name@ == self.event_name@,
            r.resource_schema_url@ == self.resource_schema_url@,
            r.scope_schema_url@ == self.scope_schema_url@,
            r.log_attributes@ == self.log_attributes@,
            r.resource_attributes@ == self.resource_attributes@,
            r.scope_attributes@ == self.scope_attributes@,
    {
        FieldMapping {
            body: self.body.clone(),
            severity_text: self.severity_text.clone(),
            trace_id: self.trace_id.clone(),
            span_id: self.span_id.clone(),
            event_name: self.event_name.clone(),
            resource_schema_url: self.resource_schema_url.clone(),
            scope_schema_url: self.scope_schema_url.clone(),
            log_attributes: self.log_attributes.clone(),
            resource_attributes: self.resource_attributes.clone(),
            scope_attributes: self.scope_attributes.clone(),
        }
    }
}

impl Default for FieldMapping {
    /// The paths by OpenTelemetry's conventions.
    fn default() -> (r: FieldMapping)
        ensures
            r.is_default(),
            r.reachable(),
    {
        proof {
            lemma_default_names();
            let dot = seq!['.'];
            assert(crate::text::joined(seq!["message"@], dot) == "message"@);
            assert(crate::text::joined(seq!["severity_text"@], dot) == "severity_text"@);
            assert(crate::text::joined(seq!["trace_id"@], dot) == "trace_id"@);
            assert(crate::text::joined(seq!["span_id"@], dot) == "span_id"@);
            assert(crate::text::joined(seq!["event_name"@], dot) == "event_name"@);
            assert(crate::text::joined(seq!["attributes"@], dot) == "attributes"@);
            lemma_joined_pair("resource"@, "schema_url"@);
            lemma_joined_pair("scope"@, "schema_url"@);
            lemma_joined_pair("resource"@, "attributes"@);
            lemma_joined_pair("scope"@, "attributes"@);
            assert forall|fields: Seq<Seq<char>>| crate::path::indexes_in_reach(
                #[trigger] crate::vrl_bridge::field_steps(fields),
            ) by {
                lemma_fields_reachable(fields);
            }
        }
        FieldMapping {
            body: parse("message"),
            severity_text: parse("severity_text"),
            trace_id: parse("trace_id"),
            span_id: parse("span_id"),
            event_name: parse("event_name"),
            resource_schema_url: parse(
                "resource.schema_url"),
            scope_schema_url: parse("scope.schema_url"),
            log_attributes: parse("attributes"),
            resource_attributes: parse(
                "resource.attributes"),
            scope_attributes: parse("scope.attributes"),
        }
    }
}

proof fn lemma_joined_pair(a: Seq<char>, b: Seq<char>)
    ensures
        crate::text::joined(seq![a, b], seq!['.']) == a + seq!['.'] + b,
{
    assert(seq![a, b].drop_last() =~= seq![a]);
    assert(crate::text::joined(seq![a], seq!['.']) == a);
}

proof fn lemma_default_names()
    ensures
        crate::vrl_bridge::plain_field("message"@),
        crate::vrl_bridge::plain_field("severity_text"@),
        crate::vrl_bridge::plain_field("trace_id"@),
        crate::vrl_bridge::plain_field("span_id"@),
        crate::vrl_bridge::plain_field("event_name"@),
        crate::vrl_bridge::plain_field("resource"@),
        crate::vrl_bridge::plain_field("scope"@),
        crate::vrl_bridge::plain_field("schema_url"@),
        crate::vrl_bridge::plain_field("attributes"@),
        "resource.schema_url"@ == "resource"@ + seq!['.'] + "schema_url"@,
        "scope.schema_url"@ == "scope"@ + seq!['.'] + "schema_url"@,
        "resource.attributes"@ == "resource"@ + seq!['.'] + "attributes"@,
        "scope.attributes"@ == "scope"@ + seq!['.'] + "attributes"@,
{
    reveal_strlit("message");
    reveal_strlit("severity_text");
    reveal_strlit("trace_id");
    reveal_strlit("span_id");
    reveal_strlit("event_name");
    reveal_strlit("resource");
    reveal_strlit("scope");
    reveal_strlit("schema_url");
    reveal_strlit("attributes");
    reveal_strlit("resource.schema_url");
    reveal_strlit("scope.schema_url");
    reveal_strlit("resource.attributes");
    reveal_strlit("scope.attributes");
    assert("resource.schema_url"@ =~= "resource"@ + seq!['.'] + "schema_url"@);
    assert("scope.schema_url"@ =~= "scope"@ + seq!['.'] + "schema_url"@);
    assert("resource.attributes"@ =~= "resource"@ + seq!['.'] + "attributes"@);
    assert("scope.attributes"@ =~= "scope"@ + seq!['.'] + "attributes"@);
}

/// Reads a path that is known to be made of plain fields.
fn parse(path: &str) -> (r: ConfigValuePath)
    requires
        exists|fields: Seq<Seq<char>>|
            crate::vrl_bridge::plain_fields(fields) && #[trigger] crate::text::joined(
                fields,
                seq!['.'],
            ) == path@,
    ensures
        forall|fields: Seq<Seq<char>>|
            crate::vrl_bridge::plain_fields(fields) && #[trigger] crate::text::joined(
                fields,
                seq!['.'],
            ) == path@ ==> r@ == crate::vrl_bridge::field_steps(fields),
{
    proof {
        let fields = choose|fields: Seq<Seq<char>>|
            crate::vrl_bridge::plain_fields(fields) && #[trigger] crate::text::joined(
                fields,
                seq!['.'],
            ) == path@;
        crate::path::lemma_plain_text_fits(fields);
    }
    match ConfigValuePath::try_from(path.to_string()) {
        Ok(parsed) => parsed,
        Err(_) => ConfigValuePath { segments: Vec::new() },
    }
}

impl FieldMapping {
    /// `root` with `segments` appended, each as one field, whatever characters it has.
    pub fn append_segments(root: &ConfigValuePath, segments: &[String]) -> (r: ConfigValuePath)
        ensures
            r@ == root@ + crate::vrl_bridge::field_steps(crate::text::texts(segments@)),
    {
        let mut path = root.clone();
        let mut i: usize = 0;
        let ghost added = crate::vrl_bridge::field_steps(crate::text::texts(segments@));
        assert(path@ =~= root@ + added.take(0));
        while i < segments.len()
            invariant
                i <= segments@.len(),
                added == crate::vrl_bridge::field_steps(crate::text::texts(segments@)),
                path@ == root@ + added.take(i as int),
            decreases segments@.len() - i,
        {
            path = path.with_field_appended(segments[i].as_str());
            i = i + 1;
            assert(root@ + added.take(i as int) =~= (root@ + added.take(i - 1)).push(
                added[i - 1],
            ));
        }
        assert(added.take(i as int) =~= added);
        path
    }
}

} // verus!
