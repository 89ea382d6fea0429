//! One OTLP metric, with its resource and scope, as policies read it.
//!
//! Metrics are filtered and never changed. A metric is matched by its descriptor, its type and
//! temporality, and the attributes of its first data point.

use crate::otlp_common::{
    attribute_exists_path, field_in, find_attribute_path, non_empty, RecordTree,
};
use crate::selector::{MetricField, MetricFieldSelector};
use crate::value::{Tree, Value};
use vstd::prelude::*;

verus! {

broadcast use crate::value::lemma_array_view;

/// The data of a metric with the name of its type: the first of the known sorts that it has.
pub open spec fn metric_data(metric: Tree) -> Option<(Tree, Seq<char>)> {
    match metric.field("gauge"@) {
        Some(data) => Some((data, "METRIC_TYPE_GAUGE"@)),
        None => match metric.field("sum"@) {
            Some(data) => Some((data, "METRIC_TYPE_SUM"@)),
            None => match metric.field("histogram"@) {
                Some(data) => Some((data, "METRIC_TYPE_HISTOGRAM"@)),
                None => match metric.field("exponentialHistogram"@) {
                    Some(data) => Some((data, "METRIC_TYPE_EXPONENTIAL_HISTOGRAM"@)),
                    None => match metric.field("summary"@) {
                        Some(data) => Some((data, "METRIC_TYPE_SUMMARY"@)),
                        None => None,
                    },
                },
            },
        },
    }
}

/// The attributes of a metric's first data point.
pub open spec fn first_point_attributes(metric: Tree) -> Option<Tree> {
    match metric_data(metric) {
        Some((data, _)) => match crate::otlp_common::items_of(data.field("dataPoints"@)) {
            Some(points) => if points.len() > 0 {
                points[0].field("attributes"@)
            } else {
                None
            },
            None => None,
        },
        None => None,
    }
}

impl RecordTree {
    /// The text that a field of a metric is matched by.
    pub open spec fn metric_text(self, selector: MetricFieldSelector) -> Option<Seq<char>> {
        match selector {
            MetricFieldSelector::Simple(field) => match field {
                MetricField::Name => crate::otlp_common::non_empty_text(
                    self.record.field("name"@),
                ),
                MetricField::Description => crate::otlp_common::non_empty_text(
                    self.record.field("description"@),
                ),
                MetricField::Unit => crate::otlp_common::non_empty_text(
                    self.record.field("unit"@),
                ),
                MetricField::ScopeName => crate::otlp_common::non_empty_text(
                    crate::otlp_common::field_of(self.scope, "name"@),
                ),
                MetricField::ScopeVersion => crate::otlp_common::non_empty_text(
                    crate::otlp_common::field_of(self.scope, "version"@),
                ),
                MetricField::ResourceSchemaUrl => crate::otlp_common::non_empty_text(
                    self.resource_schema_url,
                ),
                MetricField::ScopeSchemaUrl => crate::otlp_common::non_empty_text(
                    self.scope_schema_url,
                ),
                MetricField::Unspecified => None,
            },
            MetricFieldSelector::DatapointAttribute(path) => crate::otlp_common::any_value_text(
                crate::otlp_common::attribute_in(
                    first_point_attributes(self.record),
                    crate::text::texts(path@),
                ),
            ),
            MetricFieldSelector::ResourceAttribute(path) => crate::otlp_common::any_value_text(
                crate::otlp_common::attribute_in(
                    crate::otlp_common::field_of(self.resource, "attributes"@),
                    crate::text::texts(path@),
                ),
            ),
            MetricFieldSelector::ScopeAttribute(path) => crate::otlp_common::any_value_text(
                crate::otlp_common::attribute_in(
                    crate::otlp_common::field_of(self.scope, "attributes"@),
                    crate::text::texts(path@),
                ),
            ),
            MetricFieldSelector::Type => match metric_data(self.record) {
                Some((_, name)) => Some(name),
                None => None,
            },
            MetricFieldSelector::Temporality => match metric_data(self.record) {
                Some((data, _)) => crate::otlp_common::non_empty_text(
                    data.field("aggregationTemporality"@),
                ),
                None => None,
            },
        }
    }

    /// A field of a metric counts as present.
    pub open spec fn metric_has(self, selector: MetricFieldSelector) -> bool {
        match selector {
            MetricFieldSelector::DatapointAttribute(path) =>
                crate::otlp_common::any_value_is_present(
                crate::otlp_common::attribute_in(
                    first_point_attributes(self.record),
                    crate::text::texts(path@),
                ),
            ),
            MetricFieldSelector::ResourceAttribute(path) =>
                crate::otlp_common::any_value_is_present(
                crate::otlp_common::attribute_in(
                    crate::otlp_common::field_of(self.resource, "attributes"@),
                    crate::text::texts(path@),
                ),
            ),
            MetricFieldSelector::ScopeAttribute(path) => crate::otlp_common::any_value_is_present(
                crate::otlp_common::attribute_in(
                    crate::otlp_common::field_of(self.scope, "attributes"@),
                    crate::text::texts(path@),
                ),
            ),
            _ => self.metric_text(selector) is Some,
        }
    }
}

/// One metric of an OTLP envelope, with its resource and scope.
pub struct MetricAdapter<'a> {
    pub metric: &'a Value,
    pub resource: Option<&'a Value>,
    pub scope: Option<&'a Value>,
    pub resource_schema_url: Option<&'a Value>,
    pub scope_schema_url: Option<&'a Value>,
}

impl<'a> MetricAdapter<'a> {
    /// The metric as it stands.
    pub open spec fn view(self) -> RecordTree {
        RecordTree {
            record: self.metric@,
            resource: crate::value::tree_at(self.resource),
            scope: crate::value::tree_at(self.scope),
            resource_schema_url: crate::value::tree_at(self.resource_schema_url),
            scope_schema_url: crate::value::tree_at(self.scope_schema_url),
        }
    }

    /// The metric's data with the name of its type.
    fn data(&self) -> (r: Option<(&'a Value, &'static str)>)
        ensures
            match r {
                Some((data, name)) => metric_data(self.metric@) == Some((data@, name@)),
                None => metric_data(self.metric@) is None,
            },
    {
        if let Some(data) = self.metric.get("gauge") {
            return Some((data, "METRIC_TYPE_GAUGE"));
        }
        if let Some(data) = self.metric.get("sum") {
            return Some((data, "METRIC_TYPE_SUM"));
        }
        if let Some(data) = self.metric.get("histogram") {
            return Some((data, "METRIC_TYPE_HISTOGRAM"));
        }
        if let Some(data) = self.metric.get("exponentialHistogram") {
            return Some((data, "METRIC_TYPE_EXPONENTIAL_HISTOGRAM"));
        }
        if let Some(data) = self.metric.get("summary") {
            return Some((data, "METRIC_TYPE_SUMMARY"));
        }
        None
    }

    /// The attributes of the first data point.
    fn first_datapoint_attributes(&self) -> (r: Option<&'a Value>)
        ensures
            crate::value::tree_at(r) == first_point_attributes(self.metric@),
    {
        let (data, _) = self.data()?;
        let points = data.get("dataPoints")?.as_array()?;
        if points.len() > 0 {
            points[0].get("attributes")
        } else {
            None
        }
    }

    /// The text that a field is matched by.
    pub fn get_field(&self, field: &MetricFieldSelector) -> (r: Option<String>)
        ensures
            crate::value::text_of(r) == self@.metric_text(*field),
    {
        match field {
            MetricFieldSelector::Simple(simple) => match simple {
                MetricField::Name => non_empty(self.metric.get("name")),
                MetricField::Description => non_empty(self.metric.get("description")),
                MetricField::Unit => non_empty(self.metric.get("unit")),
                MetricField::ScopeName => non_empty(field_in(self.scope, "name")),
                MetricField::ScopeVersion => non_empty(field_in(self.scope, "version")),
                MetricField::ResourceSchemaUrl => non_empty(self.resource_schema_url),
                MetricField::ScopeSchemaUrl => non_empty(self.scope_schema_url),
                MetricField::Unspecified => None,
            },
            MetricFieldSelector::DatapointAttribute(path) => find_attribute_path(
                self.first_datapoint_attributes(),
                path.as_slice(),
            ),
            MetricFieldSelector::ResourceAttribute(path) => find_attribute_path(
                field_in(self.resource, "attributes"),
                path.as_slice(),
            ),
            MetricFieldSelector::ScopeAttribute(path) => find_attribute_path(
                field_in(self.scope, "attributes"),
                path.as_slice(),
            ),
            MetricFieldSelector::Type => {
                let (_, name) = self.data()?;
                Some(name.to_string())
            },
            MetricFieldSelector::Temporality => {
                let (data, _) = self.data()?;
                non_empty(data.get("aggregationTemporality"))
            },
        }
    }

    /// Whether a field counts as present.
    pub fn field_exists(&self, field: &MetricFieldSelector) -> (r: bool)
        ensures
            r == self@.metric_has(*field),
    {
        match field {
            MetricFieldSelector::DatapointAttribute(path) => attribute_exists_path(
                self.first_datapoint_attributes(),
                path.as_slice(),
            ),
            MetricFieldSelector::ResourceAttribute(path) => attribute_exists_path(
                field_in(self.resource, "attributes"),
                path.as_slice(),
            ),
            MetricFieldSelector::ScopeAttribute(path) => attribute_exists_path(
                field_in(self.scope, "attributes"),
                path.as_slice(),
            ),
            _ => self.get_field(field).is_some(),
        }
    }
}

/// A field of a metric that is matched by a text is present.
pub proof fn law_matched_metric_field_is_present(metric: RecordTree, selector: MetricFieldSelector)
    ensures
        metric.metric_text(selector) is Some ==> metric.metric_has(selector),
{
}

} // verus!
