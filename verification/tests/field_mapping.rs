use policy_transform::field_mapping::FieldMapping;
use policy_transform::path::ConfigValuePath;

#[test]
fn default_paths_render_as_expected() {
    let m = FieldMapping::default();
    assert_eq!(m.body.to_text(), "message");
    assert_eq!(m.severity_text.to_text(), "severity_text");
    assert_eq!(m.trace_id.to_text(), "trace_id");
    assert_eq!(m.span_id.to_text(), "span_id");
    assert_eq!(m.event_name.to_text(), "event_name");
    assert_eq!(
        m.resource_schema_url.to_text(),
        "resource.schema_url"
    );
    assert_eq!(m.scope_schema_url.to_text(), "scope.schema_url");
    assert_eq!(m.log_attributes.to_text(), "attributes");
    assert_eq!(
        m.resource_attributes.to_text(),
        "resource.attributes"
    );
    assert_eq!(m.scope_attributes.to_text(), "scope.attributes");
}

#[test]
fn append_single_segment() {
    let m = FieldMapping::default();
    let path = FieldMapping::append_segments(&m.log_attributes, &["user_id".to_string()]);
    assert_eq!(path.to_text(), "attributes.user_id");
}

#[test]
fn append_nested_segments() {
    let m = FieldMapping::default();
    let path = FieldMapping::append_segments(
        &m.log_attributes,
        &["http".to_string(), "method".to_string()],
    );
    assert_eq!(path.to_text(), "attributes.http.method");
}

#[test]
fn append_no_segments_returns_root() {
    let m = FieldMapping::default();
    let path = FieldMapping::append_segments(&m.resource_attributes, &[]);
    assert_eq!(path.to_text(), "resource.attributes");
}

#[test]
fn segment_with_special_chars_is_quoted() {
    let m = FieldMapping::default();
    let path = FieldMapping::append_segments(&m.log_attributes, &["http.method".to_string()]);
    // The dot inside the segment must be escaped/quoted in the rendered path.
    assert_eq!(path.to_text(), "attributes.\"http.method\"");
}

#[test]
fn default_paths_read_back() {
    let m = FieldMapping::default();
    for path in [
        &m.body,
        &m.severity_text,
        &m.trace_id,
        &m.span_id,
        &m.event_name,
        &m.resource_schema_url,
        &m.scope_schema_url,
        &m.log_attributes,
        &m.resource_attributes,
        &m.scope_attributes,
    ] {
        assert_eq!(ConfigValuePath::try_from(path.to_text()).as_ref(), Ok(path));
    }
    assert_eq!(m.clone(), m);
}
