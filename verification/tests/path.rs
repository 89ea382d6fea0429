use policy_transform::field_mapping::FieldMapping;
use policy_transform::path::{path_indexes_fit, ConfigValuePath, PathParseError, PathSegment};
use policy_transform::value::Value;

fn json(text: &str) -> Value {
    let json: serde_json::Value = serde_json::from_str(text).unwrap();
    Value::from_vrl(vrl::value::Value::from(json))
}

fn path(text: &str) -> ConfigValuePath {
    ConfigValuePath::try_from(text.to_string()).unwrap()
}

fn field(name: &str) -> PathSegment {
    PathSegment::Field(name.to_string())
}

#[test]
fn paths_are_read() {
    assert_eq!(path("message").segments, vec![field("message")]);
    assert_eq!(path(".a.b_c.@d").segments, vec![field("a"), field("b_c"), field("@d")]);
    assert_eq!(
        path(r#"a."b.c"[3][-2].d"#).segments,
        vec![
            field("a"),
            field("b.c"),
            PathSegment::Index(3),
            PathSegment::Index(-2),
            field("d"),
        ],
    );
    assert_eq!(path(r#""q\"\\""#).segments, vec![field("q\"\\")]);
    assert!(path(".").segments.is_empty());
}

#[test]
fn texts_that_are_no_paths_are_refused() {
    for text in ["", "..", "a.", "a b", "a[", "a[x]", "\"open", "service\\.name"] {
        assert_eq!(
            ConfigValuePath::try_from(text.to_string()),
            Err(PathParseError::InvalidPathSyntax { path: text.to_string() }),
        );
    }
}

#[test]
fn paths_are_written_as_they_are_read() {
    for text in ["message", "a.b", r#"a."b.c""#, "a[3].b", "[-1]", r#""q\"\\".x"#] {
        assert_eq!(path(text).to_text(), text);
        assert_eq!(path(&path(text).to_text()), path(text));
    }
    assert_eq!(path(".a.b").to_text(), "a.b");
    assert_eq!(path("a-b").to_text(), "\"a-b\"");
    assert_eq!(path(".").to_text(), "");
}

#[test]
fn index_sizes_are_told() {
    assert!(path_indexes_fit("a[12].b[-3]"));
    assert!(path_indexes_fit("x99999999999999999999"));
    assert!(path_indexes_fit(r#""[99999999999999999999]""#));
    assert!(path_indexes_fit(r#""\"[99999999999999999999]""#));
    assert!(!path_indexes_fit("a[99999999999999999999]"));
    assert!(!path_indexes_fit("a[-99999999999999999999]"));
    assert!(path_indexes_fit(&format!("[{}]", isize::MAX)));
    assert!(path_indexes_fit(&format!("[{}]", isize::MIN)));
}

#[test]
fn reach_is_told() {
    assert!(path("a[12].b[-3]").in_reach());
    assert!(!path(&format!("a[{}]", isize::MAX)).in_reach());
    assert!(!path(&format!("a[{}]", isize::MIN)).in_reach());
    let mut mapping = FieldMapping::default();
    assert!(mapping.in_reach());
    mapping.span_id = path(&format!("a[{}]", isize::MAX));
    assert!(!mapping.in_reach());
}

#[test]
fn values_are_found_at_paths() {
    let value = json(r#"{"a": [{"b": 1}, {"b": 2}], "c": null}"#);
    let at = |text: &str| value.get_at(&path(text).segments).cloned();
    assert_eq!(at("a[1].b"), Some(Value::Integer(2)));
    assert_eq!(at("a[-2].b"), Some(Value::Integer(1)));
    assert_eq!(at("a[2]"), None);
    assert_eq!(at("a[-3]"), None);
    assert_eq!(at("a.b"), None);
    assert_eq!(at("c"), Some(Value::Null));
    assert_eq!(at("c.d"), None);
    assert_eq!(at("."), Some(value.clone()));
}

#[test]
fn values_are_put_at_paths() {
    let mut value = json(r#"{"a": 1}"#);
    assert_eq!(value.insert_at(&path("a").segments, Value::text("x")), Some(Value::Integer(1)));
    assert_eq!(value.insert_at(&path("b.c[2].d").segments, Value::Integer(5)), None);
    assert_eq!(value, json(r#"{"a": "x", "b": {"c": [null, null, {"d": 5}]}}"#));
    // A scalar on the way gives place to an object.
    assert_eq!(value.insert_at(&path("a.z").segments, Value::Null), None);
    // A negative index beyond the start pads in front.
    assert_eq!(value.insert_at(&path("b.c[-5]").segments, Value::Boolean(true)), None);
    assert_eq!(
        value,
        json(r#"{"a": {"z": null}, "b": {"c": [true, null, null, null, {"d": 5}]}}"#),
    );
    assert_eq!(
        value.insert_at(&path("b.c[-1]").segments, Value::Null),
        Some(json(r#"{"d": 5}"#)),
    );
    let whole = value.clone();
    assert_eq!(value.insert_at(&path(".").segments, Value::Integer(7)), Some(whole));
    assert_eq!(value, Value::Integer(7));
}

#[test]
fn values_are_removed_at_paths() {
    let mut value = json(r#"{"a": {"b": 1}, "c": [1, 2, 3], "d": "x"}"#);
    assert_eq!(value.remove_at(&path("a.b").segments), Some(Value::Integer(1)));
    assert_eq!(value.remove_at(&path("a.b").segments), None);
    // The items behind a removed one move up.
    assert_eq!(value.remove_at(&path("c[0]").segments), Some(Value::Integer(1)));
    assert_eq!(value.remove_at(&path("c[-1]").segments), Some(Value::Integer(3)));
    assert_eq!(value, json(r#"{"a": {}, "c": [2], "d": "x"}"#));
    let whole = value.clone();
    assert_eq!(value.remove_at(&path(".").segments), Some(whole));
    assert_eq!(value, json(r#"{}"#));
    let mut scalar = Value::Integer(1);
    assert_eq!(scalar.remove_at(&path(".").segments), Some(Value::Integer(1)));
    assert_eq!(scalar, Value::Null);
}
