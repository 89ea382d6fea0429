use policy_transform::otlp::{hex_decode_ids, hex_encode_ids};
use policy_transform::value::{ObjectMap, Value};

fn obj(pairs: Vec<(&str, Value)>) -> Value {
    let mut object = ObjectMap::new();
    for (key, value) in pairs {
        object.insert(key.to_string(), value);
    }
    Value::Object(object)
}

#[test]
fn round_trips_span_id() {
    let raw = b"span0001".to_vec();
    let mut tree = obj(vec![("spanId", Value::Bytes(raw.clone()))]);
    hex_encode_ids(&mut tree);
    assert_eq!(
        tree.get("spanId").unwrap(),
        &Value::Bytes(b"7370616e30303031".to_vec()),
    );
    hex_decode_ids(&mut tree);
    assert_eq!(
        tree.get("spanId").unwrap(),
        &Value::Bytes(raw),
    );
}

#[test]
fn walks_nested_arrays() {
    let mut tree = obj(vec![(
        "resourceSpans",
        Value::Array(vec![obj(vec![(
            "spans",
            Value::Array(vec![obj(vec![(
                "traceId",
                Value::Bytes(vec![0x12, 0x34]),
            )])]),
        )])]),
    )]);
    hex_encode_ids(&mut tree);
    let trace_id = tree
        .get("resourceSpans")
        .unwrap()
        .as_array()
        .unwrap()[0]
        .get("spans")
        .unwrap()
        .as_array()
        .unwrap()[0]
        .get("traceId")
        .unwrap();
    assert_eq!(trace_id, &Value::Bytes(b"1234".to_vec()));
}

#[test]
fn leaves_attribute_key_named_span_id_untouched() {
    // A user attribute whose *key string* is "spanId" lives under the "key"
    // field, not as an object field named spanId, so it must not be touched.
    let mut tree = obj(vec![(
        "attributes",
        Value::Array(vec![obj(vec![
            ("key", Value::text("spanId")),
            ("value", obj(vec![("stringValue", Value::text("not-an-id"))])),
        ])]),
    )]);
    let before = tree.clone();
    hex_encode_ids(&mut tree);
    assert_eq!(tree, before);
}
