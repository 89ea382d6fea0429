use policy_transform::adapter::value_to_match_string;
use policy_transform::text::{compare_text, decimal_text, same_text, TextOrder};
use policy_transform::value::{ObjectMap, Value};
use vrl::value::Value as VrlValue;

#[test]
fn objects_hold_each_key_once() {
    let mut object = ObjectMap::new();
    assert_eq!(object.insert("b".to_string(), Value::Integer(1)), None);
    assert_eq!(object.insert("a".to_string(), Value::Integer(2)), None);
    assert_eq!(object.insert("b".to_string(), Value::Integer(3)), Some(Value::Integer(1)));
    assert_eq!(object.get("b"), Some(&Value::Integer(3)));
    assert_eq!(object.get("c"), None);
    let mut same = ObjectMap::new();
    same.insert("a".to_string(), Value::Integer(2));
    same.insert("b".to_string(), Value::Integer(3));
    assert_eq!(object, same);
    assert_eq!(object.remove("a"), Some(Value::Integer(2)));
    assert_eq!(object.remove("a"), None);
    assert_ne!(object, same);
}

#[test]
fn values_survive_the_way_through_vrl() {
    let json: serde_json::Value =
        serde_json::from_str(r#"{"z": [1, 2.5, true, null, "x"], "a": {"": -7}}"#).unwrap();
    let outside = VrlValue::from(json);
    let value = Value::from_vrl(outside.clone());
    assert_eq!(value.get("a").and_then(|a| a.get("")), Some(&Value::Integer(-7)));
    assert_eq!(value.clone().into_vrl(), outside);
    assert_eq!(Value::from_vrl(value.clone().into_vrl()), value);
    let time = VrlValue::Timestamp(chrono::Utc::now());
    assert_eq!(Value::from_vrl(time.clone()).into_vrl(), time);
    assert_ne!(Value::from_vrl(time.clone()), Value::Null);
}

#[test]
fn bytes_show_as_text() {
    assert_eq!(Value::text("grün").as_str().as_deref(), Some("grün"));
    assert_eq!(
        Value::Bytes(vec![b'a', 0xff, b'b']).as_str().as_deref(),
        Some("a\u{fffd}b"),
    );
    assert_eq!(Value::Integer(1).as_str(), None);
}

#[test]
fn only_valid_utf8_is_matched_in_flat_mode() {
    assert_eq!(value_to_match_string(&Value::text("grün")).as_deref(), Some("grün"));
    assert_eq!(value_to_match_string(&Value::Bytes(vec![0xff])), None);
    assert_eq!(value_to_match_string(&Value::Boolean(false)).as_deref(), Some("false"));
    assert_eq!(
        value_to_match_string(&Value::from_vrl(VrlValue::from_f64_or_zero(-0.25))).as_deref(),
        Some("-0.25"),
    );
    assert_eq!(value_to_match_string(&Value::Null), None);
    assert_eq!(value_to_match_string(&Value::Array(vec![])), None);
    assert_eq!(value_to_match_string(&Value::Object(ObjectMap::new())), None);
}

#[test]
fn integers_in_decimal() {
    for n in [0, 7, 10, 42, -1, -10, 1_000_000, i64::MAX, i64::MIN] {
        assert_eq!(decimal_text(n), n.to_string());
    }
}

#[test]
fn texts_compare_as_strings_do() {
    let texts = ["", "a", "ab", "b", "é", "z", "\u{10000}", "\u{ffff}"];
    for a in texts {
        for b in texts {
            let expected = if a < b {
                TextOrder::Before
            } else if a == b {
                TextOrder::Same
            } else {
                TextOrder::After
            };
            assert_eq!(compare_text(a, b), expected);
            assert_eq!(same_text(a, b), a == b);
        }
    }
}
