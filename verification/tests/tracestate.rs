use policy_transform::otlp_adapter::join_path;
use policy_transform::tracestate::merge_ot_tracestate;

#[test]
fn merging_into_nothing_makes_an_ot_entry() {
    assert_eq!(merge_ot_tracestate("", "th:8000"), "ot=th:8000");
    assert_eq!(merge_ot_tracestate(" , ,", "th:8000"), "ot=th:8000");
}

#[test]
fn merging_replaces_the_same_sub_key() {
    assert_eq!(merge_ot_tracestate("ot=th:4000", "th:8000"), "ot=th:8000");
    assert_eq!(
        merge_ot_tracestate("ot=rv:abc;th:4000;p:8", "th:8000"),
        "ot=rv:abc;p:8;th:8000",
    );
    // A sub-entry without a value is its own key.
    assert_eq!(merge_ot_tracestate("ot=th;rv:1", "th:8000"), "ot=rv:1;th:8000");
    // A longer key is another key.
    assert_eq!(merge_ot_tracestate("ot=thx:1", "th:8000"), "ot=thx:1;th:8000");
}

#[test]
fn merging_keeps_other_vendors_after_ot() {
    assert_eq!(
        merge_ot_tracestate("vendor=1,ot=th:1,congo=t61", "th:8000"),
        "ot=th:8000,vendor=1,congo=t61",
    );
    assert_eq!(merge_ot_tracestate("vendor=1", "th:8000"), "ot=th:8000,vendor=1");
    // `ot` is matched exactly, with its equals sign.
    assert_eq!(merge_ot_tracestate("otel=1,ot", "th:0"), "ot=th:0,otel=1,ot");
}

#[test]
fn merging_trims_white_space() {
    assert_eq!(
        merge_ot_tracestate("  ot= rv:1 ; ; th:1 \t,\u{a0}x=1\u{2003}, ", "th:2"),
        "ot=rv:1;th:2,x=1",
    );
}

#[test]
fn merging_gathers_several_ot_entries() {
    assert_eq!(merge_ot_tracestate("ot=a:1,v=1,ot=b:2", "c:3"), "ot=a:1;b:2;c:3,v=1");
}

#[test]
fn merging_twice_is_merging_once() {
    let once = merge_ot_tracestate("x=1,ot=p:8;th:1", "th:c");
    assert_eq!(once, "ot=p:8;th:c,x=1");
    assert_eq!(merge_ot_tracestate(&once, "th:c"), once);
}

#[test]
fn paths_are_joined_with_dots() {
    let path = |segments: &[&str]| -> Vec<String> {
        segments.iter().map(|segment| segment.to_string()).collect()
    };
    assert_eq!(join_path(&path(&[])), "");
    assert_eq!(join_path(&path(&["service.name"])), "service.name");
    assert_eq!(join_path(&path(&["http", "method"])), "http.method");
    assert_eq!(join_path(&path(&["a", "", "b"])), "a..b");
}
