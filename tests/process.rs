use json_diff::key_node::{KeyNode, Mismatch};
use json_diff::process::match_json;
use json_diff::value::{is_well_formed, JsonValue};

fn from_serde(v: &serde_json::Value) -> JsonValue {
    match v {
        serde_json::Value::Null => JsonValue::Null,
        serde_json::Value::Bool(b) => JsonValue::Bool(*b),
        serde_json::Value::Number(n) => JsonValue::Number(n.to_string()),
        serde_json::Value::String(s) => JsonValue::String(s.clone()),
        serde_json::Value::Array(xs) => JsonValue::Array(xs.iter().map(from_serde).collect()),
        serde_json::Value::Object(m) => {
            JsonValue::Object(m.iter().map(|(k, v)| (k.clone(), from_serde(v))).collect())
        }
    }
}

fn parse(text: &str) -> JsonValue {
    let v: serde_json::Value = serde_json::from_str(text).unwrap();
    from_serde(&v)
}

fn compare_jsons(a: &str, b: &str) -> Mismatch {
    let v1 = parse(a);
    let v2 = parse(b);
    assert!(is_well_formed(&v1) && is_well_formed(&v2));
    match_json(&v1, &v2)
}

fn copy_value(v: &JsonValue) -> JsonValue {
    v.copy()
}

/// The same tree with the children of every named node in key order.
fn sorted(n: &KeyNode) -> KeyNode {
    match n {
        KeyNode::Nil => KeyNode::Nil,
        KeyNode::Value(a, b) => KeyNode::Value(copy_value(a), copy_value(b)),
        KeyNode::Node(es) => {
            let mut out: Vec<(String, KeyNode)> = es.iter().map(|(k, c)| (k.clone(), sorted(c))).collect();
            out.sort_by(|x, y| x.0.cmp(&y.0));
            KeyNode::Node(out)
        }
        KeyNode::Array(es) => KeyNode::Array(es.iter().map(|(i, c)| (*i, sorted(c))).collect()),
    }
}

fn node(entries: Vec<(&str, KeyNode)>) -> KeyNode {
    KeyNode::Node(entries.into_iter().map(|(k, v)| (k.to_string(), v)).collect())
}

fn same(a: &KeyNode, b: &KeyNode) -> bool {
    sorted(a) == sorted(b)
}

fn num(t: &str) -> JsonValue {
    JsonValue::Number(t.to_string())
}

const NESTED_LEFT: &str = r#"{
    "a":"b",
    "b":{
        "c":{
            "d":true,
            "e":5,
            "f":9,
            "h":{
                "i":true,
                "j":false
            }
        }
    }
}"#;

const NESTED_RIGHT: &str = r#"{
    "a":"b",
    "b":{
        "c":{
            "d":true,
            "e":6,
            "g":0,
            "h":{
                "i":false,
                "k":false
            }
        }
    }
}"#;

fn check_nested(mismatch: &Mismatch) {
    let expected_left = node(vec![(
        "b",
        node(vec![(
            "c",
            node(vec![("f", KeyNode::Nil), ("h", node(vec![("j", KeyNode::Nil)]))]),
        )]),
    )]);
    let expected_right = node(vec![(
        "b",
        node(vec![(
            "c",
            node(vec![("g", KeyNode::Nil), ("h", node(vec![("k", KeyNode::Nil)]))]),
        )]),
    )]);
    let expected_uneq = node(vec![(
        "b",
        node(vec![(
            "c",
            node(vec![
                ("e", KeyNode::Value(num("5"), num("6"))),
                ("h", node(vec![("i", KeyNode::Value(JsonValue::Bool(true), JsonValue::Bool(false)))])),
            ]),
        )]),
    )]);
    assert!(same(&mismatch.left_only_keys, &expected_left), "Diff was incorrect.");
    assert!(same(&mismatch.right_only_keys, &expected_right), "Diff was incorrect.");
    assert!(same(&mismatch.keys_in_both, &expected_uneq), "Diff was incorrect.");
}

#[test]
fn main_nested_diff() {
    let mismatch = compare_jsons(NESTED_LEFT, NESTED_RIGHT);
    check_nested(&mismatch);
}

#[test]
fn process_nested_diff() {
    let mismatch = compare_jsons(NESTED_LEFT, NESTED_RIGHT);
    check_nested(&mismatch);
}

#[test]
fn main_no_diff() {
    assert_eq!(
        compare_jsons(NESTED_LEFT, NESTED_LEFT),
        Mismatch::new(KeyNode::Nil, KeyNode::Nil, KeyNode::Nil)
    );
}

#[test]
fn process_no_diff() {
    assert_eq!(
        compare_jsons(NESTED_LEFT, NESTED_LEFT),
        Mismatch::new(KeyNode::Nil, KeyNode::Nil, KeyNode::Nil)
    );
}

#[test]
fn main_no_json() {
    assert_eq!(compare_jsons("{}", "{}"), Mismatch::new(KeyNode::Nil, KeyNode::Nil, KeyNode::Nil));
}

#[test]
fn process_no_json() {
    assert_eq!(compare_jsons("{}", "{}"), Mismatch::new(KeyNode::Nil, KeyNode::Nil, KeyNode::Nil));
}

#[test]
fn test_arrays_simple_diff() {
    let diff = compare_jsons(r#"["a","b","c"]"#, r#"["a","b","d"]"#);
    assert_eq!(diff.left_only_keys, KeyNode::Nil);
    assert_eq!(diff.right_only_keys, KeyNode::Nil);
    let diff = diff.keys_in_both.absolute_keys_to_vec(None);
    assert_eq!(diff.len(), 1);
    assert_eq!(diff.first().unwrap().to_string(), r#"[l: 2]  -> { "c" != "d" }"#);
}

#[test]
fn test_arrays_more_complex_diff() {
    let diff = compare_jsons(r#"["a","b","c"]"#, r#"["a","a","b","d"]"#);
    let changes_diff = diff.keys_in_both.absolute_keys_to_vec(None);
    assert_eq!(diff.left_only_keys, KeyNode::Nil);
    assert_eq!(changes_diff.len(), 1);
    assert_eq!(changes_diff.first().unwrap().to_string(), r#"[l: 2]  -> { "c" != "d" }"#);
    let insertions = diff.right_only_keys.absolute_keys_to_vec(None);
    assert_eq!(insertions.len(), 1);
    assert_eq!(insertions.first().unwrap().to_string(), r#" [l: 0] - "a""#);
}

#[test]
fn test_arrays_extra_left() {
    let diff = compare_jsons(r#"["a","b","c"]"#, r#"["a","b"]"#);
    let diffs = diff.left_only_keys.absolute_keys_to_vec(None);
    assert_eq!(diffs.len(), 1);
    assert_eq!(diffs.first().unwrap().to_string(), r#" [l: 2] - "c""#);
    assert_eq!(diff.keys_in_both, KeyNode::Nil);
    assert_eq!(diff.right_only_keys, KeyNode::Nil);
}

#[test]
fn test_arrays_extra_right() {
    let diff = compare_jsons(r#"["a","b"]"#, r#"["a","b","c"]"#);
    let diffs = diff.right_only_keys.absolute_keys_to_vec(None);
    assert_eq!(diffs.len(), 1);
    assert_eq!(diffs.first().unwrap().to_string(), r#" [l: 2] - "c""#);
    assert_eq!(diff.keys_in_both, KeyNode::Nil);
    assert_eq!(diff.left_only_keys, KeyNode::Nil);
}

#[test]
fn long_insertion_modification() {
    let diff = compare_jsons(r#"["a","b","a"]"#, r#"["a","c","c","c","a"]"#);
    let diffs = diff.keys_in_both.absolute_keys_to_vec(None);
    assert_eq!(diffs.len(), 3);
    assert_eq!(diffs.last().unwrap().to_string(), r#"[l: 3]  -> { null != "c" }"#);
    assert_eq!(diff.right_only_keys, KeyNode::Nil);
    assert_eq!(diff.left_only_keys, KeyNode::Nil);
}

#[test]
fn test_arrays_object_extra() {
    let diff = compare_jsons(r#"["a","b"]"#, r#"["a","b", {"c": {"d": "e"} }]"#);
    let diffs = diff.right_only_keys.absolute_keys_to_vec(None);
    assert_eq!(diffs.len(), 1);
    assert_eq!(diffs.first().unwrap().to_string(), r#" [l: 2] - {"c":{"d":"e"}}"#);
    assert_eq!(diff.keys_in_both, KeyNode::Nil);
    assert_eq!(diff.left_only_keys, KeyNode::Nil);
}
