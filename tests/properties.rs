use json_diff::key_node::{KeyNode, Mismatch};
use json_diff::keys::{get_map_of_keys, intersect_maps};
use json_diff::align::ListDiffHandler;
use json_diff::process::{classify_runs, insert_child_key_map, leaf_mismatch, match_json};
use json_diff::text::value_text;
use json_diff::value::{is_well_formed, json_equal, JsonValue};

fn s(t: &str) -> JsonValue {
    JsonValue::String(t.to_string())
}

fn num(t: &str) -> JsonValue {
    JsonValue::Number(t.to_string())
}

fn arr(items: Vec<JsonValue>) -> JsonValue {
    JsonValue::Array(items)
}

fn obj(entries: Vec<(&str, JsonValue)>) -> JsonValue {
    JsonValue::Object(entries.into_iter().map(|(k, v)| (k.to_string(), v)).collect())
}

fn nested_left() -> JsonValue {
    obj(vec![("b", obj(vec![("c", obj(vec![("e", num("5")), ("f", num("9"))]))]))])
}

fn nested_right() -> JsonValue {
    obj(vec![("b", obj(vec![("c", obj(vec![("e", num("6")), ("g", num("0"))]))]))])
}

fn all_nil() -> Mismatch {
    Mismatch::new(KeyNode::Nil, KeyNode::Nil, KeyNode::Nil)
}

#[test]
fn identity_gives_no_difference() {
    let v = obj(vec![
        ("a", arr(vec![s("x"), num("1"), JsonValue::Null])),
        ("b", obj(vec![("c", JsonValue::Bool(true))])),
    ]);
    assert_eq!(match_json(&v, &v), all_nil());
    let w = arr(vec![s("a"), s("a"), obj(vec![("k", arr(vec![]))])]);
    assert_eq!(match_json(&w, &w), all_nil());
}

#[test]
fn swapping_sides_swaps_left_and_right() {
    let a = nested_left();
    let b = nested_right();
    let ab = match_json(&a, &b);
    let ba = match_json(&b, &a);
    assert_eq!(ab.left_only_keys, ba.right_only_keys);
    assert_eq!(ab.right_only_keys, ba.left_only_keys);
    let line_ab = ab.keys_in_both.absolute_keys_to_vec(None);
    let line_ba = ba.keys_in_both.absolute_keys_to_vec(None);
    assert_eq!(line_ab, vec![" b -> c -> e -> { 5 != 6 }".to_string()]);
    assert_eq!(line_ba, vec![" b -> c -> e -> { 6 != 5 }".to_string()]);
}

#[test]
fn scalars_swap_in_the_leaf() {
    let ab = match_json(&num("1"), &s("1"));
    let ba = match_json(&s("1"), &num("1"));
    assert_eq!(ab.keys_in_both, KeyNode::Value(num("1"), s("1")));
    assert_eq!(ba.keys_in_both, KeyNode::Value(s("1"), num("1")));
}

#[test]
fn mismatch_nodes_hold_no_nil_child() {
    let m = match_json(&nested_left(), &nested_right());
    fn check(n: &KeyNode) {
        match n {
            KeyNode::Node(es) => {
                assert!(!es.is_empty());
                for (_, c) in es {
                    assert_ne!(*c, KeyNode::Nil);
                    check(c);
                }
            }
            KeyNode::Array(es) => {
                assert!(!es.is_empty());
                for (_, c) in es {
                    assert_ne!(*c, KeyNode::Nil);
                    check(c);
                }
            }
            _ => {}
        }
    }
    check(&m.keys_in_both);
}

#[test]
fn object_against_other_shapes_is_one_leaf() {
    let o = obj(vec![("a", num("1"))]);
    for other in [arr(vec![num("1")]), num("1"), s("a"), JsonValue::Null, JsonValue::Bool(false)] {
        let m = match_json(&o, &other);
        assert_eq!(m.left_only_keys, KeyNode::Nil);
        assert_eq!(m.right_only_keys, KeyNode::Nil);
        assert_eq!(m.keys_in_both, KeyNode::Value(o.copy(), other.copy()));
    }
}

#[test]
fn array_replace_position_walk() {
    let m = match_json(&arr(vec![s("a"), s("b"), s("c")]), &arr(vec![s("a"), s("b"), s("d")]));
    assert_eq!(m.left_only_keys, KeyNode::Nil);
    assert_eq!(m.right_only_keys, KeyNode::Nil);
    assert_eq!(m.keys_in_both, KeyNode::Array(vec![(2, KeyNode::Value(s("c"), s("d")))]));
}

#[test]
fn array_insertion() {
    let m = match_json(&arr(vec![s("a"), s("b"), s("c")]), &arr(vec![s("a"), s("a"), s("b"), s("d")]));
    assert_eq!(m.keys_in_both, KeyNode::Array(vec![(2, KeyNode::Value(s("c"), s("d")))]));
    assert_eq!(m.right_only_keys, KeyNode::Node(vec![("[l: 0] - \"a\"".to_string(), KeyNode::Nil)]));
    assert_eq!(m.left_only_keys, KeyNode::Nil);
}

#[test]
fn nested_object_paths() {
    let m = match_json(&nested_left(), &nested_right());
    assert_eq!(m.left_only_keys.absolute_keys_to_vec(None), vec![" b -> c -> f".to_string()]);
    assert_eq!(m.right_only_keys.absolute_keys_to_vec(None), vec![" b -> c -> g".to_string()]);
    assert_eq!(m.keys_in_both.absolute_keys_to_vec(None), vec![" b -> c -> e -> { 5 != 6 }".to_string()]);
}

#[test]
fn empty_objects_are_equal() {
    assert_eq!(match_json(&obj(vec![]), &obj(vec![])), all_nil());
    assert_eq!(match_json(&arr(vec![]), &arr(vec![])), all_nil());
}

#[test]
fn empty_against_non_empty_array() {
    let m = match_json(&arr(vec![]), &arr(vec![s("x"), s("y")]));
    assert_eq!(m.keys_in_both, KeyNode::Nil);
    assert_eq!(m.left_only_keys, KeyNode::Nil);
    assert_eq!(
        m.right_only_keys.absolute_keys_to_vec(None),
        vec![" [l: 0] - \"x\"".to_string(), " [l: 1] - \"y\"".to_string()]
    );
}

#[test]
fn rendering_counts_paths() {
    assert!(KeyNode::Nil.absolute_keys_to_vec(None).is_empty());
    let m = match_json(&nested_left(), &nested_right());
    let t = &m.left_only_keys;
    assert_eq!(t.absolute_keys_to_vec(None).len(), 1);
    let big = obj(vec![("a", num("1")), ("b", num("2")), ("c", arr(vec![num("1"), num("2")]))]);
    let other = obj(vec![("a", num("3")), ("b", num("4")), ("c", arr(vec![num("5"), num("6")]))]);
    let m = match_json(&big, &other);
    assert_eq!(m.keys_in_both.absolute_keys_to_vec(None).len(), 4);
}

#[test]
fn rendering_with_a_prefix() {
    let lines = KeyNode::Nil.absolute_keys_to_vec(Some("root".to_string()));
    assert_eq!(lines, vec!["root".to_string()]);
    let leaf = KeyNode::Value(JsonValue::Null, JsonValue::Bool(true));
    assert_eq!(leaf.absolute_keys_to_vec(Some("p".to_string())), vec!["p -> { null != true }".to_string()]);
}

#[test]
fn long_array_positions_use_all_digits() {
    let mut left: Vec<JsonValue> = Vec::new();
    let mut right: Vec<JsonValue> = Vec::new();
    for i in 0..12 {
        left.push(num(&i.to_string()));
        right.push(num(&i.to_string()));
    }
    right.push(s("z"));
    let m = match_json(&arr(left), &arr(right));
    assert_eq!(m.right_only_keys.absolute_keys_to_vec(None), vec![" [l: 12] - \"z\"".to_string()]);
}

#[test]
fn strings_are_quoted_and_escaped() {
    assert_eq!(value_text(&s("a\"b")), "\"a\\\"b\"");
    assert_eq!(value_text(&s("x\ny")), "\"x\\ny\"");
    assert_eq!(value_text(&s("\u{1}\u{1f}\t/é")), "\"\\u0001\\u001f\\t/é\"");
    let v = obj(vec![("k", arr(vec![JsonValue::Null, JsonValue::Bool(false), num("1.5")]))]);
    assert_eq!(value_text(&v), "{\"k\":[null,false,1.5]}");
}

#[test]
fn equality_ignores_key_order() {
    let a = obj(vec![("x", num("1")), ("y", num("2"))]);
    let b = obj(vec![("y", num("2")), ("x", num("1"))]);
    assert!(json_equal(&a, &b));
    assert!(!json_equal(&a, &obj(vec![("x", num("1"))])));
    assert!(!json_equal(&num("1"), &num("1.0")));
    assert_eq!(leaf_mismatch(&a, &b), all_nil());
}

#[test]
fn duplicate_keys_are_not_well_formed() {
    assert!(is_well_formed(&obj(vec![("a", num("1")), ("b", num("1"))])));
    assert!(!is_well_formed(&obj(vec![("a", num("1")), ("a", num("2"))])));
    assert!(!is_well_formed(&arr(vec![obj(vec![("a", num("1")), ("a", num("2"))])])));
}

#[test]
fn key_partition() {
    let a = vec![("a".to_string(), num("1")), ("b".to_string(), num("2"))];
    let b = vec![("b".to_string(), num("3")), ("c".to_string(), num("4"))];
    let d = intersect_maps(&a, &b);
    assert_eq!(d.left_only, Some(vec!["a".to_string()]));
    assert_eq!(d.right_only, Some(vec!["c".to_string()]));
    assert_eq!(d.intersection, Some(vec!["b".to_string()]));
    let same = intersect_maps(&a, &a);
    assert_eq!(same.left_only, None);
    assert_eq!(same.right_only, None);
    assert_eq!(get_map_of_keys(None), KeyNode::Nil);
    assert_eq!(
        get_map_of_keys(Some(vec!["k".to_string()])),
        KeyNode::Node(vec![("k".to_string(), KeyNode::Nil)])
    );
}

#[test]
fn grafting_children() {
    let key = "k".to_string();
    assert_eq!(insert_child_key_map(KeyNode::Nil, KeyNode::Nil, &key), KeyNode::Nil);
    let child = KeyNode::Value(num("1"), num("2"));
    let grafted = insert_child_key_map(KeyNode::Nil, child, &key);
    assert_eq!(grafted, KeyNode::Node(vec![("k".to_string(), KeyNode::Value(num("1"), num("2")))]));
}

#[test]
fn grafting_replaces_an_entry_under_the_same_key() {
    let key = "k".to_string();
    let parent = KeyNode::Node(vec![("j".to_string(), KeyNode::Nil), ("k".to_string(), KeyNode::Nil)]);
    let grafted = insert_child_key_map(parent, KeyNode::Value(num("1"), num("2")), &key);
    assert_eq!(
        grafted,
        KeyNode::Node(vec![
            ("j".to_string(), KeyNode::Nil),
            ("k".to_string(), KeyNode::Value(num("1"), num("2"))),
        ])
    );
}

#[test]
fn array_nodes_render_in_ascending_index_order() {
    let n = KeyNode::Array(vec![
        (2, KeyNode::Value(s("c"), s("d"))),
        (1, KeyNode::Value(s("a"), s("b"))),
        (2, KeyNode::Value(s("e"), s("f"))),
    ]);
    assert_eq!(
        n.absolute_keys_to_vec(None),
        vec![
            "[l: 1]  -> { \"a\" != \"b\" }".to_string(),
            "[l: 2]  -> { \"c\" != \"d\" }".to_string(),
            "[l: 2]  -> { \"e\" != \"f\" }".to_string(),
        ]
    );
}

#[test]
fn classifying_given_runs() {
    let a = vec![s("a"), s("b"), s("c")];
    let b = vec![s("x"), s("b"), s("c"), s("d")];
    let runs = ListDiffHandler::new(vec![(0, 1, 0, 1)], vec![], vec![(3, 1)]);
    let m = classify_runs(&a, &b, &runs);
    assert_eq!(m.left_only_keys, KeyNode::Nil);
    assert_eq!(m.keys_in_both, KeyNode::Array(vec![(0, KeyNode::Value(s("a"), s("x")))]));
    assert_eq!(m.right_only_keys, KeyNode::Node(vec![("[l: 3] - \"d\"".to_string(), KeyNode::Nil)]));
    let deleted = ListDiffHandler::new(vec![], vec![(1, 2)], vec![]);
    let m = classify_runs(&a, &b, &deleted);
    assert_eq!(
        m.left_only_keys.absolute_keys_to_vec(None),
        vec![" [l: 1] - \"b\"".to_string(), " [l: 2] - \"c\"".to_string()]
    );
}
