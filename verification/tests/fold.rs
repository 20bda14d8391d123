use engulf::flamegraph::{
    embedded_document, fold_json_to_stacks, total_weight_of, try_fold_json_to_stacks, FlameOpts,
};
use engulf::json::Json;
use std::collections::HashMap;

fn num(text: &str) -> Json {
    Json::Number(text.to_string())
}

fn text(s: &str) -> Json {
    Json::String(s.to_string())
}

fn object(members: Vec<(&str, Json)>) -> Json {
    Json::Object(members.into_iter().map(|(k, v)| (k.to_string(), v)).collect())
}

fn group_by(keys: &[&str]) -> FlameOpts {
    FlameOpts { group_keys: keys.iter().map(|k| k.to_string()).collect() }
}

fn to_map(stacks: Vec<(String, u64)>) -> HashMap<String, u64> {
    stacks.into_iter().collect()
}

fn json_len_str(value: &str) -> u64 {
    serde_json::to_string(value).unwrap().len() as u64
}

fn json_len_int(value: i64) -> u64 {
    serde_json::to_string(&value).unwrap().len() as u64
}

fn entry(path: &str, weight: u64) -> (String, u64) {
    (path.to_string(), weight)
}

#[test]
fn folds_simple_object() {
    let v = object(vec![("a", num("1")), ("b", num("2"))]);
    let stacks = fold_json_to_stacks(&v, &FlameOpts::default());
    let map = to_map(stacks);

    assert_eq!(map.get("a"), Some(&1));
    assert_eq!(map.get("b"), Some(&1));
    assert_eq!(map.len(), 2);
}

#[test]
fn folds_embedded_json_string() {
    let v = object(vec![("x", text("{\"y\": 1}"))]);
    let stacks = fold_json_to_stacks(&v, &FlameOpts::default());
    let map = to_map(stacks);

    assert_eq!(map.get("x;y"), Some(&1));
    assert_eq!(map.len(), 1);
}

#[test]
fn folds_grouped_array_entries() {
    let v = object(vec![(
        "items",
        Json::Array(vec![
            object(vec![("type", text("a")), ("size", num("10"))]),
            object(vec![("type", text("b")), ("size", num("5"))]),
        ]),
    )]);
    let opts = FlameOpts { group_keys: vec!["type".to_string()] };
    let stacks = fold_json_to_stacks(&v, &opts);
    let map = to_map(stacks);

    assert_eq!(map.get("items;[];type=a;type"), Some(&json_len_str("a")));
    assert_eq!(map.get("items;[];type=a;size"), Some(&json_len_int(10)));
    assert_eq!(map.get("items;[];type=b;type"), Some(&json_len_str("b")));
    assert_eq!(map.get("items;[];type=b;size"), Some(&json_len_int(5)));
    assert_eq!(map.len(), 4);
}

#[test]
fn simple_object_folds_to_exactly_two_ordered_entries() {
    let v = object(vec![("b", num("2")), ("a", num("1"))]);
    let stacks = fold_json_to_stacks(&v, &FlameOpts::default());
    assert_eq!(stacks, vec![entry("a", 1), entry("b", 1)]);
}

#[test]
fn grouped_entries_come_out_in_order() {
    let v = object(vec![(
        "items",
        Json::Array(vec![
            object(vec![("type", text("a")), ("size", num("10"))]),
            object(vec![("type", text("b")), ("size", num("5"))]),
        ]),
    )]);
    let stacks = fold_json_to_stacks(&v, &group_by(&["type"]));
    assert_eq!(
        stacks,
        vec![
            entry("items;[];type=a;type", 3),
            entry("items;[];type=b;type", 3),
            entry("items;[];type=a;size", 2),
            entry("items;[];type=b;size", 1),
        ]
    );
}

#[test]
fn weights_of_leaves_at_one_path_add_up() {
    let v = Json::Array(vec![num("1"), num("22"), text("abc"), Json::Null, Json::Bool(false)]);
    let stacks = fold_json_to_stacks(&v, &FlameOpts::default());
    assert_eq!(stacks, vec![entry("[]", 1 + 2 + 5 + 4 + 5)]);
}

#[test]
fn output_weights_add_up_to_the_leaf_weights() {
    let v = object(vec![
        ("name", text("flame")),
        ("tags", Json::Array(vec![text("x"), text("yy"), Json::Bool(true)])),
        ("nested", object(vec![("n", num("-12.5")), ("none", Json::Null)])),
    ]);
    let stacks = fold_json_to_stacks(&v, &FlameOpts::default());
    let sum: u64 = stacks.iter().map(|(_, w)| *w).sum();
    assert_eq!(sum, 7 + 3 + 4 + 4 + 5 + 4);
    assert_eq!(total_weight_of(&v), Some(27));
    assert_eq!(
        stacks,
        vec![entry("tags;[]", 11), entry("name", 7), entry("nested;n", 5), entry("nested;none", 4)]
    );
}

#[test]
fn heavier_entries_come_first_and_ties_go_by_path() {
    let v = object(vec![
        ("zeta", num("1")),
        ("alpha", num("1")),
        ("mid", num("123")),
        ("Beta", num("1")),
        ("alph", num("1")),
    ]);
    let stacks = fold_json_to_stacks(&v, &FlameOpts::default());
    assert_eq!(
        stacks,
        vec![entry("mid", 3), entry("Beta", 1), entry("alph", 1), entry("alpha", 1), entry("zeta", 1)]
    );
}

#[test]
fn paths_are_ordered_by_their_bytes() {
    let v = object(vec![("é", num("1")), ("z", num("1")), ("\u{10000}", num("1")), ("\u{ffff}", num("1"))]);
    let stacks = fold_json_to_stacks(&v, &FlameOpts::default());
    assert_eq!(
        stacks,
        vec![entry("z", 1), entry("é", 1), entry("\u{ffff}", 1), entry("\u{10000}", 1)]
    );
}

#[test]
fn folding_twice_gives_the_same_entries() {
    let v = object(vec![
        ("b", Json::Array(vec![num("1"), text("[1, 2, \"x\"]")])),
        ("a", text("plain")),
    ]);
    let opts = group_by(&["kind"]);
    let first = fold_json_to_stacks(&v, &opts);
    let second = fold_json_to_stacks(&v, &opts);
    assert_eq!(first, second);
    assert_eq!(first, vec![entry("a", 7), entry("b;[];[]", 5), entry("b;[]", 1)]);
}

#[test]
fn empty_containers_fold_to_nothing() {
    assert_eq!(fold_json_to_stacks(&Json::Array(vec![]), &FlameOpts::default()), vec![]);
    assert_eq!(fold_json_to_stacks(&Json::Object(vec![]), &FlameOpts::default()), vec![]);
    let v = object(vec![("a", Json::Array(vec![])), ("b", Json::Object(vec![])), ("c", num("7"))]);
    assert_eq!(fold_json_to_stacks(&v, &FlameOpts::default()), vec![entry("c", 1)]);
    assert_eq!(total_weight_of(&Json::Array(vec![])), Some(0));
}

#[test]
fn a_scalar_root_has_the_empty_path() {
    assert_eq!(fold_json_to_stacks(&num("42"), &FlameOpts::default()), vec![entry("", 2)]);
    assert_eq!(fold_json_to_stacks(&Json::Null, &FlameOpts::default()), vec![entry("", 4)]);
}

#[test]
fn embedded_document_is_entered_at_the_path_of_the_string() {
    let v = Json::Array(vec![text("{\"y\": [true, \"{\\\"z\\\": null}\"]}")]);
    let stacks = fold_json_to_stacks(&v, &FlameOpts::default());
    assert_eq!(stacks, vec![entry("[];y;[]", 4), entry("[];y;[];z", 4)]);
}

#[test]
fn string_that_spells_a_number_weighs_as_the_number() {
    let v = object(vec![("n", text("123")), ("s", text("12x"))]);
    let stacks = fold_json_to_stacks(&v, &FlameOpts::default());
    assert_eq!(stacks, vec![entry("s", 5), entry("n", 3)]);
}

#[test]
fn embedded_document_of_a_string() {
    match embedded_document(&"{\"y\": 1}".to_string()) {
        Some(Json::Object(members)) => {
            assert_eq!(members.len(), 1);
            assert_eq!(members[0].0, "y");
            assert!(matches!(&members[0].1, Json::Number(n) if n == "1"));
        }
        other => panic!("{:?}", other),
    }
    assert!(embedded_document(&"hello".to_string()).is_none());
    assert!(embedded_document(&"".to_string()).is_none());
    assert!(embedded_document(&"{\"y\": 1} x".to_string()).is_none());
    assert!(matches!(embedded_document(&"1.50".to_string()), Some(Json::Number(n)) if n == "1.5"));
    assert!(matches!(embedded_document(&"\"a\\u0041\"".to_string()), Some(Json::String(s)) if s == "aA"));
}

#[test]
fn grouping_takes_the_first_configured_key() {
    let item = object(vec![("kind", text("k")), ("type", text("t")), ("v", num("1"))]);
    let v = Json::Array(vec![item]);
    let by_type_first = fold_json_to_stacks(&v, &group_by(&["type", "kind"]));
    assert_eq!(
        by_type_first,
        vec![entry("[];type=t;kind", 3), entry("[];type=t;type", 3), entry("[];type=t;v", 1)]
    );
    let by_kind_first = fold_json_to_stacks(&v, &group_by(&["kind", "type"]));
    assert_eq!(
        by_kind_first,
        vec![entry("[];kind=k;kind", 3), entry("[];kind=k;type", 3), entry("[];kind=k;v", 1)]
    );
    let absent_then_kind = fold_json_to_stacks(&v, &group_by(&["nope", "kind"]));
    assert_eq!(absent_then_kind[0], entry("[];kind=k;kind", 3));
}

#[test]
fn grouping_leaves_other_elements_alone() {
    let v = Json::Array(vec![
        num("1"),
        object(vec![("other", num("2"))]),
        Json::Array(vec![object(vec![("type", text("in"))])]),
    ]);
    let stacks = fold_json_to_stacks(&v, &group_by(&["type"]));
    assert_eq!(
        stacks,
        vec![entry("[];[];type=in;type", 4), entry("[]", 1), entry("[];other", 1)]
    );
}

#[test]
fn grouping_applies_to_elements_of_arrays_only() {
    let v = object(vec![("type", text("a")), ("inner", object(vec![("type", text("b"))]))]);
    let stacks = fold_json_to_stacks(&v, &group_by(&["type"]));
    assert_eq!(stacks, vec![entry("inner;type", 3), entry("type", 3)]);
}

#[test]
fn discriminant_that_is_no_string_is_missing() {
    let v = Json::Array(vec![
        object(vec![("type", num("7"))]),
        object(vec![("type", Json::Null)]),
        object(vec![("type", Json::Array(vec![]))]),
    ]);
    let stacks = fold_json_to_stacks(&v, &group_by(&["type"]));
    assert_eq!(stacks, vec![entry("[];type=<missing>;type", 5)]);
}

#[test]
fn total_weight_enters_embedded_documents() {
    let v = object(vec![("x", text("[10, 200]")), ("y", text("[10, 200"))]);
    assert_eq!(total_weight_of(&v), Some(5 + 10));
}

#[test]
fn checked_fold_gives_the_same_entries() {
    let v = object(vec![("a", Json::Array(vec![num("1"), text("two")])), ("b", text("[3]"))]);
    let opts = group_by(&["a"]);
    assert_eq!(try_fold_json_to_stacks(&v, &opts), Some(fold_json_to_stacks(&v, &opts)));
    assert_eq!(
        try_fold_json_to_stacks(&v, &opts),
        Some(vec![entry("a;[]", 6), entry("b;[]", 1)])
    );
}
