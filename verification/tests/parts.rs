use engulf::flamegraph::FlameOpts;
use engulf::json::Json;
use engulf::order::{bytes_precede, entry_precedes, sort_entries};
use engulf::path::{find_member, grouping_segment, join_path};
use engulf::stacks::Stacks;

fn strings(items: &[&str]) -> Vec<String> {
    items.iter().map(|s| s.to_string()).collect()
}

fn pair(path: &str, weight: u64) -> (String, u64) {
    (path.to_string(), weight)
}

#[test]
fn default_options_do_not_group() {
    assert!(FlameOpts::default().group_keys.is_empty());
}

#[test]
fn joined_paths() {
    assert_eq!(join_path(&strings(&[])), "");
    assert_eq!(join_path(&strings(&["a"])), "a");
    assert_eq!(join_path(&strings(&["a", "[]", "type=x"])), "a;[];type=x");
    assert_eq!(join_path(&strings(&["", ""])), ";");
    assert_eq!(join_path(&strings(&["a;b", "c"])), "a;b;c");
}

#[test]
fn first_member_with_a_key() {
    let members = vec![
        ("a".to_string(), Json::Null),
        ("b".to_string(), Json::Bool(true)),
        ("a".to_string(), Json::Bool(false)),
    ];
    assert_eq!(find_member(&members, &"a".to_string()), Some(0));
    assert_eq!(find_member(&members, &"b".to_string()), Some(1));
    assert_eq!(find_member(&members, &"c".to_string()), None);
    assert_eq!(find_member(&vec![], &"a".to_string()), None);
}

#[test]
fn grouping_segments() {
    let item = Json::Object(vec![
        ("size".to_string(), Json::Number("10".to_string())),
        ("type".to_string(), Json::String("a=b".to_string())),
    ]);
    assert_eq!(grouping_segment(&item, &strings(&["type"])), Some("type=a=b".to_string()));
    assert_eq!(grouping_segment(&item, &strings(&["size", "type"])), Some("size=<missing>".to_string()));
    assert_eq!(grouping_segment(&item, &strings(&["kind", "type"])), Some("type=a=b".to_string()));
    assert_eq!(grouping_segment(&item, &strings(&["kind"])), None);
    assert_eq!(grouping_segment(&item, &strings(&[])), None);
    assert_eq!(grouping_segment(&Json::String("type".to_string()), &strings(&["type"])), None);
    assert_eq!(grouping_segment(&Json::Array(vec![item]), &strings(&["type"])), None);
}

#[test]
fn size_is_taken_from_a_budget() {
    assert_eq!(Json::Null.spend(1), Some(0));
    assert_eq!(Json::Null.spend(0), None);
    assert_eq!(Json::String("abc".to_string()).spend(10), Some(6));
    assert_eq!(Json::String("é".to_string()).spend(3), Some(0));
    assert_eq!(Json::String("é".to_string()).spend(2), None);
    let v = Json::Array(vec![
        Json::Number("12345".to_string()),
        Json::Object(vec![("key".to_string(), Json::String("ab".to_string()))]),
    ]);
    assert_eq!(v.spend(6), Some(0));
    assert_eq!(v.spend(5), None);
    assert_eq!(v.spend(100), Some(94));
}

#[test]
fn bytes_are_compared_in_order() {
    assert!(bytes_precede(b"", b"a"));
    assert!(!bytes_precede(b"", b""));
    assert!(!bytes_precede(b"a", b""));
    assert!(bytes_precede(b"a", b"ab"));
    assert!(!bytes_precede(b"ab", b"a"));
    assert!(bytes_precede(b"ab", b"b"));
    assert!(bytes_precede(b"Z", b"a"));
    assert!(bytes_precede(&[0x7f], &[0x80]));
    assert!(!bytes_precede(b"same", b"same"));
}

#[test]
fn entries_are_compared_by_weight_then_path() {
    assert!(entry_precedes(&pair("z", 2), &pair("a", 1)));
    assert!(!entry_precedes(&pair("a", 1), &pair("z", 2)));
    assert!(entry_precedes(&pair("a", 1), &pair("b", 1)));
    assert!(!entry_precedes(&pair("b", 1), &pair("a", 1)));
    assert!(!entry_precedes(&pair("a", 1), &pair("a", 1)));
}

#[test]
fn entries_are_sorted() {
    let sorted = sort_entries(vec![pair("b", 1), pair("c", 5), pair("a", 1), pair("", 1), pair("d", 9)]);
    assert_eq!(sorted, vec![pair("d", 9), pair("c", 5), pair("", 1), pair("a", 1), pair("b", 1)]);
    assert_eq!(sort_entries(vec![]), vec![]);
    assert_eq!(sort_entries(vec![pair("x", 0)]), vec![pair("x", 0)]);
}

#[test]
fn stacks_add_up_weights_by_path() {
    let mut stacks = Stacks::new();
    stacks.add("a".to_string(), 3);
    stacks.add("b".to_string(), 0);
    stacks.add("a".to_string(), 4);
    let mut entries = stacks.into_entries();
    entries.sort();
    assert_eq!(entries, vec![pair("a", 7), pair("b", 0)]);
    assert_eq!(Stacks::new().into_entries(), vec![]);
}
