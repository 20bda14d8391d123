use engulf::flamegraph::{write_folded_stacks, FlameOpts, FoldError};
use engulf::render::{append_decimal, append_folded_stacks};

fn decimal(n: u64) -> String {
    let mut out = String::new();
    append_decimal(&mut out, n);
    out
}

#[test]
fn decimal_digits_of_a_weight() {
    assert_eq!(decimal(0), "0");
    assert_eq!(decimal(7), "7");
    assert_eq!(decimal(10), "10");
    assert_eq!(decimal(1234567890), "1234567890");
    assert_eq!(decimal(u64::MAX), "18446744073709551615");
}

#[test]
fn decimal_digits_are_appended() {
    let mut out = "w=".to_string();
    append_decimal(&mut out, 905);
    assert_eq!(out, "w=905");
}

#[test]
fn lines_of_entries() {
    let entries = vec![("a;b".to_string(), 12u64), ("".to_string(), 0), ("x y;[]".to_string(), 3)];
    let mut out = String::new();
    append_folded_stacks(&mut out, &entries);
    assert_eq!(out, "a;b 12\n 0\nx y;[] 3\n");
    append_folded_stacks(&mut out, &vec![]);
    assert_eq!(out, "a;b 12\n 0\nx y;[] 3\n");
}

#[test]
fn folded_stacks_of_a_text() {
    let mut out = String::new();
    let done = write_folded_stacks("{\"b\": 22, \"a\": 1, \"c\": [true, {\"d\": \"x\"}]}", &mut out, &FlameOpts::default());
    assert!(done.is_ok());
    assert_eq!(out, "c;[] 4\nc;[];d 3\nb 2\na 1\n");
}

#[test]
fn folded_stacks_of_a_grouped_text() {
    let mut out = "# stacks\n".to_string();
    let opts = FlameOpts { group_keys: vec!["type".to_string()] };
    let text = "{\"items\": [{\"type\": \"a\", \"size\": 10}, {\"type\": \"b\", \"size\": 5}]}";
    assert!(write_folded_stacks(text, &mut out, &opts).is_ok());
    assert_eq!(
        out,
        "# stacks\nitems;[];type=a;type 3\nitems;[];type=b;type 3\nitems;[];type=a;size 2\nitems;[];type=b;size 1\n"
    );
}

#[test]
fn numbers_weigh_what_their_minified_text_weighs() {
    let mut out = String::new();
    assert!(write_folded_stacks("[1.50, 1e2, -0, 10]", &mut out, &FlameOpts::default()).is_ok());
    let expected: usize = ["1.5", "100.0", "-0.0", "10"].iter().map(|t| t.len()).sum();
    assert_eq!(out, format!("[] {}\n", expected));
}

#[test]
fn text_that_is_no_json_is_refused() {
    let mut out = "kept".to_string();
    let done = write_folded_stacks("{\"a\": ", &mut out, &FlameOpts::default());
    assert!(matches!(done, Err(FoldError::Syntax(_))));
    assert_eq!(out, "kept");
    match write_folded_stacks("", &mut out, &FlameOpts::default()) {
        Err(FoldError::Syntax(error)) => assert!(error.is_eof()),
        other => panic!("{:?}", other),
    }
    assert_eq!(out, "kept");
}
