use engulf::json::Json;
use engulf::weight::{encoded_len, CountWriter};
use std::io::Write;

fn string_len(s: &str) -> Option<usize> {
    encoded_len(&Json::String(s.to_string()))
}

#[test]
fn count_writer_starts_at_zero() {
    assert_eq!(CountWriter::new().bytes(), 0);
}

#[test]
fn count_writer_counts_what_is_written() {
    let mut w = CountWriter::new();
    assert_eq!(w.write(b"hello").unwrap(), 5);
    assert_eq!(w.bytes(), 5);
    assert_eq!(w.write(b"").unwrap(), 0);
    assert_eq!(w.write(&[0u8; 1000]).unwrap(), 1000);
    assert_eq!(w.bytes(), 1005);
    w.flush().unwrap();
    assert_eq!(w.bytes(), 1005);
    w.write_all(b"abc").unwrap();
    assert_eq!(w.bytes(), 1008);
}

#[test]
fn count_writer_measures_a_serialization() {
    let mut w = CountWriter::new();
    serde_json::to_writer(&mut w, "a\"b").unwrap();
    assert_eq!(w.bytes(), 6);
}

#[test]
fn weight_of_null_and_booleans() {
    assert_eq!(encoded_len(&Json::Null), Some(4));
    assert_eq!(encoded_len(&Json::Bool(true)), Some(4));
    assert_eq!(encoded_len(&Json::Bool(false)), Some(5));
}

#[test]
fn weight_of_a_number_is_the_length_of_its_text() {
    assert_eq!(encoded_len(&Json::Number("0".to_string())), Some(1));
    assert_eq!(encoded_len(&Json::Number("-12.5".to_string())), Some(5));
    assert_eq!(encoded_len(&Json::Number("18446744073709551615".to_string())), Some(20));
    assert_eq!(encoded_len(&Json::Number("1e300".to_string())), Some(5));
}

#[test]
fn weight_of_a_plain_string() {
    assert_eq!(string_len(""), Some(2));
    assert_eq!(string_len("a"), Some(3));
    assert_eq!(string_len("hello world"), Some(13));
}

#[test]
fn weight_of_a_string_with_escapes() {
    assert_eq!(string_len("\""), Some(4));
    assert_eq!(string_len("\\"), Some(4));
    assert_eq!(string_len("\n"), Some(4));
    assert_eq!(string_len("\r\t"), Some(6));
    assert_eq!(string_len("\u{08}\u{0c}"), Some(6));
    assert_eq!(string_len("\u{00}"), Some(8));
    assert_eq!(string_len("\u{1f}"), Some(8));
    assert_eq!(string_len("\u{0b}"), Some(8));
    assert_eq!(string_len("\u{7f}"), Some(3));
    assert_eq!(string_len("/"), Some(3));
    assert_eq!(string_len("a\"b\\c\nd\u{01}e"), Some(2 + 5 + 2 + 2 + 2 + 6));
}

#[test]
fn weight_of_a_string_counts_utf8_bytes() {
    assert_eq!(string_len("é"), Some(4));
    assert_eq!(string_len("€"), Some(5));
    assert_eq!(string_len("\u{1F600}"), Some(6));
    assert_eq!(string_len("aé€\u{1F600}"), Some(2 + 1 + 2 + 3 + 4));
}

#[test]
fn weight_of_a_string_is_what_the_serializer_writes() {
    for s in ["", "plain", "q\"uote", "tab\there", "\u{0}\u{1}\u{2}", "mixé\n\\", "{\"y\": 1"] {
        assert_eq!(string_len(s), Some(serde_json::to_string(s).unwrap().len()));
    }
}
