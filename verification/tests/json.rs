use ndnblk::json::{parse_json, Json, JsonNumber, NotJson};

fn number(j: &Json) -> JsonNumber {
    match j {
        Json::Number(n) => *n,
        _ => panic!("no number"),
    }
}

#[test]
fn documents_keep_their_shape() {
    let j = parse_json(br#"{"a": null, "b": [true, "x", {"c": 1}], "d": {}}"#).unwrap();
    assert!(matches!(j.get("a"), Some(Json::Null)));
    assert!(matches!(j.get("d"), Some(Json::Object(entries)) if entries.is_empty()));
    match j.get("b") {
        Some(Json::Array(items)) => {
            assert_eq!(items.len(), 3);
            assert!(matches!(items[0], Json::Bool(true)));
            assert_eq!(items[1].as_text(), Some("x"));
            assert_eq!(items[2].get("c").and_then(|c| c.as_u64()), Some(1));
        }
        _ => panic!("no array"),
    }
    assert!(j.get("x").is_none());
    assert!(parse_json(b"[1]").unwrap().get("a").is_none());
}

#[test]
fn the_last_of_equal_keys_counts() {
    let j = parse_json(br#"{"a": 1, "a": 2}"#).unwrap();
    assert_eq!(j.get("a").and_then(|a| a.as_u64()), Some(2));
}

#[test]
fn numbers_have_their_readings() {
    let read = |s: &str| number(&parse_json(s.as_bytes()).unwrap());
    assert!(read("7") == JsonNumber::Unsigned(7));
    assert!(read("18446744073709551615") == JsonNumber::Unsigned(u64::MAX));
    assert!(read("-7") == JsonNumber::Negative(-7));
    assert!(read("-9223372036854775808") == JsonNumber::Negative(i64::MIN));
    assert!(read("7.5") == JsonNumber::Double(7.5f64.to_bits()));
    assert!(read("7.0") == JsonNumber::Double(7f64.to_bits()));
    assert!(read("-0") == JsonNumber::Double((-0f64).to_bits()));
    assert!(read("18446744073709551616") == JsonNumber::Double(18446744073709551616f64.to_bits()));
    assert_eq!(parse_json(b"9223372036854775807").unwrap().as_i64(), Some(i64::MAX));
    assert_eq!(parse_json(b"9223372036854775808").unwrap().as_i64(), None);
    assert_eq!(parse_json(b"-1").unwrap().as_i64(), Some(-1));
    assert_eq!(parse_json(b"-1").unwrap().as_u64(), None);
    assert_eq!(parse_json(b"1.5").unwrap().as_i64(), None);
}

#[test]
fn other_bytes_are_no_documents() {
    for body in [&b""[..], b"{", b"<html>", b"{} {}", b"\xff"] {
        assert_eq!(parse_json(body).unwrap_err(), NotJson);
    }
}

#[test]
fn texts_with_a_default() {
    let j = parse_json(br#"{"a": "x", "b": 1}"#).unwrap();
    assert_eq!(j.text_at("a", "?"), "x");
    assert_eq!(j.text_at("b", "?"), "?");
    assert_eq!(j.text_at("c", "?"), "?");
    assert_eq!(j.get("b").and_then(|b| b.as_i64()), Some(1));
    assert!(j.get("b").unwrap().as_text().is_none());
    assert_eq!(j.get("a").unwrap().as_u64(), None);
}
