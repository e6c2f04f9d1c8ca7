//! Compact serialization of JSON documents, and reading the text back.
use akari::json_parse::NumberParts;
use akari::json_parser::{BsonParser, JsonParser, JsonValue};
use akari::json_serialize::MAX_SERIALIZE_DEPTH;
use akari::{BinWriter, JsonSerializer, SerializeErrorKind};

fn number(negative: bool, int: &str, frac: &str, exponent: Option<i32>) -> JsonValue {
    JsonValue::Number(NumberParts {
        negative,
        int_digits: int.as_bytes().to_vec(),
        frac_digits: frac.as_bytes().to_vec(),
        exponent,
    })
}

fn serialize_one(value: &JsonValue) -> String {
    let mut writer = BinWriter::new();
    JsonSerializer::serialize_buf(value, &mut writer).unwrap();
    writer.into_string().unwrap()
}

#[test]
fn test_json_serialize_primitives() {
    assert_eq!(serialize_one(&number(false, "42", "", None)), "42");
    assert_eq!(serialize_one(&JsonValue::Boolean(false)), "false");
    assert_eq!(serialize_one(&JsonValue::Null), "null");
}

#[test]
fn test_json_serialize_nested_and_parse_back() {
    let nested = JsonValue::Dict(
        vec!["ok".to_string(), "msg".to_string()],
        vec![JsonValue::Boolean(true), JsonValue::Str("hello\nworld".to_string())],
    );
    let value = JsonValue::List(vec![number(false, "1", "", None), nested, JsonValue::Null]);

    let out = serialize_one(&value);
    assert_eq!(out, r#"[1,{"ok":true,"msg":"hello\nworld"},null]"#);
    let reparsed = BsonParser::parse_one(out.as_bytes()).unwrap();
    assert_eq!(reparsed, value);
}

#[test]
fn test_json_serialize_buf() {
    let value = JsonValue::Str("abc".to_string());
    let mut out = BinWriter::new();
    JsonSerializer::serialize_buf(&value, &mut out).unwrap();
    assert_eq!(out.as_bytes(), br#""abc""#);
}

#[test]
fn serialize_numbers_with_all_parts() {
    assert_eq!(serialize_one(&number(true, "12", "50", Some(-7))), "-12.50e-7");
    assert_eq!(serialize_one(&number(false, "0", "", Some(21))), "0e21");
    assert_eq!(serialize_one(&number(false, "3", "14", Some(i32::MIN))), "3.14e-2147483648");
    assert_eq!(serialize_one(&number(false, "7", "", Some(0))), "7e0");
}

#[test]
fn serialize_empty_containers_and_appends_to_the_buffer() {
    let mut out = BinWriter::new();
    out.write_str("x=");
    let value = JsonValue::Dict(
        vec!["a".to_string(), "b".to_string()],
        vec![JsonValue::List(Vec::new()), JsonValue::Dict(Vec::new(), Vec::new())],
    );
    JsonSerializer::serialize_buf(&value, &mut out).unwrap();
    assert_eq!(out.as_bytes(), br#"x={"a":[],"b":{}}"#);
}

#[test]
fn serialize_refuses_nesting_too_deep_keeping_the_text_before() {
    let mut value = JsonValue::List(Vec::new());
    for _ in 0..MAX_SERIALIZE_DEPTH {
        value = JsonValue::List(vec![value]);
    }
    let mut out = BinWriter::new();
    let err = JsonSerializer::serialize_buf(&value, &mut out).unwrap_err();
    assert_eq!(err.kind, SerializeErrorKind::DepthLimit);
    assert_eq!(out.len(), MAX_SERIALIZE_DEPTH);
    assert!(out.as_bytes().iter().all(|&b| b == b'['));

    // One level less is accepted.
    let mut ok = JsonValue::List(Vec::new());
    for _ in 0..MAX_SERIALIZE_DEPTH - 1 {
        ok = JsonValue::List(vec![ok]);
    }
    let text = serialize_one(&ok);
    assert_eq!(text.len(), 2 * MAX_SERIALIZE_DEPTH);
}

#[test]
fn parse_back_gives_the_serialized_document() {
    let value = JsonValue::Dict(
        vec!["n".to_string(), "s".to_string(), "l".to_string()],
        vec![
            number(true, "12", "5", Some(3)),
            JsonValue::Str("tab\there \u{1F600} \u{0001}".to_string()),
            JsonValue::List(vec![JsonValue::Boolean(true), number(false, "0", "", Some(-2))]),
        ],
    );
    let text = serialize_one(&value);
    assert_eq!(JsonParser::parse_one(&text).unwrap(), value);
}
