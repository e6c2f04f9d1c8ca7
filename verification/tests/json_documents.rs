//! Parsing whole JSON documents.
use akari::json_parse::NumberParts;
use akari::json_parser::{BinJsonParser, BsonParser, JsonParser, JsonValue, Next};
use akari::parse_error::{LineCol, ParseError, ParseErrorKind};

fn num(digits: &str) -> JsonValue {
    JsonValue::Number(NumberParts {
        negative: false,
        int_digits: digits.as_bytes().to_vec(),
        frac_digits: Vec::new(),
        exponent: None,
    })
}

fn text(s: &str) -> JsonValue {
    JsonValue::Str(s.to_string())
}

fn get<'a>(value: &'a JsonValue, key: &str) -> Option<&'a JsonValue> {
    match value {
        JsonValue::Dict(keys, values) => keys.iter().position(|k| k == key).map(|i| &values[i]),
        _ => None,
    }
}

#[test]
fn test_parse_string_simple() {
    let result = BsonParser::parse_one(br#""hello world""#).unwrap();
    assert_eq!(result, text("hello world"));
}

#[test]
fn test_parse_number_integer() {
    let result = BsonParser::parse_one(b"42").unwrap();
    assert_eq!(result, num("42"));
}

#[test]
fn test_parse_boolean_true() {
    let result = BsonParser::parse_one(b"true").unwrap();
    assert_eq!(result, JsonValue::Boolean(true));
}

#[test]
fn test_parse_null() {
    let result = BsonParser::parse_one(b"null").unwrap();
    assert_eq!(result, JsonValue::Null);
}

#[test]
fn test_parse_array() {
    let result = BsonParser::parse_one(br#"[1, "hello", true]"#).unwrap();
    assert_eq!(
        result,
        JsonValue::List(vec![num("1"), text("hello"), JsonValue::Boolean(true)])
    );
}

#[test]
fn test_parse_object() {
    let result = BsonParser::parse_one(br#"{"name": "Alice", "age": 30}"#).unwrap();
    match result {
        JsonValue::Dict(..) => {
            assert_eq!(get(&result, "name"), Some(&text("Alice")));
            assert_eq!(get(&result, "age"), Some(&num("30")));
        }
        _ => panic!("Expected Dict"),
    }
}

#[test]
fn test_trait_parse_one() {
    let result = BsonParser::parse_one(br#"{"key": "value"}"#).unwrap();
    match result {
        JsonValue::Dict(..) => {
            assert_eq!(get(&result, "key"), Some(&text("value")));
        }
        _ => panic!("Expected Dict"),
    }
}

#[test]
fn test_trait_streaming() {
    let mut parser = BsonParser::new();
    parser.feed(br#"{"a": 1} {"b": 2}"#).unwrap();
    parser.end_of_input();

    let result1 = parser.parse_next();
    assert!(matches!(result1, Ok(Next::Value(_))));

    let result2 = parser.parse_next();
    assert!(matches!(result2, Ok(Next::Value(_))));

    let result3 = parser.parse_next();
    assert!(matches!(result3, Ok(Next::Eof)));
}

#[test]
fn test_chunked_feed() {
    let mut parser = BsonParser::new();
    parser.feed(br#"{"key": "#).unwrap();
    parser.feed(br#""value"}"#).unwrap();
    parser.end_of_input();

    let result = parser.parse_full().unwrap();
    match result {
        JsonValue::Dict(..) => {
            assert_eq!(get(&result, "key"), Some(&text("value")));
        }
        _ => panic!("Expected Dict"),
    }
}

#[test]
fn test_utf8_multibyte() {
    let input = r#""Hello 世界 🌍""#.as_bytes();
    let result = BsonParser::parse_one(input).unwrap();
    assert_eq!(result, text("Hello 世界 🌍"));
}

#[test]
fn test_unicode_escape() {
    let result = BsonParser::parse_one(br#""\u0048\u0065\u006C\u006C\u006F""#).unwrap();
    assert_eq!(result, text("Hello"));
}

#[test]
fn test_str_parse_one() {
    let result = JsonParser::parse_one(r#"{"key": "value"}"#).unwrap();
    match result {
        JsonValue::Dict(..) => {
            assert_eq!(get(&result, "key"), Some(&text("value")));
        }
        _ => panic!("Expected Dict"),
    }
}

#[test]
fn test_str_feed_and_parse() {
    let mut parser = JsonParser::new();
    parser.feed(r#"{"name": "Alice", "age": 30}"#).unwrap();
    parser.end_of_input();
    let result = parser.parse_full().unwrap();
    match result {
        JsonValue::Dict(..) => {
            assert_eq!(get(&result, "name"), Some(&text("Alice")));
            assert_eq!(get(&result, "age"), Some(&num("30")));
        }
        _ => panic!("Expected Dict"),
    }
}

#[test]
fn test_str_chunked_feed() {
    let mut parser = JsonParser::new();
    parser.feed(r#"{"key": "#).unwrap();
    parser.feed(r#""value"}"#).unwrap();
    parser.end_of_input();

    let result = parser.parse_full().unwrap();
    match result {
        JsonValue::Dict(..) => {
            assert_eq!(get(&result, "key"), Some(&text("value")));
        }
        _ => panic!("Expected Dict"),
    }
}

#[test]
fn test_str_streaming() {
    let mut parser = JsonParser::new();
    parser.feed(r#"{"a": 1} {"b": 2}"#).unwrap();
    parser.end_of_input();

    let result1 = parser.parse_next();
    assert!(matches!(result1, Ok(Next::Value(_))));

    let result2 = parser.parse_next();
    assert!(matches!(result2, Ok(Next::Value(_))));

    let result3 = parser.parse_next();
    assert!(matches!(result3, Ok(Next::Eof)));
}

#[test]
fn test_str_utf8_multibyte() {
    let result = JsonParser::parse_one(r#""Hello 世界 🌍""#).unwrap();
    assert_eq!(result, text("Hello 世界 🌍"));
}

#[test]
fn test_str_need_more() {
    let mut parser = JsonParser::new();
    parser.feed(r#"{"key":"#).unwrap();

    let result = parser.parse_next();
    assert!(matches!(result, Ok(Next::NeedMore)));

    parser.feed(r#""value"}"#).unwrap();
    parser.end_of_input();

    let result = parser.parse_next();
    assert!(matches!(result, Ok(Next::Value(_))));
}

#[test]
fn numbers_keep_sign_fraction_and_exponent() {
    let v = BsonParser::parse_one(b"[-12.50e+3, 7, 1., 2E-99999999999]").unwrap();
    assert_eq!(
        v,
        JsonValue::List(vec![
            JsonValue::Number(NumberParts {
                negative: true,
                int_digits: b"12".to_vec(),
                frac_digits: b"50".to_vec(),
                exponent: Some(3),
            }),
            num("7"),
            num("1"),
            JsonValue::Number(NumberParts {
                negative: false,
                int_digits: b"2".to_vec(),
                frac_digits: Vec::new(),
                exponent: Some(-i32::MAX),
            }),
        ])
    );
}

#[test]
fn number_errors() {
    assert!(matches!(
        BsonParser::parse_one(b"+7"),
        Err(ParseError { kind: ParseErrorKind::UnexpectedToken { .. }, pos: 0, .. })
    ));
    assert_eq!(
        BsonParser::parse_one(b"-x"),
        Err(ParseError::new(ParseErrorKind::InvalidNumber, 0))
    );
    assert_eq!(
        BsonParser::parse_one(b"12a"),
        Err(ParseError::new(ParseErrorKind::InvalidNumber, 0))
    );
    let mut p = BsonParser::new();
    p.feed(b"12").unwrap();
    assert!(matches!(p.parse_next(), Ok(Next::NeedMore)));
    assert_eq!(p.pos(), 0);
}

#[test]
fn duplicate_keys_keep_the_last_value() {
    let v = BsonParser::parse_one(br#"{"a": 1, "b": 2, "a": 3}"#).unwrap();
    assert_eq!(
        v,
        JsonValue::Dict(vec!["a".to_string(), "b".to_string()], vec![num("3"), num("2")])
    );
}

#[test]
fn empty_and_nested_containers() {
    let v = BsonParser::parse_one(br#" { "o" : { } , "l" : [ [ ] , none ] } "#).unwrap();
    assert_eq!(get(&v, "o"), Some(&JsonValue::Dict(Vec::new(), Vec::new())));
    assert_eq!(
        get(&v, "l"),
        Some(&JsonValue::List(vec![JsonValue::List(Vec::new()), JsonValue::Null]))
    );
}

#[test]
fn trailing_data_is_rejected() {
    assert_eq!(
        BsonParser::parse_one(b"1 2"),
        Err(ParseError::new(ParseErrorKind::TrailingData, 2))
    );
    assert_eq!(BsonParser::parse_one(b" true \n"), Ok(JsonValue::Boolean(true)));
}

#[test]
fn depth_limit_is_enforced() {
    let mut p = BsonParser::new();
    p.max_depth(2);
    p.feed(b"[[[1]]]").unwrap();
    p.end_of_input();
    assert_eq!(p.parse_full(), Err(ParseError::new(ParseErrorKind::DepthLimit, 2)));
    let mut q = BsonParser::new();
    q.max_depth(3);
    q.feed(b"[[[1]]]").unwrap();
    q.end_of_input();
    assert!(q.parse_full().is_ok());
}

#[test]
fn unexpected_tokens_are_described() {
    let err = BsonParser::parse_one(b"@").unwrap_err();
    assert_eq!(
        err.kind,
        ParseErrorKind::UnexpectedToken {
            found: "0x40 ('@')".to_string(),
            expected: &["{", "[", "\"", "number", "true", "false", "null", "none"],
        }
    );
    let err = BsonParser::parse_one(br#"{"a" 1}"#).unwrap_err();
    assert_eq!(
        err,
        ParseError::new(
            ParseErrorKind::UnexpectedToken { found: "Some(125)".to_string(), expected: &[":"] },
            6
        )
    );
    let err = BsonParser::parse_one(br#"{1: 2}"#).unwrap_err();
    assert_eq!(
        err,
        ParseError::new(
            ParseErrorKind::UnexpectedToken { found: "Some(49)".to_string(), expected: &["\""] },
            1
        )
    );
    let err = BsonParser::parse_one(b"[1 2]").unwrap_err();
    assert_eq!(
        err,
        ParseError::new(
            ParseErrorKind::UnexpectedToken { found: "Some(93)".to_string(), expected: &[",", "]"] },
            4
        )
    );
}

#[test]
fn incomplete_after_end_of_input_is_an_error() {
    let mut p = JsonParser::new();
    p.feed("[1, ").unwrap();
    assert!(matches!(p.parse_next(), Ok(Next::NeedMore)));
    let mut q = JsonParser::new();
    q.feed("[1, ").unwrap();
    q.end_of_input();
    assert_eq!(q.parse_next(), Err(ParseError::new(ParseErrorKind::Incomplete, 4)));
    let mut empty = BinJsonParser::default();
    assert!(matches!(empty.parse_next(), Ok(Next::NeedMore)));
    empty.end_of_input();
    assert!(matches!(empty.parse_next(), Ok(Next::Eof)));
}

#[test]
fn parse_error_text() {
    assert_eq!(ParseError::new(ParseErrorKind::Incomplete, 5).to_string(), "incomplete input at pos 5");
    assert_eq!(ParseError::new(ParseErrorKind::TrailingData, 12).to_string(), "trailing data at pos 12");
    let e = ParseError::new(
        ParseErrorKind::UnexpectedToken { found: "x\"y".to_string(), expected: &["a", "b"] },
        3,
    );
    assert_eq!(e.to_string(), r#"unexpected token "x\"y" at pos 3, expected one of: ["a", "b"]"#);
    let e = ParseError::new(ParseErrorKind::UnexpectedToken { found: "z".to_string(), expected: &[] }, 0);
    assert_eq!(e.to_string(), r#"unexpected token "z" at pos 0"#);
    let e = ParseError::new(ParseErrorKind::InvalidEncoding("bad utf-8"), 7)
        .with_line_col(LineCol { line: 2, col: 4 })
        .with_context("while reading");
    assert_eq!(e.to_string(), "invalid encoding (bad utf-8) at pos 7 (line 2, col 4) - while reading");
    assert_eq!(ParseError::new(ParseErrorKind::InvalidNumber, 1).to_string(), "invalid number at pos 1");
    assert_eq!(ParseError::new(ParseErrorKind::DepthLimit, 9).to_string(), "depth limit exceeded at pos 9");
    assert_eq!(ParseError::new(ParseErrorKind::Message("oops"), 0).to_string(), "oops at pos 0");
}

#[test]
fn need_more_discards_progress_and_reparses_the_whole_value() {
    let mut parser = JsonParser::new();
    parser.feed(r#"  {"key":"#).unwrap();
    assert!(matches!(parser.parse_next(), Ok(Next::NeedMore)));
    // Back at the start of the value.
    assert_eq!(parser.pos(), 2);
    parser.feed(r#""value"}"#).unwrap();
    parser.end_of_input();
    assert_eq!(
        parser.parse_next(),
        Ok(Next::Value(JsonValue::Dict(vec!["key".to_string()], vec![text("value")])))
    );
    assert_eq!(parser.parse_next(), Ok(Next::Eof));
}

#[test]
fn chunked_stream_equals_whole_stream() {
    let whole = br#"{"a": [1, 2.5, "x\u0041"]} [true, null] "end""#;
    let mut one_shot = BsonParser::new();
    one_shot.feed(whole).unwrap();
    one_shot.end_of_input();
    let mut expected = Vec::new();
    loop {
        match one_shot.parse_next().unwrap() {
            Next::Value(v) => expected.push(v),
            Next::Eof => break,
            Next::NeedMore => panic!("all input was fed"),
        }
    }
    assert_eq!(expected.len(), 3);
    for size in 1..6 {
        let mut parser = BsonParser::new();
        let mut got = Vec::new();
        for chunk in whole.chunks(size) {
            parser.feed(chunk).unwrap();
            while let Next::Value(v) = parser.parse_next().unwrap() {
                got.push(v);
            }
        }
        parser.end_of_input();
        loop {
            match parser.parse_next().unwrap() {
                Next::Value(v) => got.push(v),
                Next::Eof => break,
                Next::NeedMore => panic!("end of input was signalled"),
            }
        }
        assert_eq!(got, expected, "chunks of {}", size);
    }
}

#[test]
fn unexpected_bytes_are_escaped_like_chars() {
    let e = BsonParser::parse_one(b"\x01").unwrap_err();
    assert!(matches!(e.kind, ParseErrorKind::UnexpectedToken { ref found, .. } if found == "0x01 ('\\u{1}')"));
    let e = BsonParser::parse_one(b"\t\xe9").unwrap_err();
    assert!(matches!(e.kind, ParseErrorKind::UnexpectedToken { ref found, .. } if found == "0xE9 ('\\u{e9}')"));
    let e = BsonParser::parse_one(b"'").unwrap_err();
    assert!(matches!(e.kind, ParseErrorKind::UnexpectedToken { ref found, .. } if found == "0x27 ('\\'')"));
    let e = BsonParser::parse_one(b"\x7f").unwrap_err();
    assert!(matches!(e.kind, ParseErrorKind::UnexpectedToken { ref found, .. } if found == "0x7F ('\\u{7f}')"));
}

#[test]
fn expected_lists_are_written_like_debug() {
    let e = ParseError::new(
        ParseErrorKind::UnexpectedToken { found: "q".to_string(), expected: &["a", "b\"", "c"] },
        2,
    );
    assert_eq!(e.to_string(), "unexpected token \"q\" at pos 2, expected one of: [\"a\", \"b\\\"\", \"c\"]");
}
