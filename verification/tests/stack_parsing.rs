//! The resumable stack-based JSON parser.
use akari::json_parse::NumberParts;
use akari::json_parser::{JsonValue, Next};
use akari::parse_error::{ParseError, ParseErrorKind};
use akari::stack_parser::StackParser;

fn num(digits: &str) -> JsonValue {
    JsonValue::Number(NumberParts {
        negative: false,
        int_digits: digits.as_bytes().to_vec(),
        frac_digits: Vec::new(),
        exponent: None,
    })
}

fn get<'a>(value: &'a JsonValue, key: &str) -> Option<&'a JsonValue> {
    match value {
        JsonValue::Dict(keys, values) => keys.iter().position(|k| k == key).map(|i| &values[i]),
        _ => None,
    }
}

fn contains_key(value: &JsonValue, key: &str) -> bool {
    get(value, key).is_some()
}

#[test]
fn test_simple_object() {
    let mut parser = StackParser::new();
    parser.feed(br#"{"key": "value"}"#).unwrap();
    parser.end_of_input();

    let result = parser.parse_full().unwrap();
    match result {
        JsonValue::Dict(..) => {
            assert_eq!(get(&result, "key"), Some(&JsonValue::Str("value".to_string())));
        }
        _ => panic!("Expected Dict"),
    }
}

#[test]
fn test_stack_empty_containers() {
    let mut parser = StackParser::new();
    parser.feed(br#"{"obj": {}, "arr": []}"#).unwrap();
    parser.end_of_input();

    let result = parser.parse_full().unwrap();
    match result {
        JsonValue::Dict(..) => {
            assert!(matches!(get(&result, "obj"), Some(JsonValue::Dict(..))));
            assert!(matches!(get(&result, "arr"), Some(JsonValue::List(_))));
        }
        _ => panic!("Expected Dict"),
    }
}

#[test]
fn test_stack_multiple_keys_and_values() {
    let mut parser = StackParser::new();
    parser.feed(br#"{"a": 1, "b": 2, "c": 3}"#).unwrap();
    parser.end_of_input();

    let result = parser.parse_full().unwrap();
    match result {
        JsonValue::Dict(..) => {
            assert_eq!(get(&result, "a"), Some(&num("1")));
            assert_eq!(get(&result, "b"), Some(&num("2")));
            assert_eq!(get(&result, "c"), Some(&num("3")));
        }
        _ => panic!("Expected Dict"),
    }
}

#[test]
fn test_stack_nested_structures() {
    let mut parser = StackParser::new();
    parser.feed(br#"{"a":[1,{"b":[2,3]}],"c":{"d":4}}"#).unwrap();
    parser.end_of_input();

    let result = parser.parse_full().unwrap();
    assert!(matches!(result, JsonValue::Dict(..)));
}

#[test]
fn test_chunked_parsing() {
    let mut parser = StackParser::new();

    parser.feed(br#"{"users": [{"name": "Alice", "age":"#).unwrap();
    let result1 = parser.parse_next().unwrap();
    assert!(matches!(result1, Next::NeedMore));

    parser.feed(br#" 30}]}"#).unwrap();
    parser.end_of_input();

    let result2 = parser.parse_next().unwrap();
    assert!(matches!(result2, Next::Value(_)));
}

#[test]
fn test_stack_chunked_commas_and_colons() {
    let mut parser = StackParser::new();
    parser.feed(br#"{"a": 1, "b": {"#).unwrap();
    let result1 = parser.parse_next().unwrap();
    assert!(matches!(result1, Next::NeedMore));

    parser.feed(br#""c": 2}, "d": ["#).unwrap();
    let result2 = parser.parse_next().unwrap();
    assert!(matches!(result2, Next::NeedMore));

    parser.feed(br#"3, 4]}"#).unwrap();
    parser.end_of_input();

    let result3 = parser.parse_next().unwrap();
    assert!(matches!(result3, Next::Value(_)));
}

#[test]
fn test_multiple_values() {
    let mut parser = StackParser::new();
    parser.feed(br#"{"a": 1} {"b": 2}"#).unwrap();
    parser.end_of_input();

    let result1 = parser.parse_next();
    assert!(matches!(result1, Ok(Next::Value(_))));

    let result2 = parser.parse_next();
    assert!(matches!(result2, Ok(Next::Value(_))));

    let result3 = parser.parse_next();
    assert!(matches!(result3, Ok(Next::Eof)));
}

#[test]
fn test_stack_deeply_nested_chunked() {
    let mut parser = StackParser::new();

    parser.feed(br#"{"data": {"users": [{"id": 1, "name": ""#).unwrap();
    assert!(matches!(parser.parse_next(), Ok(Next::NeedMore)));

    parser.feed(br#"Alice", "tags": ["admin""#).unwrap();
    assert!(matches!(parser.parse_next(), Ok(Next::NeedMore)));

    parser.feed(br#", "developer"]}]}}"#).unwrap();
    parser.end_of_input();

    let result = parser.parse_next().unwrap();
    if let Next::Value(obj @ JsonValue::Dict(..)) = result {
        assert!(contains_key(&obj, "data"));
    } else {
        panic!("Expected object");
    }

    assert!(matches!(parser.parse_next(), Ok(Next::Eof)));
}

#[test]
fn test_stack_edge_cases() {
    let mut parser = StackParser::new();
    parser
        .feed(br#"{"empty_obj": {}, "empty_arr": [], "nested": [[], {}], "val": 42}"#)
        .unwrap();
    parser.end_of_input();

    let result = parser.parse_next().unwrap();
    if let Next::Value(obj @ JsonValue::Dict(..)) = result {
        assert!(contains_key(&obj, "empty_obj"));
        assert!(contains_key(&obj, "empty_arr"));
        assert!(contains_key(&obj, "nested"));
        assert!(contains_key(&obj, "val"));
    } else {
        panic!("Expected object");
    }
}

#[test]
fn test_stack_malformed_should_fail() {
    let mut parser1 = StackParser::new();
    parser1.feed(br#"[(}"#).unwrap();
    parser1.end_of_input();
    let result1 = parser1.parse_next();
    assert!(result1.is_err(), "Expected error for mismatched brackets [(}}");

    let mut parser2 = StackParser::new();
    parser2.feed(br#"{"a":}"#).unwrap();
    parser2.end_of_input();
    let result2 = parser2.parse_next();
    assert!(result2.is_err(), "Expected error for missing value after :");

    let mut parser3 = StackParser::new();
    parser3.feed(br#"[1, 2"#).unwrap();
    parser3.end_of_input();
    let result3 = parser3.parse_next();
    assert!(result3.is_err(), "Expected error for unclosed array");
}

#[test]
fn test_stack_nested_arrays() {
    let mut parser = StackParser::new();
    parser.feed(br#"[1, [2, 3], [4, [5, 6]]]"#).unwrap();
    parser.end_of_input();

    let result = parser.parse_next().unwrap();
    if let Next::Value(JsonValue::List(arr)) = result {
        assert_eq!(arr.len(), 3);
        if let JsonValue::List(inner) = &arr[1] {
            assert_eq!(inner.len(), 2);
        } else {
            panic!("Expected nested array");
        }
    } else {
        panic!("Expected array");
    }
}

#[test]
fn test_stack_mixed_types() {
    let mut parser = StackParser::new();
    parser.feed(br#"{"str": "hello", "num": 42, "bool": true, "null": null, "arr": [1, 2], "obj": {"nested": "value"}}"#).unwrap();
    parser.end_of_input();

    let result = parser.parse_next().unwrap();
    if let Next::Value(obj @ JsonValue::Dict(..)) = result {
        if let JsonValue::Dict(keys, _) = &obj {
            assert_eq!(keys.len(), 6);
        }
        assert!(matches!(get(&obj, "str"), Some(JsonValue::Str(_))));
        assert!(matches!(get(&obj, "num"), Some(JsonValue::Number(_))));
        assert!(matches!(get(&obj, "bool"), Some(JsonValue::Boolean(_))));
        assert!(matches!(get(&obj, "null"), Some(JsonValue::Null)));
        assert!(matches!(get(&obj, "arr"), Some(JsonValue::List(_))));
        assert!(matches!(get(&obj, "obj"), Some(JsonValue::Dict(..))));
    } else {
        panic!("Expected object");
    }
}

#[test]
fn test_stack_resume_from_incomplete_string() {
    let mut parser = StackParser::new();

    parser.feed(br#"{"message": "Hello Wo"#).unwrap();
    assert!(matches!(parser.parse_next(), Ok(Next::NeedMore)));

    parser.feed(br#"rld!"}"#).unwrap();
    parser.end_of_input();

    let result = parser.parse_next().unwrap();
    if let Next::Value(obj @ JsonValue::Dict(..)) = result {
        if let Some(JsonValue::Str(s)) = get(&obj, "message") {
            assert_eq!(s, "Hello World!");
        } else {
            panic!("Expected string value");
        }
    } else {
        panic!("Expected object");
    }
}

#[test]
fn test_stack_very_deep_nesting() {
    let mut parser = StackParser::new();
    let depth = 20;
    let mut json = String::new();
    for _ in 0..depth {
        json.push('[');
    }
    json.push_str("42");
    for _ in 0..depth {
        json.push(']');
    }

    parser.feed(json.as_bytes()).unwrap();
    parser.end_of_input();

    let result = parser.parse_next().unwrap();
    assert!(matches!(result, Next::Value(JsonValue::List(_))));
}

#[test]
fn test_stack_unicode_in_strings() {
    let mut parser = StackParser::new();
    parser
        .feed(r#"{"emoji": "🚀", "chinese": "你好", "escaped": "\u0048\u0065\u006C\u006C\u006F"}"#.as_bytes())
        .unwrap();
    parser.end_of_input();

    let result = parser.parse_next().unwrap();
    if let Next::Value(obj @ JsonValue::Dict(..)) = result {
        if let Some(JsonValue::Str(s)) = get(&obj, "emoji") {
            assert_eq!(s, "🚀");
        }
        if let Some(JsonValue::Str(s)) = get(&obj, "chinese") {
            assert_eq!(s, "你好");
        }
        if let Some(JsonValue::Str(s)) = get(&obj, "escaped") {
            assert_eq!(s, "Hello");
        }
    } else {
        panic!("Expected object");
    }
}

#[test]
fn stack_parser_errors_and_positions() {
    let mut p = StackParser::new();
    p.feed(b"{3}").unwrap();
    p.end_of_input();
    assert_eq!(
        p.parse_next(),
        Err(ParseError::new(
            ParseErrorKind::UnexpectedToken { found: "Some(51)".to_string(), expected: &["\"", "}"] },
            1
        ))
    );
    let mut q = StackParser::new();
    q.feed(b"]").unwrap();
    q.end_of_input();
    assert_eq!(
        q.parse_next(),
        Err(ParseError::new(
            ParseErrorKind::UnexpectedToken {
                found: "0x5D".to_string(),
                expected: &["string", "number", "boolean", "null"]
            },
            0
        ))
    );
    let mut r = StackParser::new();
    r.feed(b"[1] x").unwrap();
    r.end_of_input();
    assert_eq!(r.parse_full(), Err(ParseError::new(ParseErrorKind::TrailingData, 4)));
    assert_eq!(r.pos(), 4);
}

#[test]
fn stack_parser_feed_after_end_is_refused() {
    let mut p = StackParser::default();
    p.end_of_input();
    assert!(p.feed(b"1").is_err());
    assert!(matches!(p.parse_next(), Ok(Next::Eof)));
}

/// Parses `chunks` one after another with `parse_next`, signalling the end of
/// input after the last one, and returns every answer.
fn answers_in_chunks(chunks: &[&[u8]]) -> Vec<Result<Next<JsonValue>, ParseError>> {
    let mut parser = StackParser::new();
    let mut out = Vec::new();
    for (i, chunk) in chunks.iter().enumerate() {
        parser.feed(chunk).unwrap();
        if i + 1 == chunks.len() {
            parser.end_of_input();
        }
        out.push(parser.parse_next());
    }
    out
}

#[test]
fn resumed_parse_equals_whole_input_parse() {
    let whole: &[u8] = br#"{"users": [{"name": "Alice", "age": 30}], "tag": "a\nb\u00e9", "n": -12.5e3}"#;
    for split in 1..whole.len() {
        let (first, rest) = whole.split_at(split);
        let answers = answers_in_chunks(&[first, rest]);
        let one_shot = answers_in_chunks(&[whole]);
        let last = answers.last().unwrap();
        assert_eq!(format!("{:?}", last), format!("{:?}", one_shot[0]), "split at {}", split);
        assert!(matches!(answers[0], Ok(Next::NeedMore)), "split at {}", split);
    }
}

#[test]
fn resumed_parse_in_three_chunks() {
    let answers = answers_in_chunks(&[b"[12", b"3, \"ab", b"c\", true]"]);
    assert!(matches!(answers[0], Ok(Next::NeedMore)));
    assert!(matches!(answers[1], Ok(Next::NeedMore)));
    match &answers[2] {
        Ok(Next::Value(JsonValue::List(items))) => {
            assert_eq!(items.len(), 3);
            assert_eq!(items[0], num("123"));
            assert_eq!(items[1], JsonValue::Str("abc".to_string()));
            assert_eq!(items[2], JsonValue::Boolean(true));
        }
        other => panic!("unexpected {:?}", other),
    }
}

#[test]
fn resumed_parse_after_open_container_then_end_reports_end_of_stream() {
    // A value was begun and only the end of input followed: the resumed
    // parser answers with the end of the stream, the whole-input parse with
    // an error.
    let answers = answers_in_chunks(&[b"[1,", b""]);
    assert!(matches!(answers[0], Ok(Next::NeedMore)));
    assert!(matches!(answers[1], Ok(Next::Eof)));
    let one_shot = answers_in_chunks(&[b"[1,"]);
    assert!(matches!(one_shot[0], Err(ParseError { kind: ParseErrorKind::Incomplete, .. })));
}

#[test]
fn compact_keeps_the_unread_input_and_the_open_containers() {
    let mut parser = StackParser::new();
    parser.feed(br#"{"a": [1, "x"#).unwrap();
    assert!(matches!(parser.parse_next(), Ok(Next::NeedMore)));
    let before = parser.pos();
    assert!(before > 0);
    parser.compact();
    assert_eq!(parser.pos(), 0);
    parser.feed(br#"y"]}"#).unwrap();
    parser.end_of_input();
    match parser.parse_next() {
        Ok(Next::Value(v)) => {
            assert_eq!(
                v,
                JsonValue::Dict(
                    vec!["a".to_string()],
                    vec![JsonValue::List(vec![num("1"), JsonValue::Str("xy".to_string())])]
                )
            );
        }
        other => panic!("unexpected {:?}", other),
    }
}

#[test]
fn paused_stack_parse_gives_what_parse_one_gives() {
    let t1: &[u8] = br#"{"message": "Hello Wo"#;
    let t2: &[u8] = br#"rld!"}"#;
    let mut parser = StackParser::new();
    parser.feed(t1).unwrap();
    assert!(matches!(parser.parse_next(), Ok(Next::NeedMore)));
    parser.feed(t2).unwrap();
    parser.end_of_input();
    let whole = [t1, t2].concat();
    let expected = akari::json_parser::BsonParser::parse_one(&whole).unwrap();
    assert_eq!(
        expected,
        JsonValue::Dict(vec!["message".to_string()], vec![JsonValue::Str("Hello World!".to_string())])
    );
    match parser.parse_next() {
        Ok(Next::Value(v)) => assert_eq!(v, expected),
        other => panic!("unexpected {:?}", other),
    }
}

#[test]
fn pausing_at_every_byte_gives_the_whole_value() {
    let text: &[u8] = br#"{"message": "Hello W\u00f6rld!", "n": [1, -2.5e3, true, null, {"k": []}]}"#;
    for k in 0..text.len() {
        let whole = akari::json_parser::BsonParser::parse_one(text).unwrap();
        let mut parser = StackParser::new();
        parser.feed(&text[..k]).unwrap();
        let first = parser.parse_next().unwrap();
        assert_eq!(first, Next::NeedMore, "split at {}", k);
        parser.feed(&text[k..]).unwrap();
        parser.end_of_input();
        assert_eq!(parser.parse_next().unwrap(), Next::Value(whole), "split at {}", k);
    }
}

#[test]
fn paused_string_message_is_joined() {
    let mut parser = StackParser::new();
    parser.feed(br#"{"message": "Hello Wo"#).unwrap();
    assert_eq!(parser.parse_next().unwrap(), Next::NeedMore);
    parser.feed(br#"rld!"}"#).unwrap();
    parser.end_of_input();
    match parser.parse_next().unwrap() {
        Next::Value(JsonValue::Dict(keys, values)) => {
            assert_eq!(keys, vec!["message".to_string()]);
            assert_eq!(values, vec![JsonValue::Str("Hello World!".to_string())]);
        }
        other => panic!("unexpected {:?}", other),
    }
}
