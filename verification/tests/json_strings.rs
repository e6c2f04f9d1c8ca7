//! JSON string serialization and primitive parsing.
use akari::bin_inner::BinInner;
use akari::json_parse::{parse_boolean, parse_null, parse_string, parse_unicode_escape};
use akari::json_parser::{BinJsonParser, ValueError, FrameState, JsonSerializer};
use akari::json_text::{serialize_string, write_unicode_escape, SerializeError, SerializeErrorKind};
use akari::parse_error::{LineCol, ParseError, ParseErrorKind};
use akari::writer::BinWriter;

fn inner_with(bytes: &[u8]) -> BinInner {
    let mut inner = BinInner::new();
    inner.feed(bytes);
    inner
}

#[test]
fn test_serialize_simple_string() {
    let mut writer = BinWriter::new();
    serialize_string(&mut writer, "hello").unwrap();
    assert_eq!(writer.as_str(), r#""hello""#);
}

#[test]
fn test_serialize_string_with_escapes() {
    let mut writer = BinWriter::new();
    serialize_string(&mut writer, "hello\nworld").unwrap();
    assert_eq!(writer.as_str(), r#""hello\nworld""#);
}

#[test]
fn test_serialize_string_with_quotes() {
    let mut writer = BinWriter::new();
    serialize_string(&mut writer, r#"say "hi""#).unwrap();
    assert_eq!(writer.as_str(), r#""say \"hi\"""#);
}

#[test]
fn test_serialize_string_with_backslash() {
    let mut writer = BinWriter::new();
    serialize_string(&mut writer, r"C:\path\file").unwrap();
    assert_eq!(writer.as_str(), r#""C:\\path\\file""#);
}

#[test]
fn test_serialize_string_with_control_chars() {
    let mut writer = BinWriter::new();
    serialize_string(&mut writer, "\x00\x01\x1F").unwrap();
    assert_eq!(writer.as_str(), r#""\u0000\u0001\u001f""#);
}

#[test]
fn test_serialize_string_unicode() {
    let mut writer = BinWriter::new();
    serialize_string(&mut writer, "Hello 世界 🌍").unwrap();
    assert_eq!(writer.as_str(), r#""Hello 世界 🌍""#);
}

#[test]
fn serialize_string_short_escapes_and_c1_controls() {
    let mut writer = BinWriter::new();
    serialize_string(&mut writer, "\u{8}\u{c}\r\t\u{7f}\u{9f}\u{a0}").unwrap();
    assert_eq!(writer.as_str(), "\"\\b\\f\\r\\t\\u007f\\u009f\u{a0}\"");
}

#[test]
fn serialize_string_appends_to_existing_output() {
    let mut writer = BinWriter::new();
    writer.write_str("x=");
    serialize_string(&mut writer, "a").unwrap();
    assert_eq!(writer.as_bytes(), b"x=\"a\"");
}

#[test]
fn unicode_escape_uses_low_sixteen_bits_lowercase() {
    let mut writer = BinWriter::new();
    write_unicode_escape(&mut writer, 0xABCD);
    write_unicode_escape(&mut writer, 0x1_00FF);
    assert_eq!(writer.as_str(), "\\uabcd\\u00ff");
}

#[test]
fn round_trip_serialize_then_parse() {
    for s in ["", "plain", "quote \" and \\ slash", "tab\tnl\ncr\r", "\u{0}\u{1}\u{1f}\u{7f}", "Hello 世界 🌍", "\u{8}\u{c}"] {
        let mut writer = BinWriter::new();
        serialize_string(&mut writer, s).unwrap();
        writer.write_str(" trailing");
        let mut inner = inner_with(writer.as_bytes());
        let parsed = parse_string(&mut inner).unwrap();
        assert_eq!(parsed, s);
        assert_eq!(inner.pos(), writer.len() - " trailing".len());
    }
}

#[test]
fn parse_string_decodes_escapes() {
    let mut inner = inner_with(br#""a\/b\u0048\u00e9\t" rest"#);
    assert_eq!(parse_string(&mut inner).unwrap(), "a/bH\u{e9}\t");
    assert_eq!(inner.pos(), 20);
}

#[test]
fn parse_string_unicode_escapes_spell_hello() {
    let mut inner = inner_with(br#""\u0048\u0065\u006C\u006C\u006F""#);
    assert_eq!(parse_string(&mut inner).unwrap(), "Hello");
}

#[test]
fn parse_string_needs_opening_quote() {
    let mut inner = inner_with(b"abc");
    let err = parse_string(&mut inner).unwrap_err();
    assert_eq!(err, ParseError::new(ParseErrorKind::Message("Expected '\"'"), 0));
    assert_eq!(inner.pos(), 1);
    let mut empty = BinInner::new();
    let err = parse_string(&mut empty).unwrap_err();
    assert_eq!(err.pos, 0);
    assert_eq!(empty.pos(), 0);
}

#[test]
fn parse_string_incomplete_restores_position() {
    let mut inner = inner_with(b"  \"abc");
    inner.set_pos(2);
    let err = parse_string(&mut inner).unwrap_err();
    assert_eq!(err.kind, ParseErrorKind::Incomplete);
    assert_eq!(err.pos, 2);
    assert_eq!(inner.pos(), 2);
    let mut inner = inner_with(b"\"ab\\");
    let err = parse_string(&mut inner).unwrap_err();
    assert_eq!(err, ParseError::new(ParseErrorKind::Incomplete, 0));
}

#[test]
fn parse_string_incomplete_inside_unicode_escape_restarts_at_quote() {
    let mut inner = inner_with(b"\"x\\u00");
    let err = parse_string(&mut inner).unwrap_err();
    assert_eq!(err, ParseError::new(ParseErrorKind::Incomplete, 0));
    assert_eq!(inner.pos(), 0);
}

#[test]
fn parse_string_error_kinds() {
    let mut inner = inner_with(b"\"\\q\"");
    let err = parse_string(&mut inner).unwrap_err();
    assert_eq!(err, ParseError::new(ParseErrorKind::Message("Invalid escape sequence"), 3));

    let mut inner = inner_with(b"\"\\u12g4\"");
    let err = parse_string(&mut inner).unwrap_err();
    assert_eq!(err, ParseError::new(ParseErrorKind::Message("Invalid hex digit in Unicode escape"), 6));

    let mut inner = inner_with(b"\"\\uD800\"");
    let err = parse_string(&mut inner).unwrap_err();
    assert_eq!(err, ParseError::new(ParseErrorKind::Message("Invalid Unicode codepoint"), 7));

    let mut inner = inner_with(b"\"\xff\xfe\"");
    let err = parse_string(&mut inner).unwrap_err();
    assert_eq!(err, ParseError::new(ParseErrorKind::InvalidEncoding("Invalid UTF-8 in string"), 4));
    assert_eq!(inner.pos(), 4);
}

#[test]
fn parse_unicode_escape_reads_four_digits() {
    let mut inner = inner_with(b"00aF!");
    assert_eq!(parse_unicode_escape(&mut inner), Ok(0xAF));
    assert_eq!(inner.pos(), 4);
    let mut short = inner_with(b"12");
    assert_eq!(parse_unicode_escape(&mut short), Err(ParseError::new(ParseErrorKind::Incomplete, 0)));
    assert_eq!(short.pos(), 0);
}

#[test]
fn parse_boolean_cases() {
    let mut inner = inner_with(b"true,");
    assert_eq!(parse_boolean(&mut inner), Ok(true));
    assert_eq!(inner.pos(), 4);
    let mut inner = inner_with(b"false");
    assert_eq!(parse_boolean(&mut inner), Ok(false));
    assert_eq!(inner.pos(), 5);
    let mut inner = inner_with(b"tru");
    assert_eq!(parse_boolean(&mut inner), Err(ParseError::new(ParseErrorKind::Incomplete, 0)));
    let mut inner = inner_with(b"fals");
    assert_eq!(parse_boolean(&mut inner), Err(ParseError::new(ParseErrorKind::Incomplete, 0)));
    assert_eq!(inner.pos(), 0);
    let mut inner = inner_with(b"fable");
    let err = parse_boolean(&mut inner).unwrap_err();
    match err.kind {
        ParseErrorKind::UnexpectedToken { found, expected } => {
            assert_eq!(found, "fable");
            assert_eq!(expected, &["true", "false"]);
        }
        other => panic!("unexpected kind {:?}", other),
    }
    assert_eq!(inner.pos(), 0);
}

#[test]
fn parse_null_cases() {
    let mut inner = inner_with(b"null]");
    assert_eq!(parse_null(&mut inner), Ok(()));
    assert_eq!(inner.pos(), 4);
    let mut inner = inner_with(b"none");
    assert_eq!(parse_null(&mut inner), Ok(()));
    let mut inner = inner_with(b"nul");
    assert_eq!(parse_null(&mut inner), Err(ParseError::new(ParseErrorKind::Incomplete, 0)));
    let mut inner = inner_with(b"nope");
    let err = parse_null(&mut inner).unwrap_err();
    assert_eq!(
        err.kind,
        ParseErrorKind::UnexpectedToken { found: "nope".to_string(), expected: &["null", "none"] }
    );
}

#[test]
fn bin_inner_cursor() {
    let mut inner = BinInner::new();
    assert_eq!(inner.peek_byte(), None);
    assert_eq!(inner.next_byte(), None);
    inner.feed(b" \t\r\nx");
    inner.skip_whitespace();
    assert_eq!(inner.pos(), 4);
    assert_eq!(inner.peek_byte(), Some(b'x'));
    assert_eq!(inner.next_byte(), Some(b'x'));
    assert_eq!(inner.pos(), 5);
    inner.feed(b"yz");
    assert_eq!(inner.buffer(), b" \t\r\nxyz");
    inner.set_pos(1);
    assert_eq!(inner.peek_byte(), Some(b'\t'));
}

#[test]
fn parse_error_builders() {
    let e = ParseError::new(ParseErrorKind::DepthLimit, 7)
        .with_context("deep")
        .with_line_col(LineCol { line: 2, col: 3 });
    assert_eq!(e.kind, ParseErrorKind::DepthLimit);
    assert_eq!(e.pos, 7);
    assert_eq!(e.context, Some("deep".to_string()));
    assert_eq!(e.line_col, Some(LineCol { line: 2, col: 3 }));
    let t = ParseError::new(ParseErrorKind::TrailingData, 1).with_context(String::from("x"));
    assert_eq!(t.context.as_deref(), Some("x"));
    assert_eq!(ParseError::new(ParseErrorKind::InvalidNumber, 0).context, None);
}

#[test]
fn bin_json_parser_state() {
    let mut p = BinJsonParser::new();
    assert!(p.needs_more());
    p.feed(b"[1]").unwrap();
    assert!(!p.needs_more());
    assert_eq!(p.pos(), 0);
    assert_eq!(p.error(ParseErrorKind::InvalidNumber), ParseError::new(ParseErrorKind::InvalidNumber, 0));
    assert_eq!(p.error_msg("m"), ParseError::new(ParseErrorKind::Message("m"), 0));
    p.max_depth(3).end_of_input();
    assert!(!p.needs_more());
    let err = p.feed_str("x").unwrap_err();
    assert_eq!(err.kind, ParseErrorKind::Message("Cannot feed after end_of_input"));
}

#[test]
fn serialize_errors_and_small_types() {
    let e = SerializeError::invalid_value("NaN").with_context("n".to_string());
    assert_eq!(e.kind, SerializeErrorKind::InvalidValue("NaN"));
    assert_eq!(e.context, Some("n".to_string()));
    assert_eq!(SerializeError::depth_limit().kind, SerializeErrorKind::DepthLimit);
    assert_eq!(SerializeError::message("m").kind, SerializeErrorKind::Message("m"));
    assert!(ValueError::TypeError < ValueError::IndexOutOfBoundsError);
    assert_ne!(FrameState::Array, FrameState::ObjectWaitingForKey);
    let _ = JsonSerializer::default();
}

#[test]
fn string_cut_anywhere_is_incomplete_at_the_quote() {
    let whole: &[u8] = br#""ab\n\u00e9c""#;
    for cut in 1..whole.len() {
        let mut inner = inner_with(&whole[..cut]);
        let err = parse_string(&mut inner).unwrap_err();
        assert_eq!(err, ParseError::new(ParseErrorKind::Incomplete, 0), "cut at {}", cut);
        assert_eq!(inner.pos(), 0);
    }
    let mut inner = inner_with(whole);
    assert_eq!(parse_string(&mut inner).unwrap(), "ab\n\u{e9}c");
}
