use brigadier::errors::CommandErrorType;
use brigadier::string_reader::StringReader;

#[test]
fn read_string_unquoted() {
    const TEXT: &str = r#"foo-0123456789._ bar baz"#;
    let mut reader = StringReader::new(TEXT);
    assert_eq!(reader.read_string(), Ok(String::from("foo-0123456789._")));
    assert_eq!(reader.remaining(), " bar baz");
}

#[test]
fn read_string_quoted() {
    const TEXT: &str = r#""foo"abc"#;
    let mut reader = StringReader::new(TEXT);
    assert_eq!(reader.read_string(), Ok(String::from("foo")));
    assert_eq!(reader.remaining(), "abc");
}

#[test]
fn read_string_quoted_unicode() {
    const TEXT: &str = "'Check: \u{2705}.'abc";
    let mut reader = StringReader::new(TEXT);
    assert_eq!(reader.read_string(), Ok(String::from("Check: \u{2705}.")));
    assert_eq!(reader.remaining(), "abc");
}

#[test]
fn read_string_quoted_escaped() {
    const TEXT: &str = r#""this is a\" test"abc"#;
    let mut reader = StringReader::new(TEXT);
    assert_eq!(reader.read_string(), Ok(String::from(r#"this is a" test"#)));
    assert_eq!(reader.remaining(), "abc");
}

#[test]
fn escaped_backslash_is_kept_once() {
    let mut reader = StringReader::new(r#"'a\\b\'c' rest"#);
    assert_eq!(reader.read_quoted_string(), Ok(String::from(r#"a\b'c"#)));
    assert_eq!(reader.remaining(), " rest");
    assert_eq!(reader.cursor(), 9);
}

#[test]
fn invalid_escape_fails_and_rewinds() {
    let mut reader = StringReader::new(r#""a\b""#);
    let err = reader.read_string().unwrap_err();
    assert_eq!(err.error_type, CommandErrorType::ReaderInvalidEscape('b'));
    assert_eq!(err.context.unwrap().cursor, 3);
    assert_eq!(reader.cursor(), 0);
    assert_eq!(reader.remaining(), r#""a\b""#);
}

#[test]
fn unclosed_quote_fails_and_rewinds() {
    let mut reader = StringReader::new("\"abc");
    let err = reader.read_quoted_string().unwrap_err();
    assert_eq!(err.error_type, CommandErrorType::ReaderExpectedEndOfQuote);
    assert_eq!(err.context.unwrap().cursor, 4);
    assert_eq!(reader.cursor(), 0);
}

#[test]
fn quoted_string_needs_a_quote() {
    let mut reader = StringReader::new("abc");
    let err = reader.read_quoted_string().unwrap_err();
    assert_eq!(err.error_type, CommandErrorType::ReaderExpectedStartOfQuote);
    assert_eq!(reader.cursor(), 0);
}

#[test]
fn empty_input_reads_empty_strings() {
    let mut reader = StringReader::new("");
    assert_eq!(reader.read_quoted_string(), Ok(String::new()));
    assert_eq!(reader.read_string(), Ok(String::new()));
    assert_eq!(reader.read_unquoted_string(), Ok(""));
}

#[test]
fn unquoted_string_stops_at_other_chars() {
    let mut reader = StringReader::new("a+b.c_d-1!x");
    assert_eq!(reader.read_unquoted_string(), Ok("a+b.c_d-1"));
    assert_eq!(reader.remaining(), "!x");
}

#[test]
fn read_boolean_values() {
    let mut reader = StringReader::new("true false");
    assert_eq!(reader.read_boolean(), Ok(true));
    reader.skip_whitespace();
    assert_eq!(reader.read_boolean(), Ok(false));
    assert_eq!(reader.remaining(), "");
}

#[test]
fn read_boolean_rejects_other_text() {
    let mut reader = StringReader::new("tru x");
    let err = reader.read_boolean().unwrap_err();
    assert_eq!(err.error_type, CommandErrorType::ReaderInvalidBool(String::from("tru")));
    assert_eq!(err.context.unwrap().cursor, 0);
    assert_eq!(reader.cursor(), 0);
}

#[test]
fn read_boolean_is_case_sensitive() {
    let mut reader = StringReader::new("True");
    assert!(reader.read_boolean().is_err());
    assert_eq!(reader.cursor(), 0);
}

#[test]
fn read_int_values() {
    let mut reader = StringReader::new("-123 rest");
    assert_eq!(reader.read_int(), Ok(-123));
    assert_eq!(reader.remaining(), " rest");
}

#[test]
fn read_int_errors() {
    let mut reader = StringReader::new("abc");
    let err = reader.read_int().unwrap_err();
    assert_eq!(err.error_type, CommandErrorType::ReaderExpectedInt);

    let mut reader = StringReader::new("1.5");
    let err = reader.read_int().unwrap_err();
    assert_eq!(err.error_type, CommandErrorType::ReaderInvalidInt(String::from("1.5")));
    assert_eq!(reader.cursor(), 0);

    let mut reader = StringReader::new("99999999999");
    let err = reader.read_int().unwrap_err();
    assert_eq!(err.error_type, CommandErrorType::ReaderInvalidInt(String::from("99999999999")));
}

#[test]
fn read_long_values() {
    let mut reader = StringReader::new("99999999999");
    assert_eq!(reader.read_long(), Ok(99_999_999_999));
    let mut reader = StringReader::new("-");
    let err = reader.read_long().unwrap_err();
    assert_eq!(err.error_type, CommandErrorType::ReaderInvalidLong(String::from("-")));
    let mut reader = StringReader::new("");
    assert_eq!(reader.read_long().unwrap_err().error_type, CommandErrorType::ReaderExpectedLong);
}

#[test]
fn skip_whitespace_java_classification() {
    let mut reader = StringReader::new(" \t\u{2028}\u{3000}x");
    reader.skip_whitespace();
    assert_eq!(reader.remaining(), "x");
    let mut reader = StringReader::new("\u{00A0}x");
    reader.skip_whitespace();
    assert_eq!(reader.remaining(), "\u{00A0}x");
    let mut reader = StringReader::new("\u{2007}x");
    reader.skip_whitespace();
    assert_eq!(reader.cursor(), 0);
}

#[test]
fn cursor_counts_bytes() {
    let mut reader = StringReader::new("\u{2705}ab");
    reader.skip();
    assert_eq!(reader.cursor(), 3);
    assert_eq!(reader.remaining(), "ab");
    reader.set_cursor(4);
    assert_eq!(reader.remaining(), "b");
    let ctx = reader.context();
    assert_eq!(ctx.cursor, 4);
    assert_eq!(ctx.input, "\u{2705}ab");
    assert_eq!(reader.input(), "\u{2705}ab");
}

#[test]
fn peek_number_does_not_move() {
    let reader = StringReader::new("-1.5e3");
    assert_eq!(reader.peek_number(), "-1.5");
    assert_eq!(reader.cursor(), 0);
}
