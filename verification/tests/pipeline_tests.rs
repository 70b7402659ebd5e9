use tiny_json::{parse, JsonNumber, ParseError, TokenParseError, TokenizeError, Value};

fn num_value(neg: bool, int_digits: Vec<u8>, frac_digits: Vec<u8>) -> Value {
    Value::Number(JsonNumber { neg, int_digits, frac_digits })
}

#[test]
fn parses_bare_null() {
    assert_eq!(parse(String::from("null")).unwrap(), Value::Null);
}

#[test]
fn parses_literal_array() {
    let expected = Value::Array(vec![
        Value::Boolean(true),
        Value::Boolean(false),
        Value::Null,
    ]);
    assert_eq!(parse(String::from("[true,false,null]")).unwrap(), expected);
}

#[test]
fn parses_negative_float() {
    let expected = num_value(true, vec![1, 2, 3], vec![4, 5, 6]);
    assert_eq!(parse(String::from("-123.456")).unwrap(), expected);
}

#[test]
fn unclosed_string_fails_lexically() {
    assert_eq!(
        parse(String::from("\"unclosed string")),
        Err(ParseError::TokenizeError(TokenizeError::UnclosedQuotes))
    );
}

#[test]
fn parses_empty_array_text() {
    assert_eq!(parse(String::from("[]")).unwrap(), Value::Array(vec![]));
}

#[test]
fn decodes_named_escapes() {
    assert_eq!(
        parse(String::from(r#""\"""#)).unwrap(),
        Value::String(String::from("\""))
    );
    assert_eq!(
        parse(String::from(r#""\\""#)).unwrap(),
        Value::String(String::from("\\"))
    );
    assert_eq!(
        parse(String::from(r#""\n""#)).unwrap(),
        Value::String(String::from("\n"))
    );
    assert_eq!(
        parse(String::from(r#""\t""#)).unwrap(),
        Value::String(String::from("\t"))
    );
    assert_eq!(
        parse(String::from(r#""\r""#)).unwrap(),
        Value::String(String::from("\r"))
    );
    assert_eq!(
        parse(String::from(r#""\b""#)).unwrap(),
        Value::String(String::from("\u{8}"))
    );
    assert_eq!(
        parse(String::from(r#""\f""#)).unwrap(),
        Value::String(String::from("\u{c}"))
    );
}

#[test]
fn decodes_unicode_escape() {
    assert_eq!(
        parse(String::from(r#""\u0041""#)).unwrap(),
        Value::String(String::from("A"))
    );
    assert_eq!(
        parse(String::from(r#""\u00e9""#)).unwrap(),
        Value::String(String::from("\u{e9}"))
    );
}

#[test]
fn unknown_escape_passes_through() {
    assert_eq!(
        parse(String::from(r#""\q""#)).unwrap(),
        Value::String(String::from("q"))
    );
}

#[test]
fn invalid_hex_digit_fails() {
    assert_eq!(
        parse(String::from(r#""\uzzzz""#)),
        Err(ParseError::ParseError(TokenParseError::InvalidHexValue))
    );
}

#[test]
fn short_unicode_escape_fails() {
    assert_eq!(
        parse(String::from(r#""\u12""#)),
        Err(ParseError::ParseError(TokenParseError::UnfinishedEscape))
    );
}

#[test]
fn surrogate_code_point_fails() {
    assert_eq!(
        parse(String::from(r#""\ud800""#)),
        Err(ParseError::ParseError(TokenParseError::InvalidCodePointValue))
    );
}

#[test]
fn missing_comma_in_array_fails() {
    assert_eq!(
        parse(String::from("[true null]")),
        Err(ParseError::ParseError(TokenParseError::ExpectedComma))
    );
}

#[test]
fn non_string_key_fails() {
    assert_eq!(
        parse(String::from("{true: 1}")),
        Err(ParseError::ParseError(TokenParseError::ExpectedProperty))
    );
}

#[test]
fn missing_colon_fails() {
    assert_eq!(
        parse(String::from(r#"{"a" 1}"#)),
        Err(ParseError::ParseError(TokenParseError::ExpectedColon))
    );
}

#[test]
fn stray_closer_is_not_a_value() {
    assert_eq!(
        parse(String::from("]")),
        Err(ParseError::ParseError(TokenParseError::ExpectedValue))
    );
}

#[test]
fn empty_input_is_not_a_value() {
    assert_eq!(
        parse(String::new()),
        Err(ParseError::ParseError(TokenParseError::ExpectedValue))
    );
}

#[test]
fn truncated_array_fails() {
    assert_eq!(
        parse(String::from("[1,2")),
        Err(ParseError::ParseError(TokenParseError::ExpectedComma))
    );
}

#[test]
fn parsing_twice_is_deterministic() {
    let text = r#"{"k": [1, 2.5, "x\n", {"y": null}]}"#;
    let first = parse(String::from(text)).unwrap();
    let second = parse(String::from(text)).unwrap();
    assert_eq!(first, second);
}

#[test]
fn parses_nested_document() {
    let text = r#"{"a": [true, {"b": "c"}], "d": -0.5}"#;
    let expected = Value::Object(vec![
        (
            "a".to_string(),
            Value::Array(vec![
                Value::Boolean(true),
                Value::Object(vec![("b".to_string(), Value::String("c".to_string()))]),
            ]),
        ),
        ("d".to_string(), num_value(true, vec![0], vec![5])),
    ]);
    assert_eq!(parse(String::from(text)).unwrap(), expected);
}

#[test]
fn trailing_comma_in_object_fails() {
    // after a separating comma a key is required, not a closing brace
    assert_eq!(
        parse(String::from(r#"{"a":1,}"#)),
        Err(ParseError::ParseError(TokenParseError::ExpectedProperty))
    );
}

#[test]
fn parse_error_wraps_both_stages() {
    assert_eq!(
        ParseError::from(TokenParseError::ExpectedValue),
        ParseError::ParseError(TokenParseError::ExpectedValue)
    );
    assert_eq!(
        ParseError::from(TokenizeError::UnexpectedEof),
        ParseError::TokenizeError(TokenizeError::UnexpectedEof)
    );
}

#[test]
fn object_keys_are_taken_raw() {
    // the parser does not escape-decode keys, only string values
    let text = r#"{"a\n": 1}"#;
    let expected = Value::Object(vec![(
        String::from(r#"a\n"#),
        num_value(false, vec![1], vec![]),
    )]);
    assert_eq!(parse(String::from(text)).unwrap(), expected);
}
