use tiny_json::{parse, parse_tokens, JsonNumber, Token, Value};

fn check(input: Vec<Token>, expected: Value) {
    let value = parse_tokens(&input, 0).unwrap().0;
    assert_eq!(value, expected);
}

fn num_token(neg: bool, int_digits: Vec<u8>, frac_digits: Vec<u8>) -> Token {
    Token::Number(JsonNumber { neg, int_digits, frac_digits })
}

fn num_value(neg: bool, int_digits: Vec<u8>, frac_digits: Vec<u8>) -> Value {
    Value::Number(JsonNumber { neg, int_digits, frac_digits })
}

#[test]
fn test_parse_null() {
    check(vec![Token::Null], Value::Null);
}

#[test]
fn parses_string_no_escapes() {
    let input = vec![Token::String("hello world".into())];
    let expected = Value::String("hello world".into());

    check(input, expected);
}

#[test]
fn parses_string_non_ascii() {
    let input = vec![Token::String("olá_こんにちは_नमस्ते_привіт".into())];
    let expected = Value::String(String::from("olá_こんにちは_नमस्ते_привіт"));

    check(input, expected);
}

#[test]
fn parses_string_with_emoji() {
    let input = vec![Token::String("hello 💩 world".into())];
    let expected = Value::String(String::from("hello 💩 world"));

    check(input, expected);
}

#[test]
fn parses_string_unescape_backslash() {
    let input = vec![Token::String(r#"hello\\world"#.into())];
    let expected = Value::String(r#"hello\world"#.into());

    check(input, expected);
}

#[test]
fn parses_array_one_element() {
    // [true]
    let input = vec![Token::LeftBracket, Token::True, Token::RightBracket];
    let expected = Value::Array(vec![Value::Boolean(true)]);

    check(input, expected);
}

#[test]
fn parses_array_two_elements() {
    // [null, 16]
    let input = vec![
        Token::LeftBracket,
        Token::Null,
        Token::Comma,
        num_token(false, vec![1, 6], vec![]),
        Token::RightBracket,
    ];
    let expected = Value::Array(vec![Value::Null, num_value(false, vec![1, 6], vec![])]);

    check(input, expected);
}

#[test]
fn parses_empty_array() {
    // []
    let input = vec![Token::LeftBracket, Token::RightBracket];
    let expected = Value::Array(vec![]);

    check(input, expected);
}

#[test]
fn parses_nested_array() {
    // [null, [null]]
    let input = vec![
        Token::LeftBracket,
        Token::Null,
        Token::Comma,
        Token::LeftBracket,
        Token::Null,
        Token::RightBracket,
        Token::RightBracket,
    ];
    let expected = Value::Array(vec![Value::Null, Value::Array(vec![Value::Null])]);

    check(input, expected);
}

#[test]
fn test_parse() {
    let input = String::from(r#"{"key": "value"}"#);
    let expected = Value::Object(vec![(
        "key".to_string(),
        Value::String("value".to_string()),
    )]);

    assert_eq!(parse(input).unwrap(), expected);
}

#[test]
fn element_order_is_source_order() {
    // [1, 2, 3] keeps its elements in encounter order
    let input = vec![
        Token::LeftBracket,
        num_token(false, vec![1], vec![]),
        Token::Comma,
        num_token(false, vec![2], vec![]),
        Token::Comma,
        num_token(false, vec![3], vec![]),
        Token::RightBracket,
    ];
    let expected = Value::Array(vec![
        num_value(false, vec![1], vec![]),
        num_value(false, vec![2], vec![]),
        num_value(false, vec![3], vec![]),
    ]);

    check(input, expected);
}

#[test]
fn repeated_key_keeps_last_value() {
    // {"a": 1, "a": 2} keeps only the later value
    let input = String::from(r#"{"a": 1, "a": 2}"#);
    let expected = Value::Object(vec![("a".to_string(), num_value(false, vec![2], vec![]))]);
    assert_eq!(parse(input).unwrap(), expected);
}

#[test]
fn parses_empty_object() {
    let input = String::from("{}");
    let expected = Value::Object(vec![]);
    assert_eq!(parse(input).unwrap(), expected);
}
