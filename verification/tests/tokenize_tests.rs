use tiny_json::{tokenize, JsonNumber, Token, TokenizeError};

fn num(neg: bool, int_digits: Vec<u8>, frac_digits: Vec<u8>) -> Token {
    Token::Number(JsonNumber { neg, int_digits, frac_digits })
}

#[test]
fn test_comma() {
    let input = String::from(",");
    let expected = vec![Token::Comma];
    assert_eq!(tokenize(input).unwrap(), expected);
}

fn test_literal(literal: &str, expected: Token) {
    let input = String::from(literal);
    let expected = vec![expected];
    assert_eq!(tokenize(input).unwrap(), expected);
}

#[test]
fn test_null() {
    test_literal("null", Token::Null);
}

#[test]
fn test_false() {
    test_literal("false", Token::False);
}

#[test]
fn test_true() {
    test_literal("true", Token::True);
}

#[test]
fn test_integer() {
    let input = String::from("123");
    let expected = vec![num(false, vec![1, 2, 3], vec![])];
    assert_eq!(tokenize(input).unwrap(), expected);
}

#[test]
fn test_negative_integer() {
    let input = String::from("-123");
    let expected = vec![num(true, vec![1, 2, 3], vec![])];
    assert_eq!(tokenize(input).unwrap(), expected);
}

#[test]
fn test_string() {
    let input = String::from("\"hello\"");
    let expected = vec![Token::String(String::from("hello"))];
    assert_eq!(tokenize(input).unwrap(), expected);
}

#[test]
fn test_unclosed_quotes() {
    let input = String::from("\"unclosed string");
    assert_eq!(tokenize(input), Err(TokenizeError::UnclosedQuotes));
}

#[test]
fn test_escape_quotes() {
    let input = String::from(r#""the \" us OK""#);
    let expected = vec![Token::String(String::from(r#"the \" us OK"#))];
    assert_eq!(tokenize(input).unwrap(), expected);
}

#[test]
fn test_float() {
    let input = String::from("123.456");
    let expected = vec![num(false, vec![1, 2, 3], vec![4, 5, 6])];
    assert_eq!(tokenize(input).unwrap(), expected);

    let input = String::from("-123.456");
    let expected = vec![num(true, vec![1, 2, 3], vec![4, 5, 6])];
    assert_eq!(tokenize(input).unwrap(), expected);
}

#[test]
fn test_all_punctuation() {
    let input = String::from("{}[]:,");
    let expected = vec![
        Token::LeftBrace,
        Token::RightBrace,
        Token::LeftBracket,
        Token::RightBracket,
        Token::Colon,
        Token::Comma,
    ];
    assert_eq!(tokenize(input).unwrap(), expected);
}

#[test]
fn test_tokenize() {
    let input = String::from(r#"{"key": "value"}"#);
    let expected = vec![
        Token::LeftBrace,
        Token::String(String::from("key")),
        Token::Colon,
        Token::String(String::from("value")),
        Token::RightBrace,
    ];
    assert_eq!(tokenize(input).unwrap(), expected);
}

#[test]
fn tokens_between_numbers_are_kept() {
    let input = String::from("[1,2]");
    let expected = vec![
        Token::LeftBracket,
        num(false, vec![1], vec![]),
        Token::Comma,
        num(false, vec![2], vec![]),
        Token::RightBracket,
    ];
    assert_eq!(tokenize(input).unwrap(), expected);
}

#[test]
fn lone_minus_is_a_number_error() {
    assert_eq!(tokenize(String::from("-")), Err(TokenizeError::ParseNumberError));
}

#[test]
fn second_dot_ends_the_number() {
    // "1.2.3" lexes the number 1.2, then fails on the stray dot
    assert_eq!(
        tokenize(String::from("1.2.3")),
        Err(TokenizeError::CharNotRecognized('.'))
    );
}

#[test]
fn unfinished_literal_is_an_error() {
    assert_eq!(
        tokenize(String::from("nul")),
        Err(TokenizeError::UnfinishedLiteralValue)
    );
    assert_eq!(
        tokenize(String::from("falsy")),
        Err(TokenizeError::UnfinishedLiteralValue)
    );
}

#[test]
fn trailing_whitespace_is_unexpected_eof() {
    assert_eq!(tokenize(String::from("null ")), Err(TokenizeError::UnexpectedEof));
    assert_eq!(tokenize(String::from("   ")), Err(TokenizeError::UnexpectedEof));
}

#[test]
fn empty_input_has_no_tokens() {
    assert_eq!(tokenize(String::new()).unwrap(), vec![]);
}

#[test]
fn unrecognized_character() {
    assert_eq!(tokenize(String::from("@")), Err(TokenizeError::CharNotRecognized('@')));
}

#[test]
fn string_ending_in_backslash_is_unclosed() {
    // the input ends right after an escaping backslash, at the buffer boundary
    assert_eq!(tokenize(String::from("\"ab\\")), Err(TokenizeError::UnclosedQuotes));
    assert_eq!(tokenize(String::from("\"ab\\\"")), Err(TokenizeError::UnclosedQuotes));
}

#[test]
fn bare_trailing_dot_stays_in_the_number() {
    let input = String::from("5.");
    let expected = vec![num(false, vec![5], vec![])];
    assert_eq!(tokenize(input).unwrap(), expected);
}
