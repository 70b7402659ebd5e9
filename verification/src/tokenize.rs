//! Lexical analysis: input text to a sequence of tokens.
//!
//! The specification side is a family of recursive functions over
//! `Seq<char>` (`spec_make_token`, `spec_tokens_from`); the executable
//! lexer is proved to return exactly what they describe.

use vstd::prelude::*;
use vstd::string::StrSliceExecFns;

use crate::{JsonNumber, NumberModel};

verus! {

/// One lexical unit of a JSON document.
#[derive(Debug, PartialEq)]
pub enum Token {
    /// `{`
    LeftBrace,
    /// `}`
    RightBrace,
    /// `[`
    LeftBracket,
    /// `]`
    RightBracket,
    /// `:`
    Colon,
    /// `,`
    Comma,
    /// `null`
    Null,
    /// `false`
    False,
    /// `true`
    True,
    /// Any number literal, kept as its exact decimal digits
    Number(JsonNumber),
    /// Key of the key/value pair or a string value, raw (escapes undecoded)
    String(String),
}

/// Mathematical model of a [`Token`].
pub enum TokenModel {
    LeftBrace,
    RightBrace,
    LeftBracket,
    RightBracket,
    Colon,
    Comma,
    Null,
    False,
    True,
    Number(NumberModel),
    String(Seq<char>),
}

impl View for Token {
    type V = TokenModel;

    open spec fn view(&self) -> TokenModel {
        match self {
            Token::LeftBrace => TokenModel::LeftBrace,
            Token::RightBrace => TokenModel::RightBrace,
            Token::LeftBracket => TokenModel::LeftBracket,
            Token::RightBracket => TokenModel::RightBracket,
            Token::Colon => TokenModel::Colon,
            Token::Comma => TokenModel::Comma,
            Token::Null => TokenModel::Null,
            Token::False => TokenModel::False,
            Token::True => TokenModel::True,
            Token::Number(n) => TokenModel::Number(n@),
            Token::String(s) => TokenModel::String(s@),
        }
    }
}

/// The models of a token sequence.
pub open spec fn tokens_model(ts: Seq<Token>) -> Seq<TokenModel> {
    ts.map_values(|t: Token| t@)
}

/// A failure of lexical analysis.
#[derive(Debug, PartialEq, Eq)]
pub enum TokenizeError {
    /// A literal keyword (`null`, `false`, `true`) was started but not matched.
    UnfinishedLiteralValue,
    /// A string literal was opened and the input ended before an unescaped quote.
    UnclosedQuotes,
    /// The input ended while skipping whitespace in front of a token.
    UnexpectedEof,
    /// A character that cannot start any token.
    CharNotRecognized(char),
    /// A numeric literal with no digits (such as a lone minus sign).
    ParseNumberError,
}

/// ASCII whitespace, as the lexer skips it.
pub open spec fn is_ws(c: char) -> bool {
    c == ' ' || c == '\t' || c == '\n' || c == '\r' || c == '\x0c'
}

/// An ASCII decimal digit.
pub open spec fn is_digit(c: char) -> bool {
    48 <= c as u32 && c as u32 <= 57
}

/// The value of an ASCII decimal digit character.
pub open spec fn digit_of(c: char) -> u8 {
    (c as u32 - 48) as u8
}

/// Whether the word `w` occurs in `s` starting at position `i`.
pub open spec fn lit_matches(s: Seq<char>, i: int, w: Seq<char>) -> bool {
    i + w.len() <= s.len() && s.subrange(i, i + w.len() as int) == w
}

/// Raw content and consumed length of a string literal body: `i` is the
/// position after the opening quote, `esc` the escaping flag. The content
/// runs to the first unescaped `"`; each backslash flips the flag, any
/// other character resets it. Consumption counts the closing quote.
pub open spec fn spec_lex_string(s: Seq<char>, i: int, esc: bool) -> Result<
    (Seq<char>, int),
    TokenizeError,
>
    decreases s.len() - i,
{
    if i < 0 || i >= s.len() {
        Err(TokenizeError::UnclosedQuotes)
    } else if s[i] == '"' && !esc {
        Ok((Seq::empty(), 1))
    } else {
        let esc2 = if s[i] == '\\' {
            !esc
        } else {
            false
        };
        match spec_lex_string(s, i + 1, esc2) {
            Ok((content, used)) => Ok((seq![s[i]] + content, used + 1)),
            Err(e) => Err(e),
        }
    }
}

/// Digit runs of a numeric literal starting at `i`: the digits before the
/// decimal point, the digits after it, and the count of characters
/// consumed. A second `.` (or any other character) ends the run.
pub open spec fn spec_lex_num_run(s: Seq<char>, i: int, seen_dot: bool) -> (Seq<u8>, Seq<u8>, int)
    decreases s.len() - i,
{
    if i < 0 || i >= s.len() {
        (Seq::empty(), Seq::empty(), 0)
    } else if is_digit(s[i]) {
        let r = spec_lex_num_run(s, i + 1, seen_dot);
        if seen_dot {
            (r.0, seq![digit_of(s[i])] + r.1, r.2 + 1)
        } else {
            (seq![digit_of(s[i])] + r.0, r.1, r.2 + 1)
        }
    } else if s[i] == '.' && !seen_dot {
        let r = spec_lex_num_run(s, i + 1, true);
        (r.0, r.1, r.2 + 1)
    } else {
        (Seq::empty(), Seq::empty(), 0)
    }
}

/// The token starting at position `i` (after skipping whitespace) and the
/// count of characters consumed from `i`, whitespace included; or the
/// lexical error.
pub open spec fn spec_make_token(s: Seq<char>, i: int) -> Result<(TokenModel, int), TokenizeError>
    decreases s.len() - i,
{
    if i < 0 || i >= s.len() {
        Err(TokenizeError::UnexpectedEof)
    } else if is_ws(s[i]) {
        match spec_make_token(s, i + 1) {
            Ok((t, used)) => Ok((t, used + 1)),
            Err(e) => Err(e),
        }
    } else if s[i] == '{' {
        Ok((TokenModel::LeftBrace, 1))
    } else if s[i] == '}' {
        Ok((TokenModel::RightBrace, 1))
    } else if s[i] == '[' {
        Ok((TokenModel::LeftBracket, 1))
    } else if s[i] == ']' {
        Ok((TokenModel::RightBracket, 1))
    } else if s[i] == ':' {
        Ok((TokenModel::Colon, 1))
    } else if s[i] == ',' {
        Ok((TokenModel::Comma, 1))
    } else if s[i] == 'n' {
        if lit_matches(s, i, seq!['n', 'u', 'l', 'l']) {
            Ok((TokenModel::Null, 4))
        } else {
            Err(TokenizeError::UnfinishedLiteralValue)
        }
    } else if s[i] == 'f' {
        if lit_matches(s, i, seq!['f', 'a', 'l', 's', 'e']) {
            Ok((TokenModel::False, 5))
        } else {
            Err(TokenizeError::UnfinishedLiteralValue)
        }
    } else if s[i] == 't' {
        if lit_matches(s, i, seq!['t', 'r', 'u', 'e']) {
            Ok((TokenModel::True, 4))
        } else {
            Err(TokenizeError::UnfinishedLiteralValue)
        }
    } else if s[i] == '"' {
        match spec_lex_string(s, i + 1, false) {
            Ok((content, used)) => Ok((TokenModel::String(content), used + 1)),
            Err(e) => Err(e),
        }
    } else if is_digit(s[i]) || s[i] == '-' {
        let neg = s[i] == '-';
        let start = if neg {
            i + 1
        } else {
            i
        };
        let r = spec_lex_num_run(s, start, false);
        if r.0.len() + r.1.len() == 0 {
            Err(TokenizeError::ParseNumberError)
        } else {
            Ok(
                (
                    TokenModel::Number(
                        NumberModel { neg, int_digits: r.0, frac_digits: r.1 },
                    ),
                    (start - i) + r.2,
                ),
            )
        }
    } else {
        Err(TokenizeError::CharNotRecognized(s[i]))
    }
}

/// The token sequence lexed from position `i` to the end of the input.
pub open spec fn spec_tokens_from(s: Seq<char>, i: int) -> Result<Seq<TokenModel>, TokenizeError>
    decreases s.len() - i via spec_tokens_from_decreases
{
    if i < 0 || i >= s.len() {
        Ok(Seq::empty())
    } else {
        match spec_make_token(s, i) {
            Err(e) => Err(e),
            Ok((t, used)) => match spec_tokens_from(s, i + used) {
                Ok(rest) => Ok(seq![t] + rest),
                Err(e) => Err(e),
            },
        }
    }
}

#[via_fn]
proof fn spec_tokens_from_decreases(s: Seq<char>, i: int) {
    lemma_make_token_used_bounds(s, i);
}

/// The digit run never consumes more characters than remain, and consumes
/// none on a position past the end.
pub proof fn lemma_num_run_bounds(s: Seq<char>, i: int, seen_dot: bool)
    ensures
        0 <= spec_lex_num_run(s, i, seen_dot).2,
        i <= s.len() ==> spec_lex_num_run(s, i, seen_dot).2 <= s.len() - i,
        i > s.len() ==> spec_lex_num_run(s, i, seen_dot).2 == 0,
        spec_lex_num_run(s, i, seen_dot).0.len() + spec_lex_num_run(s, i, seen_dot).1.len()
            <= spec_lex_num_run(s, i, seen_dot).2,
    decreases s.len() - i,
{
    if 0 <= i < s.len() && (is_digit(s[i]) || (s[i] == '.' && !seen_dot)) {
        lemma_num_run_bounds(s, i + 1, seen_dot || s[i] == '.');
    }
}

/// A string literal body consumes at least its closing quote and never
/// more characters than remain.
pub proof fn lemma_lex_string_used_bounds(s: Seq<char>, i: int, esc: bool)
    ensures
        spec_lex_string(s, i, esc) matches Ok(r) ==> 1 <= r.1 <= s.len() - i,
    decreases s.len() - i,
{
    if 0 <= i < s.len() && !(s[i] == '"' && !esc) {
        let esc2 = if s[i] == '\\' {
            !esc
        } else {
            false
        };
        lemma_lex_string_used_bounds(s, i + 1, esc2);
    }
}

/// A token consumes at least one character and never more than remain.
pub proof fn lemma_make_token_used_bounds(s: Seq<char>, i: int)
    ensures
        spec_make_token(s, i) matches Ok(r) ==> 1 <= r.1 <= s.len() - i,
    decreases s.len() - i,
{
    if 0 <= i < s.len() {
        if is_ws(s[i]) {
            lemma_make_token_used_bounds(s, i + 1);
        } else if s[i] == '"' {
            lemma_lex_string_used_bounds(s, i + 1, false);
        } else if is_digit(s[i]) || s[i] == '-' {
            let start = if s[i] == '-' {
                i + 1
            } else {
                i
            };
            lemma_num_run_bounds(s, start, false);
        }
    }
}

/// The characters of a string, in order, as a vector.
pub(crate) fn to_chars(s: &str) -> (r: Vec<char>)
    ensures
        r@ == s@,
{
    let n = s.unicode_len();
    let mut r: Vec<char> = Vec::new();
    let mut i: usize = 0;
    while i < n
        invariant
            n == s@.len(),
            i <= n,
            r@ == s@.subrange(0, i as int),
        decreases n - i,
    {
        let c = s.get_char(i);
        r.push(c);
        proof {
            assert(s@.subrange(0, i + 1 as int) =~= s@.subrange(0, i as int).push(s@[i as int]));
        }
        i = i + 1;
    }
    proof {
        assert(r@ =~= s@);
    }
    r
}

/// Relies on `FromIterator for String` through `Iterator::collect`:
/// collecting characters yields the string of exactly those characters.
#[verifier::external_body]
pub(crate) fn chars_to_string(v: Vec<char>) -> (r: String)
    ensures
        r@ == v@,
{
    v.into_iter().collect()
}

/// Whether `c` is ASCII whitespace.
fn ws_char(c: char) -> (r: bool)
    ensures
        r == is_ws(c),
{
    c == ' ' || c == '\t' || c == '\n' || c == '\r' || c == '\x0c'
}

/// Whether `c` is an ASCII decimal digit.
fn digit_char(c: char) -> (r: bool)
    ensures
        r == is_digit(c),
{
    let u = c as u32;
    48 <= u && u <= 57
}

/// Whether the four characters of a literal keyword stand at `i`.
fn lit4(chars: &Vec<char>, i: usize, c0: char, c1: char, c2: char, c3: char) -> (r: bool)
    ensures
        r == lit_matches(chars@, i as int, seq![c0, c1, c2, c3]),
{
    if chars.len() >= 4 && i <= chars.len() - 4 {
        let r = chars[i] == c0 && chars[i + 1] == c1 && chars[i + 2] == c2 && chars[i + 3] == c3;
        proof {
            let w = seq![c0, c1, c2, c3];
            let sub = chars@.subrange(i as int, i as int + 4);
            assert(sub.len() == 4);
            assert(sub[0] == chars@[i as int]);
            assert(sub[1] == chars@[i as int + 1]);
            assert(sub[2] == chars@[i as int + 2]);
            assert(sub[3] == chars@[i as int + 3]);
            if r {
                assert(sub =~= w);
            }
        }
        r
    } else {
        false
    }
}

/// Whether the five characters of a literal keyword stand at `i`.
fn lit5(chars: &Vec<char>, i: usize, c0: char, c1: char, c2: char, c3: char, c4: char) -> (r: bool)
    ensures
        r == lit_matches(chars@, i as int, seq![c0, c1, c2, c3, c4]),
{
    if chars.len() >= 5 && i <= chars.len() - 5 {
        let r = chars[i] == c0 && chars[i + 1] == c1 && chars[i + 2] == c2 && chars[i + 3] == c3
            && chars[i + 4] == c4;
        proof {
            let w = seq![c0, c1, c2, c3, c4];
            let sub = chars@.subrange(i as int, i as int + 5);
            assert(sub.len() == 5);
            assert(sub[0] == chars@[i as int]);
            assert(sub[1] == chars@[i as int + 1]);
            assert(sub[2] == chars@[i as int + 2]);
            assert(sub[3] == chars@[i as int + 3]);
            assert(sub[4] == chars@[i as int + 4]);
            if r {
                assert(sub =~= w);
            }
        }
        r
    } else {
        false
    }
}

/// The body of a string literal: `start` is the position after the opening
/// quote. Returns the raw content and the count of characters consumed
/// (closing quote included).
fn lex_string_body(chars: &Vec<char>, start: usize) -> (res: Result<
    (Vec<char>, usize),
    TokenizeError,
>)
    ensures
        match res {
            Ok(r) => spec_lex_string(chars@, start as int, false) == Ok::<_, TokenizeError>(
                (r.0@, r.1 as int),
            ) && 1 <= r.1 <= chars@.len() - start,
            Err(e) => spec_lex_string(chars@, start as int, false) == Err::<(Seq<char>, int), _>(e),
        },
{
    let n = chars.len();
    let mut out: Vec<char> = Vec::new();
    let mut i = start;
    let mut esc = false;
    loop
        invariant
            n == chars@.len(),
            start <= i,
            out@.len() == i - start,
            ({
                match spec_lex_string(chars@, i as int, esc) {
                    Ok(r) => spec_lex_string(chars@, start as int, false) == Ok::<
                        _,
                        TokenizeError,
                    >((out@ + r.0, (i - start) + r.1)),
                    Err(e) => spec_lex_string(chars@, start as int, false) == Err::<
                        (Seq<char>, int),
                        _,
                    >(e),
                }
            }),
        decreases n - i,
    {
        if i >= n {
            return Err(TokenizeError::UnclosedQuotes);
        }
        let c = chars[i];
        if c == '"' && !esc {
            proof {
                assert(out@ + Seq::<char>::empty() =~= out@);
            }
            return Ok((out, i - start + 1));
        }
        let ghost prev = out@;
        let e2 = if c == '\\' {
            !esc
        } else {
            false
        };
        proof {
            match spec_lex_string(chars@, i as int + 1, e2) {
                Ok(r) => {
                    assert(prev + (seq![c] + r.0) =~= prev.push(c) + r.0);
                },
                Err(e) => {},
            }
        }
        out.push(c);
        esc = e2;
        i = i + 1;
    }
}

/// After the decimal point, the run puts every digit in the fraction part,
/// so the integer part it reports is empty.
proof fn lemma_num_run_dot_ints_empty(s: Seq<char>, i: int)
    ensures
        spec_lex_num_run(s, i, true).0 == Seq::<u8>::empty(),
    decreases s.len() - i,
{
    if 0 <= i < s.len() && is_digit(s[i]) {
        lemma_num_run_dot_ints_empty(s, i + 1);
    }
}

/// The digit run of a numeric literal starting at `start`: digits before
/// the decimal point, digits after it, and the count of characters consumed.
fn lex_num_run(chars: &Vec<char>, start: usize) -> (res: (Vec<u8>, Vec<u8>, usize))
    requires
        start <= chars@.len(),
    ensures
        ({
            let r = spec_lex_num_run(chars@, start as int, false);
            res.0@ == r.0 && res.1@ == r.1 && res.2 as int == r.2 && res.2 <= chars@.len()
                - start
        }),
{
    let n = chars.len();
    let mut ints: Vec<u8> = Vec::new();
    let mut fracs: Vec<u8> = Vec::new();
    let mut seen_dot = false;
    let mut i = start;
    while i < n && (digit_char(chars[i]) || (chars[i] == '.' && !seen_dot))
        invariant
            n == chars@.len(),
            start <= i <= n,
            !seen_dot ==> fracs@ == Seq::<u8>::empty(),
            ({
                let cur = spec_lex_num_run(chars@, i as int, seen_dot);
                let top = spec_lex_num_run(chars@, start as int, false);
                if seen_dot {
                    top.0 == ints@ && top.1 == fracs@ + cur.1 && top.2 == (i - start) + cur.2
                } else {
                    top.0 == ints@ + cur.0 && top.1 == cur.1 && top.2 == (i - start) + cur.2
                }
            }),
        decreases n - i,
    {
        let c = chars[i];
        if digit_char(c) {
            let d = (c as u32 - 48) as u8;
            proof {
                let r = spec_lex_num_run(chars@, i as int + 1, seen_dot);
                if seen_dot {
                    assert(fracs@ + (seq![digit_of(c)] + r.1) =~= fracs@.push(d) + r.1);
                } else {
                    assert(ints@ + (seq![digit_of(c)] + r.0) =~= ints@.push(d) + r.0);
                }
            }
            if seen_dot {
                fracs.push(d);
            } else {
                ints.push(d);
            }
        } else {
            proof {
                lemma_num_run_dot_ints_empty(chars@, i as int + 1);
                let r = spec_lex_num_run(chars@, i as int + 1, true);
                assert(ints@ + r.0 =~= ints@);
                assert(fracs@ + r.1 =~= r.1);
            }
            seen_dot = true;
        }
        i = i + 1;
    }
    proof {
        let cur = spec_lex_num_run(chars@, i as int, seen_dot);
        assert(cur.0 =~= Seq::<u8>::empty());
        assert(cur.1 =~= Seq::<u8>::empty());
        assert(ints@ + cur.0 =~= ints@);
        assert(fracs@ + cur.1 =~= fracs@);
    }
    (ints, fracs, i - start)
}

/// The next token at or after position `index`, and the count of
/// characters consumed from `index` on, leading whitespace included.
fn make_token(chars: &Vec<char>, index: usize) -> (res: Result<(Token, usize), TokenizeError>)
    ensures
        match res {
            Ok(r) => spec_make_token(chars@, index as int) == Ok::<_, TokenizeError>(
                (r.0@, r.1 as int),
            ) && 1 <= r.1 <= chars@.len() - index,
            Err(e) => spec_make_token(chars@, index as int) == Err::<(TokenModel, int), _>(e),
        },
{
    let n = chars.len();
    let mut i = index;
    while i < n && ws_char(chars[i])
        invariant
            n == chars@.len(),
            index <= i,
            ({
                match spec_make_token(chars@, i as int) {
                    Ok(r) => spec_make_token(chars@, index as int) == Ok::<_, TokenizeError>(
                        (r.0, r.1 + (i - index)),
                    ),
                    Err(e) => spec_make_token(chars@, index as int) == Err::<
                        (TokenModel, int),
                        _,
                    >(e),
                }
            }),
        decreases n - i,
    {
        i = i + 1;
    }
    if i >= n {
        return Err(TokenizeError::UnexpectedEof);
    }
    let c = chars[i];
    if c == '{' {
        Ok((Token::LeftBrace, i - index + 1))
    } else if c == '}' {
        Ok((Token::RightBrace, i - index + 1))
    } else if c == '[' {
        Ok((Token::LeftBracket, i - index + 1))
    } else if c == ']' {
        Ok((Token::RightBracket, i - index + 1))
    } else if c == ':' {
        Ok((Token::Colon, i - index + 1))
    } else if c == ',' {
        Ok((Token::Comma, i - index + 1))
    } else if c == 'n' {
        if lit4(chars, i, 'n', 'u', 'l', 'l') {
            Ok((Token::Null, i - index + 4))
        } else {
            Err(TokenizeError::UnfinishedLiteralValue)
        }
    } else if c == 'f' {
        if lit5(chars, i, 'f', 'a', 'l', 's', 'e') {
            Ok((Token::False, i - index + 5))
        } else {
            Err(TokenizeError::UnfinishedLiteralValue)
        }
    } else if c == 't' {
        if lit4(chars, i, 't', 'r', 'u', 'e') {
            Ok((Token::True, i - index + 4))
        } else {
            Err(TokenizeError::UnfinishedLiteralValue)
        }
    } else if c == '"' {
        match lex_string_body(chars, i + 1) {
            Ok(r) => {
                let s = chars_to_string(r.0);
                Ok((Token::String(s), i - index + 1 + r.1))
            },
            Err(e) => Err(e),
        }
    } else if digit_char(c) || c == '-' {
        let neg = c == '-';
        let start = if neg {
            i + 1
        } else {
            i
        };
        proof {
            lemma_num_run_bounds(chars@, start as int, false);
        }
        let r = lex_num_run(chars, start);
        if r.0.len() == 0 && r.1.len() == 0 {
            Err(TokenizeError::ParseNumberError)
        } else {
            let used = (start - index) + r.2;
            Ok((Token::Number(JsonNumber { neg, int_digits: r.0, frac_digits: r.1 }), used))
        }
    } else {
        Err(TokenizeError::CharNotRecognized(c))
    }
}

/// Lexical analysis: the input text as its sequence of tokens, produced
/// strictly left to right; or the first lexical error. The result is
/// exactly what [`spec_tokens_from`] describes at position `0`.
pub fn tokenize(input: String) -> (res: Result<Vec<Token>, TokenizeError>)
    ensures
        match res {
            Ok(tokens) => spec_tokens_from(input@, 0) == Ok::<_, TokenizeError>(
                tokens_model(tokens@),
            ),
            Err(e) => spec_tokens_from(input@, 0) == Err::<Seq<TokenModel>, _>(e),
        },
{
    let chars = to_chars(input.as_str());
    let mut tokens: Vec<Token> = Vec::new();
    let mut index: usize = 0;
    proof {
        assert(tokens_model(tokens@) =~= Seq::<TokenModel>::empty());
        match spec_tokens_from(chars@, 0) {
            Ok(rest) => {
                assert(tokens_model(tokens@) + rest =~= rest);
            },
            Err(e) => {},
        }
    }
    while index < chars.len()
        invariant
            chars@ == input@,
            index <= chars@.len(),
            ({
                match spec_tokens_from(chars@, index as int) {
                    Ok(rest) => spec_tokens_from(chars@, 0) == Ok::<_, TokenizeError>(
                        tokens_model(tokens@) + rest,
                    ),
                    Err(e) => spec_tokens_from(chars@, 0) == Err::<Seq<TokenModel>, _>(e),
                }
            }),
        decreases chars@.len() - index,
    {
        match make_token(&chars, index) {
            Ok(r) => {
                proof {
                    let tok = r.0;
                    match spec_tokens_from(chars@, index + r.1 as int) {
                        Ok(rest2) => {
                            assert(tokens@.push(tok).map_values(|t: Token| t@) =~= tokens@
                                .map_values(|t: Token| t@).push(tok@));
                            assert(tokens_model(tokens@) + (seq![tok@] + rest2) =~= tokens_model(
                                tokens@,
                            ).push(tok@) + rest2);
                        },
                        Err(e) => {},
                    }
                }
                let (tok, used) = r;
                tokens.push(tok);
                index = index + used;
            },
            Err(e) => {
                return Err(e);
            },
        }
    }
    proof {
        match spec_tokens_from(chars@, index as int) {
            Ok(rest) => {
                assert(tokens_model(tokens@) + rest =~= tokens_model(tokens@));
            },
            Err(e) => {},
        }
    }
    Ok(tokens)
}

} // verus!
