//! Structural analysis: a token sequence to a document value.
//!
//! The specification side is a family of recursive functions over
//! `Seq<TokenModel>` (`spec_parse_value` and its productions) together
//! with the string decoder `spec_decode_string`; the executable parser is
//! proved to return exactly what they describe.

use vstd::prelude::*;
use vstd::map::*;

use crate::tokenize::{
    Token, TokenModel, TokenizeError, tokenize, tokens_model, spec_tokens_from, to_chars,
    chars_to_string,
};
use crate::{JsonNumber, Value, ValueModel, value_model, vals_model, object_map, assoc_has_key,
    assoc_value_of_at, array_models_at, value_wf};

verus! {

/// A failure of the whole pipeline, tagged with the stage it came from.
#[derive(Debug, PartialEq)]
pub enum ParseError {
    /// Lexical analysis failed.
    TokenizeError(TokenizeError),
    /// Structural analysis failed.
    ParseError(TokenParseError),
}

/// A failure of structural analysis or of string-escape decoding.
#[derive(Debug, PartialEq, Eq)]
pub enum TokenParseError {
    /// An escape sequence was started without 4 hexadecimal digits afterward
    UnfinishedEscape,
    /// A character in an escape sequence was not valid hexadecimal
    InvalidHexValue,
    /// Invalid unicode value
    InvalidCodePointValue,
    ExpectedComma,
    ExpectedProperty,
    ExpectedColon,
    ExpectedValue,
}

impl From<TokenParseError> for ParseError {
    fn from(err: TokenParseError) -> Self {
        Self::ParseError(err)
    }
}

impl vstd::std_specs::convert::FromSpecImpl<TokenParseError> for ParseError {
    open spec fn obeys_from_spec() -> bool {
        true
    }

    open spec fn from_spec(err: TokenParseError) -> Self {
        ParseError::ParseError(err)
    }
}

impl From<TokenizeError> for ParseError {
    fn from(err: TokenizeError) -> Self {
        Self::TokenizeError(err)
    }
}

impl vstd::std_specs::convert::FromSpecImpl<TokenizeError> for ParseError {
    open spec fn obeys_from_spec() -> bool {
        true
    }

    open spec fn from_spec(err: TokenizeError) -> Self {
        ParseError::TokenizeError(err)
    }
}

/// The value of a hexadecimal digit character, upper or lower case.
pub open spec fn spec_hex_digit(c: char) -> Option<u8> {
    let u = c as u32;
    if 48 <= u && u <= 57 {
        Some((u - 48) as u8)
    } else if 97 <= u && u <= 102 {
        Some((u - 87) as u8)
    } else if 65 <= u && u <= 70 {
        Some((u - 55) as u8)
    } else {
        None
    }
}

pub open spec fn pow16(n: nat) -> nat
    decreases n,
{
    if n == 0 {
        1
    } else {
        16 * pow16((n - 1) as nat)
    }
}

/// The big-endian value of `k` hexadecimal digit characters at `i`,
/// checked one at a time: a missing character fails before an invalid one
/// further right.
pub open spec fn spec_hex_run(s: Seq<char>, i: int, k: nat) -> Result<int, TokenParseError>
    decreases k,
{
    if k == 0 {
        Ok(0)
    } else if i < 0 || i >= s.len() {
        Err(TokenParseError::UnfinishedEscape)
    } else {
        match spec_hex_digit(s[i]) {
            None => Err(TokenParseError::InvalidHexValue),
            Some(d) => match spec_hex_run(s, i + 1, (k - 1) as nat) {
                Ok(v) => Ok(d * pow16((k - 1) as nat) + v),
                Err(e) => Err(e),
            },
        }
    }
}

/// A hexadecimal run that succeeds saw all `k` characters.
pub proof fn lemma_hex_run_len(s: Seq<char>, i: int, k: nat)
    ensures
        spec_hex_run(s, i, k) matches Ok(v) ==> 0 <= v < pow16(k) && (k > 0 ==> i + k
            <= s.len()),
    decreases k,
{
    if k > 0 && 0 <= i < s.len() {
        lemma_hex_run_len(s, i + 1, (k - 1) as nat);
        match spec_hex_digit(s[i]) {
            Some(d) => {
                match spec_hex_run(s, i + 1, (k - 1) as nat) {
                    Ok(v) => {
                        assert(d <= 15);
                        assert(pow16(k) == 16 * pow16((k - 1) as nat));
                        assert(d * pow16((k - 1) as nat) + v < pow16(k)) by (nonlinear_arith)
                            requires
                                0 <= d <= 15,
                                0 <= v < pow16((k - 1) as nat),
                                pow16(k) == 16 * pow16((k - 1) as nat),
                        ;
                    },
                    Err(_) => {},
                }
            },
            None => {},
        }
    }
}

/// The character an escaped character stands for: the named escapes of
/// JSON resolve to their control characters, anything else (other than
/// `u`, which is handled apart) passes through unchanged.
pub open spec fn escape_char(e: char) -> char {
    if e == '"' {
        '"'
    } else if e == '\\' {
        '\\'
    } else if e == 'b' {
        '\u{8}'
    } else if e == 'f' {
        '\u{c}'
    } else if e == 'n' {
        '\n'
    } else if e == 'r' {
        '\r'
    } else if e == 't' {
        '\t'
    } else {
        e
    }
}

/// The decoded characters of a string token's raw content: characters are
/// copied, escape sequences are resolved, `\u` takes four hexadecimal
/// digits naming a Unicode scalar value, and a lone backslash at the end
/// is dropped.
pub open spec fn spec_decode_string(s: Seq<char>) -> Result<Seq<char>, TokenParseError>
    decreases s.len() via spec_decode_string_decreases
{
    if s.len() == 0 {
        Ok(Seq::empty())
    } else if s[0] != '\\' {
        match spec_decode_string(s.skip(1)) {
            Ok(rest) => Ok(seq![s[0]] + rest),
            Err(e) => Err(e),
        }
    } else if s.len() == 1 {
        Ok(Seq::empty())
    } else if s[1] == 'u' {
        match spec_hex_run(s, 2, 4) {
            Err(e) => Err(e),
            Ok(v) => if 0xD800 <= v <= 0xDFFF {
                Err(TokenParseError::InvalidCodePointValue)
            } else {
                match spec_decode_string(s.skip(6)) {
                    Ok(rest) => Ok(seq![(v as u32) as char] + rest),
                    Err(e) => Err(e),
                }
            },
        }
    } else {
        match spec_decode_string(s.skip(2)) {
            Ok(rest) => Ok(seq![escape_char(s[1])] + rest),
            Err(e) => Err(e),
        }
    }
}

#[via_fn]
proof fn spec_decode_string_decreases(s: Seq<char>) {
    lemma_hex_run_len(s, 2, 4);
}

/// The value production at token position `i`: the parsed value's model
/// and the count of tokens consumed; or the structural error.
pub open spec fn spec_parse_value(toks: Seq<TokenModel>, i: int) -> Result<
    (ValueModel, int),
    TokenParseError,
>
    decreases toks.len() - i, 0int,
{
    if i < 0 || i >= toks.len() {
        Err(TokenParseError::ExpectedValue)
    } else {
        match toks[i] {
            TokenModel::Null => Ok((ValueModel::Null, 1)),
            TokenModel::False => Ok((ValueModel::Boolean(false), 1)),
            TokenModel::True => Ok((ValueModel::Boolean(true), 1)),
            TokenModel::Number(n) => Ok((ValueModel::Number(n), 1)),
            TokenModel::String(s) => match spec_decode_string(s) {
                Ok(d) => Ok((ValueModel::String(d), 1)),
                Err(e) => Err(e),
            },
            TokenModel::LeftBracket => match spec_parse_elems(toks, i + 1, Seq::empty()) {
                Ok(r) => Ok((ValueModel::Array(r.0), r.1 + 1)),
                Err(e) => Err(e),
            },
            TokenModel::LeftBrace => match spec_parse_members(toks, i + 1, Map::empty(), true) {
                Ok(r) => Ok((ValueModel::Object(r.0), r.1 + 1)),
                Err(e) => Err(e),
            },
            _ => Err(TokenParseError::ExpectedValue),
        }
    }
}

/// The array production from `i`, the position after `[` or after a
/// separating comma: the elements' models appended to `acc` in encounter
/// order, and the count of tokens consumed, the closing bracket included.
pub open spec fn spec_parse_elems(toks: Seq<TokenModel>, i: int, acc: Seq<ValueModel>) -> Result<
    (Seq<ValueModel>, int),
    TokenParseError,
>
    decreases toks.len() - i, 1int,
{
    if i < 0 || i >= toks.len() {
        Err(TokenParseError::ExpectedValue)
    } else if toks[i] == TokenModel::RightBracket {
        Ok((acc, 1))
    } else {
        match spec_parse_value(toks, i) {
            Err(e) => Err(e),
            Ok(r) => {
                let j = i + r.1;
                if r.1 < 1 {
                    // a value consumes at least one token, so this branch is never taken
                    Err(TokenParseError::ExpectedValue)
                } else if j >= toks.len() {
                    Err(TokenParseError::ExpectedComma)
                } else if toks[j] == TokenModel::RightBracket {
                    Ok((acc.push(r.0), r.1 + 1))
                } else if toks[j] == TokenModel::Comma {
                    match spec_parse_elems(toks, j + 1, acc.push(r.0)) {
                        Ok(r2) => Ok((r2.0, r.1 + 1 + r2.1)),
                        Err(e) => Err(e),
                    }
                } else {
                    Err(TokenParseError::ExpectedComma)
                }
            },
        }
    }
}

/// The object production from `i`, the position after `{` (with `first`
/// set) or after a separating comma: the members' map extended from
/// `acc`, and the count of tokens consumed, the closing brace included.
/// A `}` directly after the opening brace yields the empty mapping; after
/// a separating comma a key is required, so a trailing comma fails with
/// `ExpectedProperty`. Keys are taken raw from their string tokens; a
/// repeated key keeps the value of its last occurrence.
pub open spec fn spec_parse_members(
    toks: Seq<TokenModel>,
    i: int,
    acc: Map<Seq<char>, ValueModel>,
    first: bool,
) -> Result<(Map<Seq<char>, ValueModel>, int), TokenParseError>
    decreases toks.len() - i, 1int,
{
    if i < 0 || i >= toks.len() {
        Err(TokenParseError::ExpectedProperty)
    } else if first && toks[i] == TokenModel::RightBrace {
        Ok((acc, 1))
    } else {
        match toks[i] {
            TokenModel::String(k) => {
                if i + 1 >= toks.len() || toks[i + 1] != TokenModel::Colon {
                    Err(TokenParseError::ExpectedColon)
                } else {
                    match spec_parse_value(toks, i + 2) {
                        Err(e) => Err(e),
                        Ok(r) => {
                            let j = i + 2 + r.1;
                            if r.1 < 1 {
                                // a value consumes at least one token, so this branch is never taken
                                Err(TokenParseError::ExpectedValue)
                            } else if j >= toks.len() {
                                Err(TokenParseError::ExpectedComma)
                            } else if toks[j] == TokenModel::RightBrace {
                                Ok((acc.insert(k, r.0), r.1 + 3))
                            } else if toks[j] == TokenModel::Comma {
                                match spec_parse_members(toks, j + 1, acc.insert(k, r.0), false) {
                                    Ok(r2) => Ok((r2.0, r.1 + 3 + r2.1)),
                                    Err(e) => Err(e),
                                }
                            } else {
                                Err(TokenParseError::ExpectedComma)
                            }
                        },
                    }
                }
            },
            _ => Err(TokenParseError::ExpectedProperty),
        }
    }
}

/// The whole pipeline on input text: lexical analysis, then the value
/// production at the first token. Tokens after the first value are
/// ignored, as the cursor stops at the end of the value.
pub open spec fn spec_parse_text(s: Seq<char>) -> Result<ValueModel, ParseError> {
    match spec_tokens_from(s, 0) {
        Err(e) => Err(ParseError::TokenizeError(e)),
        Ok(toks) => match spec_parse_value(toks, 0) {
            Ok(r) => Ok(r.0),
            Err(e) => Err(ParseError::ParseError(e)),
        },
    }
}

/// The value of a hexadecimal digit character, if it is one.
fn hex_digit_val(c: char) -> (r: Option<u8>)
    ensures
        r == spec_hex_digit(c),
{
    let u = c as u32;
    if 48 <= u && u <= 57 {
        Some((u - 48) as u8)
    } else if 97 <= u && u <= 102 {
        Some((u - 87) as u8)
    } else if 65 <= u && u <= 70 {
        Some((u - 55) as u8)
    } else {
        None
    }
}

/// The character an escaped character stands for.
fn escape_char_x(e: char) -> (r: char)
    ensures
        r == escape_char(e),
{
    if e == '"' {
        '"'
    } else if e == '\\' {
        '\\'
    } else if e == 'b' {
        '\u{8}'
    } else if e == 'f' {
        '\u{c}'
    } else if e == 'n' {
        '\n'
    } else if e == 'r' {
        '\r'
    } else if e == 't' {
        '\t'
    } else {
        e
    }
}

/// Relies on `char::from_u32`: it returns the character with the given
/// code for every valid Unicode scalar value, and `None` exactly for
/// surrogate code values and values beyond the scalar range.
#[verifier::external_body]
fn char_from_code(v: u32) -> (r: Option<char>)
    ensures
        (v < 0xD800 || (0xE000 <= v && v <= 0x10FFFF)) ==> r == Some((v as char)),
        ((0xD800 <= v && v < 0xE000) || v > 0x10FFFF) ==> r.is_none(),
{
    char::from_u32(v)
}

/// Decode the raw content of a string token, character by character.
#[verifier::rlimit(100)]
fn decode_string_chars(chars: &Vec<char>) -> (res: Result<Vec<char>, TokenParseError>)
    ensures
        match res {
            Ok(out) => spec_decode_string(chars@) == Ok::<_, TokenParseError>(out@),
            Err(e) => spec_decode_string(chars@) == Err::<Seq<char>, _>(e),
        },
{
    let n = chars.len();
    let mut out: Vec<char> = Vec::new();
    let mut i: usize = 0;
    proof {
        assert(chars@.skip(0) =~= chars@);
        match spec_decode_string(chars@) {
            Ok(rest) => {
                assert(out@ + rest =~= rest);
            },
            Err(_) => {},
        }
    }
    while i < n
        invariant
            n == chars@.len(),
            i <= n,
            ({
                match spec_decode_string(chars@.skip(i as int)) {
                    Ok(rest) => spec_decode_string(chars@) == Ok::<_, TokenParseError>(
                        out@ + rest,
                    ),
                    Err(e) => spec_decode_string(chars@) == Err::<Seq<char>, _>(e),
                }
            }),
        decreases n - i,
    {
        let ghost suf = chars@.skip(i as int);
        proof {
            assert(suf.len() == n - i);
            assert(suf[0] == chars@[i as int]);
        }
        let c = chars[i];
        if c != '\\' {
            proof {
                assert(suf.skip(1) =~= chars@.skip(i as int + 1));
                match spec_decode_string(chars@.skip(i as int + 1)) {
                    Ok(rest) => {
                        assert(out@ + (seq![c] + rest) =~= out@.push(c) + rest);
                    },
                    Err(_) => {},
                }
            }
            out.push(c);
            i = i + 1;
        } else if i + 1 >= n {
            proof {
                assert(suf.len() == 1);
                assert(out@ + Seq::<char>::empty() =~= out@);
                assert(chars@.skip(n as int) =~= Seq::<char>::empty());
            }
            i = n;
        } else {
            proof {
                assert(suf[1] == chars@[i as int + 1]);
            }
            let e = chars[i + 1];
            if e == 'u' {
                proof {
                    assert(pow16(0nat) == 1);
                    assert(pow16(1nat) == 16);
                    assert(pow16(2nat) == 256);
                    assert(pow16(3nat) == 4096);
                    assert(pow16(4nat) == 65536);
                }
                if i + 2 >= n {
                    proof {
                        assert(spec_hex_run(suf, 2, 4) == Err::<int, _>(
                            TokenParseError::UnfinishedEscape,
                        ));
                    }
                    return Err(TokenParseError::UnfinishedEscape);
                }
                proof {
                    assert(suf[2] == chars@[i as int + 2]);
                }
                let d0 = match hex_digit_val(chars[i + 2]) {
                    Some(d) => d,
                    None => {
                        proof {
                            assert(spec_hex_run(suf, 2, 4) == Err::<int, _>(
                                TokenParseError::InvalidHexValue,
                            ));
                        }
                        return Err(TokenParseError::InvalidHexValue);
                    },
                };
                if i + 3 >= n {
                    proof {
                        assert(spec_hex_run(suf, 3, 3) == Err::<int, _>(
                            TokenParseError::UnfinishedEscape,
                        ));
                    }
                    return Err(TokenParseError::UnfinishedEscape);
                }
                proof {
                    assert(suf[3] == chars@[i as int + 3]);
                }
                let d1 = match hex_digit_val(chars[i + 3]) {
                    Some(d) => d,
                    None => {
                        proof {
                            assert(spec_hex_run(suf, 3, 3) == Err::<int, _>(
                                TokenParseError::InvalidHexValue,
                            ));
                        }
                        return Err(TokenParseError::InvalidHexValue);
                    },
                };
                if i + 4 >= n {
                    proof {
                        assert(spec_hex_run(suf, 4, 2) == Err::<int, _>(
                            TokenParseError::UnfinishedEscape,
                        ));
                    }
                    return Err(TokenParseError::UnfinishedEscape);
                }
                proof {
                    assert(suf[4] == chars@[i as int + 4]);
                }
                let d2 = match hex_digit_val(chars[i + 4]) {
                    Some(d) => d,
                    None => {
                        proof {
                            assert(spec_hex_run(suf, 4, 2) == Err::<int, _>(
                                TokenParseError::InvalidHexValue,
                            ));
                        }
                        return Err(TokenParseError::InvalidHexValue);
                    },
                };
                if i + 5 >= n {
                    proof {
                        assert(spec_hex_run(suf, 5, 1) == Err::<int, _>(
                            TokenParseError::UnfinishedEscape,
                        ));
                    }
                    return Err(TokenParseError::UnfinishedEscape);
                }
                proof {
                    assert(suf[5] == chars@[i as int + 5]);
                }
                let d3 = match hex_digit_val(chars[i + 5]) {
                    Some(d) => d,
                    None => {
                        proof {
                            assert(spec_hex_run(suf, 5, 1) == Err::<int, _>(
                                TokenParseError::InvalidHexValue,
                            ));
                        }
                        return Err(TokenParseError::InvalidHexValue);
                    },
                };
                let code: u32 = (d0 as u32) * 4096 + (d1 as u32) * 256 + (d2 as u32) * 16 + (
                d3 as u32);
                proof {
                    assert(spec_hex_run(suf, 6, 0) == Ok::<int, TokenParseError>(0));
                    assert(spec_hex_run(suf, 5, 1) == Ok::<int, TokenParseError>(d3 as int));
                    assert(spec_hex_run(suf, 4, 2) == Ok::<int, TokenParseError>(
                        d2 * 16 + d3,
                    ));
                    assert(spec_hex_run(suf, 3, 3) == Ok::<int, TokenParseError>(
                        d1 * 256 + d2 * 16 + d3,
                    ));
                    assert(spec_hex_run(suf, 2, 4) == Ok::<int, TokenParseError>(
                        d0 * 4096 + d1 * 256 + d2 * 16 + d3,
                    ));
                    assert(code == d0 * 4096 + d1 * 256 + d2 * 16 + d3);
                    assert(code < 65536);
                }
                match char_from_code(code) {
                    None => {
                        return Err(TokenParseError::InvalidCodePointValue);
                    },
                    Some(dc) => {
                        proof {
                            assert(suf.skip(6) =~= chars@.skip(i as int + 6));
                            match spec_decode_string(chars@.skip(i as int + 6)) {
                                Ok(rest) => {
                                    assert(out@ + (seq![dc] + rest) =~= out@.push(dc) + rest);
                                },
                                Err(_) => {},
                            }
                        }
                        out.push(dc);
                        i = i + 6;
                    },
                }
            } else {
                let dc = escape_char_x(e);
                proof {
                    assert(suf.skip(2) =~= chars@.skip(i as int + 2));
                    match spec_decode_string(chars@.skip(i as int + 2)) {
                        Ok(rest) => {
                            assert(out@ + (seq![dc] + rest) =~= out@.push(dc) + rest);
                        },
                        Err(_) => {},
                    }
                }
                out.push(dc);
                i = i + 2;
            }
        }
    }
    proof {
        assert(chars@.skip(i as int) =~= Seq::<char>::empty());
        match spec_decode_string(chars@.skip(i as int)) {
            Ok(rest) => {
                assert(out@ + rest =~= out@);
            },
            Err(_) => {},
        }
    }
    Ok(out)
}

/// Decode a string token's raw content into the string value it denotes.
fn parse_string(input: &str) -> (res: Result<Value, TokenParseError>)
    ensures
        match res {
            Ok(v) => spec_decode_string(input@) matches Ok(d) && value_model(v)
                == ValueModel::String(d),
            Err(e) => spec_decode_string(input@) == Err::<Seq<char>, _>(e),
        },
{
    let chars = to_chars(input);
    match decode_string_chars(&chars) {
        Ok(out) => Ok(Value::String(chars_to_string(out))),
        Err(e) => Err(e),
    }
}

/// A copy of a number payload with the same model.
fn dup_number(n: &JsonNumber) -> (r: JsonNumber)
    ensures
        r@ == n@,
{
    let ints = n.int_digits.clone();
    let fracs = n.frac_digits.clone();
    proof {
        assert(ints@ =~= n.int_digits@);
        assert(fracs@ =~= n.frac_digits@);
    }
    JsonNumber { neg: n.neg, int_digits: ints, frac_digits: fracs }
}

/// Pairwise distinct keys in an object's pair list.
pub open spec fn pairs_unique(pairs: Seq<(String, Value)>) -> bool {
    forall|j1: int, j2: int|
        0 <= j1 < j2 < pairs.len() ==> (#[trigger] pairs[j1]).0@ != (#[trigger] pairs[j2]).0@
}

/// The key search ignores positions where two lists hold equal pairs.
proof fn lemma_assoc_prefix_agree(
    a: Vec<(String, Value)>,
    b: Vec<(String, Value)>,
    k: Seq<char>,
    j: int,
)
    requires
        0 <= j <= a@.len(),
        j <= b@.len(),
        forall|t: int| 0 <= t < j ==> a@[t] == b@[t],
    ensures
        assoc_value_of_at(a, k, j) == assoc_value_of_at(b, k, j),
    decreases j,
{
    if j > 0 {
        lemma_assoc_prefix_agree(a, b, k, j - 1);
    }
}

/// The key search for `k` is unaffected by replacing the value of a pair
/// whose key differs from `k`.
proof fn lemma_assoc_update_other(
    a: Vec<(String, Value)>,
    b: Vec<(String, Value)>,
    i: int,
    k: Seq<char>,
    j: int,
)
    requires
        0 <= i < a@.len(),
        b@.len() == a@.len(),
        forall|t: int| 0 <= t < a@.len() && t != i ==> a@[t] == b@[t],
        a@[i].0@ == b@[i].0@,
        a@[i].0@ != k,
        0 <= j <= a@.len(),
    ensures
        assoc_value_of_at(a, k, j) == assoc_value_of_at(b, k, j),
    decreases j,
{
    if j > 0 {
        lemma_assoc_update_other(a, b, i, k, j - 1);
    }
}

/// When no pair after position `i` carries the key of the pair at `i`, the
/// key search from anywhere past `i` finds the pair at `i`.
proof fn lemma_assoc_last_occurrence(b: Vec<(String, Value)>, i: int, j: int)
    requires
        0 <= i < j <= b@.len(),
        forall|t: int| i < t < b@.len() ==> (#[trigger] b@[t]).0@ != b@[i].0@,
    ensures
        assoc_value_of_at(b, b@[i].0@, j) == value_model(b@[i].1),
    decreases j,
{
    if j - 1 > i {
        lemma_assoc_last_occurrence(b, i, j - 1);
    }
}

/// The model of an array's element list is the models of its elements.
proof fn lemma_array_models_at(elems: Vec<Value>, j: int)
    requires
        0 <= j <= elems@.len(),
    ensures
        array_models_at(elems, j) == vals_model(elems@.subrange(0, j)),
    decreases j,
{
    if j == 0 {
        assert(vals_model(elems@.subrange(0, 0)) =~= Seq::<ValueModel>::empty());
    } else {
        lemma_array_models_at(elems, j - 1);
        assert(vals_model(elems@.subrange(0, j)) =~= vals_model(
            elems@.subrange(0, j - 1),
        ).push(value_model(elems@[j - 1])));
    }
}

/// Insert a member into an object's pair list: the pair carrying the same
/// key is overwritten, a fresh key is appended. The pair list's map gains
/// exactly that binding.
fn insert_pair(pairs: Vec<(String, Value)>, key: String, val: Value) -> (res: Vec<
    (String, Value),
>)
    requires
        pairs_unique(pairs@),
    ensures
        pairs_unique(res@),
        object_map(res) == object_map(pairs).insert(key@, value_model(val)),
        forall|t: int|
            0 <= t < res@.len() ==> ((#[trigger] res@[t]) == (key, val) || pairs@.contains(
                res@[t],
            )),
{
    let ghost orig: Vec<(String, Value)> = pairs;
    let mut p = pairs;
    let n = p.len();
    let mut i: usize = 0;
    while i < n
        invariant
            orig == pairs,
            n == p@.len(),
            i <= n,
            p@ == orig@,
            pairs_unique(orig@),
            forall|t: int| 0 <= t < i ==> (#[trigger] p@[t]).0@ != key@,
        decreases n - i,
    {
        if p[i].0 == key {
            p.set(i, (key, val));
            proof {
                assert forall|t: int| 0 <= t < p@.len() implies ((#[trigger] p@[t]) == (
                key,
                val,
                ) || orig@.contains(p@[t])) by {
                    if t != i {
                        assert(p@[t] == orig@[t]);
                    }
                }
                assert forall|t: int| i < t < p@.len() implies (#[trigger] p@[t]).0@ != p@[i as int].0@ by {
                    assert(orig@[t].0@ != orig@[i as int].0@);
                }
                lemma_assoc_last_occurrence(p, i as int, p@.len() as int);
                assert_maps_equal!(
                    object_map(p),
                    object_map(orig).insert(key@, value_model(val)),
                    k => {
                        if k == key@ {
                            assert(assoc_has_key(p@, k)) by {
                                assert(p@[i as int].0@ == k);
                            }
                        } else {
                            assert(assoc_has_key(p@, k) == assoc_has_key(orig@, k)) by {
                                if assoc_has_key(p@, k) {
                                    let t = choose|t: int|
                                        0 <= t < p@.len() && p@[t].0@ == k;
                                    assert(orig@[t].0@ == k);
                                }
                                if assoc_has_key(orig@, k) {
                                    let t = choose|t: int|
                                        0 <= t < orig@.len() && orig@[t].0@ == k;
                                    assert(p@[t].0@ == k);
                                }
                            }
                            if assoc_has_key(orig@, k) {
                                lemma_assoc_update_other(
                                    orig,
                                    p,
                                    i as int,
                                    k,
                                    orig@.len() as int,
                                );
                            }
                        }
                    }
                );
            }
            return p;
        }
        i = i + 1;
    }
    proof {
        assert(forall|t: int| 0 <= t < orig@.len() ==> (#[trigger] orig@[t]).0@ != key@);
    }
    p.push((key, val));
    proof {
        let ghost m = p@.len() as int;
        assert(p@[m - 1] == (key, val));
        assert forall|t: int| 0 <= t < p@.len() implies ((#[trigger] p@[t]) == (key, val)
            || orig@.contains(p@[t])) by {
            if t < m - 1 {
                assert(p@[t] == orig@[t]);
            }
        }
        lemma_assoc_last_occurrence(p, m - 1, m);
        assert_maps_equal!(
            object_map(p),
            object_map(orig).insert(key@, value_model(val)),
            k => {
                if k == key@ {
                    assert(assoc_has_key(p@, k)) by {
                        assert(p@[m - 1].0@ == k);
                    }
                } else {
                    assert(assoc_has_key(p@, k) == assoc_has_key(orig@, k)) by {
                        if assoc_has_key(p@, k) {
                            let t = choose|t: int| 0 <= t < p@.len() && p@[t].0@ == k;
                            assert(t < m - 1);
                            assert(orig@[t].0@ == k);
                        }
                        if assoc_has_key(orig@, k) {
                            let t = choose|t: int|
                                0 <= t < orig@.len() && orig@[t].0@ == k;
                            assert(p@[t].0@ == k);
                        }
                    }
                    if assoc_has_key(orig@, k) {
                        lemma_assoc_prefix_agree(orig, p, k, m - 1);
                    }
                }
            }
        );
    }
    p
}

/// One value production at token position `index`: the parsed value and
/// the count of tokens consumed. The cursor is threaded by value: the
/// caller continues at `index` plus the returned count.
pub fn parse_tokens(tokens: &Vec<Token>, index: usize) -> (res: Result<
    (Value, usize),
    TokenParseError,
>)
    ensures
        match res {
            Ok(r) => spec_parse_value(tokens_model(tokens@), index as int) == Ok::<
                _,
                TokenParseError,
            >((value_model(r.0), r.1 as int)) && 1 <= r.1 <= tokens@.len() - index && value_wf(
                r.0,
            ),
            Err(e) => spec_parse_value(tokens_model(tokens@), index as int) == Err::<
                (ValueModel, int),
                _,
            >(e),
        },
    decreases tokens@.len() - index, 0int,
{
    let n = tokens.len();
    proof {
        assert(tokens_model(tokens@).len() == tokens@.len());
    }
    if index >= n {
        return Err(TokenParseError::ExpectedValue);
    }
    proof {
        assert(tokens_model(tokens@)[index as int] == tokens@[index as int]@);
    }
    match &tokens[index] {
        Token::Null => Ok((Value::Null, 1)),
        Token::False => Ok((Value::Boolean(false), 1)),
        Token::True => Ok((Value::Boolean(true), 1)),
        Token::Number(num) => Ok((Value::Number(dup_number(num)), 1)),
        Token::String(s) => match parse_string(s.as_str()) {
            Ok(v) => Ok((v, 1)),
            Err(e) => Err(e),
        },
        Token::LeftBracket => {
            let acc0: Vec<Value> = Vec::new();
            proof {
                assert(vals_model(acc0@) =~= Seq::<ValueModel>::empty());
            }
            match parse_array_elems(tokens, index + 1, acc0) {
                Ok(r) => {
                    proof {
                        lemma_array_models_at(r.0, r.0@.len() as int);
                        assert(r.0@.subrange(0, r.0@.len() as int) =~= r.0@);
                    }
                    Ok((Value::Array(r.0), r.1 + 1))
                },
                Err(e) => Err(e),
            }
        },
        Token::LeftBrace => {
            let acc0: Vec<(String, Value)> = Vec::new();
            proof {
                assert(object_map(acc0) =~= Map::<Seq<char>, ValueModel>::empty());
            }
            match parse_object_members(tokens, index + 1, acc0, true) {
                Ok(r) => Ok((Value::Object(r.0), r.1 + 1)),
                Err(e) => Err(e),
            }
        },
        _ => Err(TokenParseError::ExpectedValue),
    }
}

/// The array production: elements from `index` (after `[` or a comma) are
/// parsed and appended to `acc` until the closing bracket.
fn parse_array_elems(tokens: &Vec<Token>, index: usize, acc: Vec<Value>) -> (res: Result<
    (Vec<Value>, usize),
    TokenParseError,
>)
    requires
        forall|t: int| 0 <= t < acc@.len() ==> value_wf(#[trigger] acc@[t]),
    ensures
        match res {
            Ok(r) => spec_parse_elems(tokens_model(tokens@), index as int, vals_model(acc@))
                == Ok::<_, TokenParseError>((vals_model(r.0@), r.1 as int)) && 1 <= r.1
                <= tokens@.len() - index && forall|t: int|
                0 <= t < r.0@.len() ==> value_wf(#[trigger] r.0@[t]),
            Err(e) => spec_parse_elems(tokens_model(tokens@), index as int, vals_model(acc@))
                == Err::<(Seq<ValueModel>, int), _>(e),
        },
    decreases tokens@.len() - index, 1int,
{
    let n = tokens.len();
    proof {
        assert(tokens_model(tokens@).len() == tokens@.len());
    }
    if index >= n {
        return Err(TokenParseError::ExpectedValue);
    }
    proof {
        assert(tokens_model(tokens@)[index as int] == tokens@[index as int]@);
    }
    match &tokens[index] {
        Token::RightBracket => {
            return Ok((acc, 1));
        },
        _ => {},
    }
    match parse_tokens(tokens, index) {
        Err(e) => Err(e),
        Ok(r) => {
            let j = index + r.1;
            let mut acc2 = acc;
            proof {
                assert(vals_model(acc2@.push(r.0)) =~= vals_model(acc2@).push(value_model(
                    r.0,
                )));
            }
            acc2.push(r.0);
            if j >= n {
                return Err(TokenParseError::ExpectedComma);
            }
            proof {
                assert(tokens_model(tokens@)[j as int] == tokens@[j as int]@);
            }
            match &tokens[j] {
                Token::RightBracket => Ok((acc2, r.1 + 1)),
                Token::Comma => match parse_array_elems(tokens, j + 1, acc2) {
                    Ok(r2) => Ok((r2.0, r.1 + 1 + r2.1)),
                    Err(e) => Err(e),
                },
                _ => Err(TokenParseError::ExpectedComma),
            }
        },
    }
}

/// The object production: members from `index` (after `{` with `first`
/// set, or after a separating comma) are parsed and inserted into `acc`
/// until the closing brace; a repeated key keeps the value of its last
/// occurrence, and after a comma a key is required.
fn parse_object_members(tokens: &Vec<Token>, index: usize, acc: Vec<(String, Value)>, first: bool) -> (res:
    Result<(Vec<(String, Value)>, usize), TokenParseError>)
    requires
        pairs_unique(acc@),
        forall|t: int| 0 <= t < acc@.len() ==> value_wf((#[trigger] acc@[t]).1),
    ensures
        match res {
            Ok(r) => spec_parse_members(tokens_model(tokens@), index as int, object_map(acc), first)
                == Ok::<_, TokenParseError>((object_map(r.0), r.1 as int)) && 1 <= r.1
                <= tokens@.len() - index && pairs_unique(r.0@) && forall|t: int|
                0 <= t < r.0@.len() ==> value_wf((#[trigger] r.0@[t]).1),
            Err(e) => spec_parse_members(tokens_model(tokens@), index as int, object_map(acc), first)
                == Err::<(Map<Seq<char>, ValueModel>, int), _>(e),
        },
    decreases tokens@.len() - index, 1int,
{
    let n = tokens.len();
    proof {
        assert(tokens_model(tokens@).len() == tokens@.len());
    }
    if index >= n {
        return Err(TokenParseError::ExpectedProperty);
    }
    proof {
        assert(tokens_model(tokens@)[index as int] == tokens@[index as int]@);
    }
    if first {
        match &tokens[index] {
            Token::RightBrace => {
                return Ok((acc, 1));
            },
            _ => {},
        }
    }
    match &tokens[index] {
        Token::String(s) => {
            let key = s.clone();
            if index + 1 >= n {
                return Err(TokenParseError::ExpectedColon);
            }
            proof {
                assert(tokens_model(tokens@)[index as int + 1] == tokens@[index as int + 1]@);
            }
            match &tokens[index + 1] {
                Token::Colon => {},
                _ => {
                    return Err(TokenParseError::ExpectedColon);
                },
            }
            match parse_tokens(tokens, index + 2) {
                Err(e) => Err(e),
                Ok(r) => {
                    let j = index + 2 + r.1;
                    let acc2 = insert_pair(acc, key, r.0);
                    proof {
                        assert forall|t: int| 0 <= t < acc2@.len() implies value_wf(
                            (#[trigger] acc2@[t]).1,
                        ) by {
                            if acc@.contains(acc2@[t]) {
                                let t2 = choose|t2: int|
                                    0 <= t2 < acc@.len() && acc@[t2] == acc2@[t];
                                assert(value_wf(acc@[t2].1));
                            }
                        }
                    }
                    if j >= n {
                        return Err(TokenParseError::ExpectedComma);
                    }
                    proof {
                        assert(tokens_model(tokens@)[j as int] == tokens@[j as int]@);
                    }
                    match &tokens[j] {
                        Token::RightBrace => Ok((acc2, r.1 + 3)),
                        Token::Comma => match parse_object_members(tokens, j + 1, acc2, false) {
                            Ok(r2) => Ok((r2.0, r.1 + 3 + r2.1)),
                            Err(e) => Err(e),
                        },
                        _ => Err(TokenParseError::ExpectedComma),
                    }
                },
            }
        },
        _ => Err(TokenParseError::ExpectedProperty),
    }
}

/// The composed pipeline: lexical analysis of the input text, then one
/// value production at the first token. Returns the document value, or
/// the failing stage's error so the caller can tell the stages apart.
/// Tokens after the first value are ignored, as the cursor stops at the
/// end of the value.
pub fn parse(input: String) -> (res: Result<Value, ParseError>)
    ensures
        match res {
            Ok(v) => spec_parse_text(input@) == Ok::<_, ParseError>(value_model(v)) && value_wf(
                v,
            ),
            Err(e) => spec_parse_text(input@) == Err::<ValueModel, _>(e),
        },
{
    match tokenize(input) {
        Err(e) => Err(ParseError::TokenizeError(e)),
        Ok(tokens) => match parse_tokens(&tokens, 0) {
            Ok(r) => Ok(r.0),
            Err(e) => Err(ParseError::ParseError(e)),
        },
    }
}

} // verus!
