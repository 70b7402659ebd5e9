//! Laws of the pipeline, proved once and for all over the specification
//! functions that the executable lexer and parser are verified against.

use vstd::prelude::*;

use crate::tokenize::{TokenModel, TokenizeError, spec_make_token, spec_tokens_from, lit_matches,
    spec_lex_string, spec_lex_num_run, is_digit, digit_of};
use crate::parse::{
    ParseError, TokenParseError, spec_decode_string, spec_parse_text, spec_parse_value,
    spec_parse_elems, spec_parse_members,
};
use crate::{ValueModel, NumberModel};

verus! {

/// Lexing the literal `null` yields exactly one token, and parsing it
/// yields the null value.
pub proof fn lemma_literal_null()
    ensures
        spec_tokens_from("null"@, 0) == Ok::<_, TokenizeError>(seq![TokenModel::Null]),
        spec_parse_text("null"@) == Ok::<_, ParseError>(ValueModel::Null),
{
    reveal_strlit("null");
    let s = "null"@;
    assert(lit_matches(s, 0, seq!['n', 'u', 'l', 'l'])) by {
        assert(s.subrange(0, 4) =~= seq!['n', 'u', 'l', 'l']);
    }
    assert(spec_make_token(s, 0) == Ok::<_, TokenizeError>((TokenModel::Null, 4int)));
    assert(spec_tokens_from(s, 4) == Ok::<_, TokenizeError>(Seq::<TokenModel>::empty()));
    assert(spec_tokens_from(s, 0) == Ok::<_, TokenizeError>(seq![TokenModel::Null])) by {
        assert(seq![TokenModel::Null] + Seq::<TokenModel>::empty() =~= seq![TokenModel::Null]);
    }
    assert(spec_parse_value(seq![TokenModel::Null], 0) == Ok::<_, TokenParseError>((
        ValueModel::Null,
        1int,
    )));
}

/// Lexing the literal `true` yields exactly one token, and parsing it
/// yields the boolean value true.
pub proof fn lemma_literal_true()
    ensures
        spec_tokens_from("true"@, 0) == Ok::<_, TokenizeError>(seq![TokenModel::True]),
        spec_parse_text("true"@) == Ok::<_, ParseError>(ValueModel::Boolean(true)),
{
    reveal_strlit("true");
    let s = "true"@;
    assert(lit_matches(s, 0, seq!['t', 'r', 'u', 'e'])) by {
        assert(s.subrange(0, 4) =~= seq!['t', 'r', 'u', 'e']);
    }
    assert(spec_make_token(s, 0) == Ok::<_, TokenizeError>((TokenModel::True, 4int)));
    assert(spec_tokens_from(s, 4) == Ok::<_, TokenizeError>(Seq::<TokenModel>::empty()));
    assert(spec_tokens_from(s, 0) == Ok::<_, TokenizeError>(seq![TokenModel::True])) by {
        assert(seq![TokenModel::True] + Seq::<TokenModel>::empty() =~= seq![TokenModel::True]);
    }
    assert(spec_parse_value(seq![TokenModel::True], 0) == Ok::<_, TokenParseError>((
        ValueModel::Boolean(true),
        1int,
    )));
}

/// Lexing the literal `false` yields exactly one token, and parsing it
/// yields the boolean value false.
pub proof fn lemma_literal_false()
    ensures
        spec_tokens_from("false"@, 0) == Ok::<_, TokenizeError>(seq![TokenModel::False]),
        spec_parse_text("false"@) == Ok::<_, ParseError>(ValueModel::Boolean(false)),
{
    reveal_strlit("false");
    let s = "false"@;
    assert(lit_matches(s, 0, seq!['f', 'a', 'l', 's', 'e'])) by {
        assert(s.subrange(0, 5) =~= seq!['f', 'a', 'l', 's', 'e']);
    }
    assert(spec_make_token(s, 0) == Ok::<_, TokenizeError>((TokenModel::False, 5int)));
    assert(spec_tokens_from(s, 5) == Ok::<_, TokenizeError>(Seq::<TokenModel>::empty()));
    assert(spec_tokens_from(s, 0) == Ok::<_, TokenizeError>(seq![TokenModel::False])) by {
        assert(seq![TokenModel::False] + Seq::<TokenModel>::empty() =~= seq![TokenModel::False]);
    }
    assert(spec_parse_value(seq![TokenModel::False], 0) == Ok::<_, TokenParseError>((
        ValueModel::Boolean(false),
        1int,
    )));
}

/// Decoding each short escape yields its single character, and decoding
/// `A` yields `A`.
pub proof fn lemma_escape_round_trip()
    ensures
        spec_decode_string(seq!['\\', '"']) == Ok::<_, TokenParseError>(seq!['"']),
        spec_decode_string(seq!['\\', '\\']) == Ok::<_, TokenParseError>(seq!['\\']),
        spec_decode_string(seq!['\\', 'n']) == Ok::<_, TokenParseError>(seq!['\n']),
        spec_decode_string(seq!['\\', 't']) == Ok::<_, TokenParseError>(seq!['\t']),
        spec_decode_string(seq!['\\', 'r']) == Ok::<_, TokenParseError>(seq!['\r']),
        spec_decode_string(seq!['\\', 'b']) == Ok::<_, TokenParseError>(seq!['\u{8}']),
        spec_decode_string(seq!['\\', 'f']) == Ok::<_, TokenParseError>(seq!['\u{c}']),
        spec_decode_string(seq!['\\', 'u', '0', '0', '4', '1']) == Ok::<_, TokenParseError>(
            seq!['A'],
        ),
{
    lemma_short_escape('"');
    lemma_short_escape('\\');
    lemma_short_escape('n');
    lemma_short_escape('t');
    lemma_short_escape('r');
    lemma_short_escape('b');
    lemma_short_escape('f');
    let u = seq!['\\', 'u', '0', '0', '4', '1'];
    assert(u.skip(6) =~= Seq::<char>::empty());
    assert(spec_decode_string(u.skip(6)) == Ok::<_, TokenParseError>(Seq::<char>::empty()));
    assert(crate::parse::spec_hex_run(u, 2, 4) == Ok::<int, TokenParseError>(65)) by {
        assert(crate::parse::spec_hex_digit('0') == Some(0u8));
        assert(crate::parse::spec_hex_digit('4') == Some(4u8));
        assert(crate::parse::spec_hex_digit('1') == Some(1u8));
        assert(crate::parse::pow16(0nat) == 1);
        assert(crate::parse::pow16(1nat) == 16);
        assert(crate::parse::pow16(2nat) == 256);
        assert(crate::parse::pow16(3nat) == 4096);
        assert(crate::parse::spec_hex_run(u, 6, 0) == Ok::<int, TokenParseError>(0));
        assert(crate::parse::spec_hex_run(u, 5, 1) == Ok::<int, TokenParseError>(1));
        assert(crate::parse::spec_hex_run(u, 4, 2) == Ok::<int, TokenParseError>(65));
        assert(crate::parse::spec_hex_run(u, 3, 3) == Ok::<int, TokenParseError>(65));
    }
    assert((65u32 as char) == 'A');
    assert(seq!['A'] + Seq::<char>::empty() =~= seq!['A']);
}

/// Decoding a two-character escape other than `\u` yields the single
/// character it stands for.
pub proof fn lemma_short_escape(e: char)
    requires
        e != 'u',
    ensures
        spec_decode_string(seq!['\\', e]) == Ok::<_, TokenParseError>(
            seq![crate::parse::escape_char(e)],
        ),
{
    let s = seq!['\\', e];
    assert(s.skip(2) =~= Seq::<char>::empty());
    assert(spec_decode_string(s.skip(2)) == Ok::<_, TokenParseError>(Seq::<char>::empty()));
    assert(seq![crate::parse::escape_char(e)] + Seq::<char>::empty() =~= seq![
        crate::parse::escape_char(e),
    ]);
}

/// The array production preserves what was accumulated: the elements
/// already gathered stand unchanged, in order, at the front of its result.
/// Hence elements appear in the parsed array in source order.
pub proof fn lemma_elems_preserve_order(toks: Seq<TokenModel>, i: int, acc: Seq<ValueModel>)
    ensures
        spec_parse_elems(toks, i, acc) matches Ok(r) ==> acc.is_prefix_of(r.0),
    decreases toks.len() - i, 1int,
{
    if 0 <= i < toks.len() && toks[i] != TokenModel::RightBracket {
        match spec_parse_value(toks, i) {
            Ok(r) => {
                let j = i + r.1;
                if r.1 >= 1 && j < toks.len() && toks[j] == TokenModel::Comma {
                    lemma_elems_preserve_order(toks, j + 1, acc.push(r.0));
                    assert(acc.is_prefix_of(acc.push(r.0))) by {
                        assert(acc.push(r.0).subrange(0, acc.len() as int) =~= acc);
                    }
                    match spec_parse_elems(toks, j + 1, acc.push(r.0)) {
                        Ok(r2) => {
                            assert(acc.is_prefix_of(r2.0)) by {
                                assert(r2.0.subrange(0, acc.len() as int) =~= r2.0.subrange(
                                    0,
                                    acc.push(r.0).len() as int,
                                ).subrange(0, acc.len() as int));
                            }
                        },
                        Err(_) => {},
                    }
                } else if r.1 >= 1 && j < toks.len() && toks[j] == TokenModel::RightBracket {
                    assert(acc.is_prefix_of(acc.push(r.0))) by {
                        assert(acc.push(r.0).subrange(0, acc.len() as int) =~= acc);
                    }
                }
            },
            Err(_) => {},
        }
    }
}

/// Parsing `[]` yields the empty array.
pub proof fn lemma_empty_array()
    ensures
        spec_parse_text("[]"@) == Ok::<_, ParseError>(ValueModel::Array(Seq::empty())),
{
    reveal_strlit("[]");
    let s = "[]"@;
    assert(spec_make_token(s, 0) == Ok::<_, TokenizeError>((TokenModel::LeftBracket, 1int)));
    assert(spec_make_token(s, 1) == Ok::<_, TokenizeError>((TokenModel::RightBracket, 1int)));
    let toks = seq![TokenModel::LeftBracket, TokenModel::RightBracket];
    assert(spec_tokens_from(s, 0) == Ok::<_, TokenizeError>(toks)) by {
        assert(spec_tokens_from(s, 2) == Ok::<_, TokenizeError>(Seq::<TokenModel>::empty()));
        assert(seq![TokenModel::RightBracket] + Seq::<TokenModel>::empty() =~= seq![
            TokenModel::RightBracket,
        ]);
        assert(spec_tokens_from(s, 1) == Ok::<_, TokenizeError>(seq![TokenModel::RightBracket]));
        assert(seq![TokenModel::LeftBracket] + seq![TokenModel::RightBracket] =~= toks);
    }
    assert(spec_parse_elems(toks, 1, Seq::empty()) == Ok::<_, TokenParseError>((
        Seq::<ValueModel>::empty(),
        1int,
    )));
}

/// Parsing `{}` yields the empty mapping.
pub proof fn lemma_empty_object()
    ensures
        spec_parse_text("{}"@) == Ok::<_, ParseError>(
            ValueModel::Object(Map::<Seq<char>, ValueModel>::empty()),
        ),
{
    reveal_strlit("{}");
    let s = "{}"@;
    assert(spec_make_token(s, 0) == Ok::<_, TokenizeError>((TokenModel::LeftBrace, 1int)));
    assert(spec_make_token(s, 1) == Ok::<_, TokenizeError>((TokenModel::RightBrace, 1int)));
    let toks = seq![TokenModel::LeftBrace, TokenModel::RightBrace];
    assert(spec_tokens_from(s, 0) == Ok::<_, TokenizeError>(toks)) by {
        assert(spec_tokens_from(s, 2) == Ok::<_, TokenizeError>(Seq::<TokenModel>::empty()));
        assert(seq![TokenModel::RightBrace] + Seq::<TokenModel>::empty() =~= seq![
            TokenModel::RightBrace,
        ]);
        assert(spec_tokens_from(s, 1) == Ok::<_, TokenizeError>(seq![TokenModel::RightBrace]));
        assert(seq![TokenModel::LeftBrace] + seq![TokenModel::RightBrace] =~= toks);
    }
    assert(spec_parse_members(toks, 1, Map::empty(), true) == Ok::<_, TokenParseError>((
        Map::<Seq<char>, ValueModel>::empty(),
        1int,
    )));
}

/// A key repeated in an object keeps only the value of its last
/// occurrence: parsing the members `k: n1, k: n2` yields the mapping
/// that binds `k` to `n2` alone, with no error and no merge.
pub proof fn lemma_repeated_key_last_wins(k: Seq<char>, n1: NumberModel, n2: NumberModel)
    ensures
        ({
            let toks = seq![
                TokenModel::LeftBrace,
                TokenModel::String(k),
                TokenModel::Colon,
                TokenModel::Number(n1),
                TokenModel::Comma,
                TokenModel::String(k),
                TokenModel::Colon,
                TokenModel::Number(n2),
                TokenModel::RightBrace,
            ];
            spec_parse_value(toks, 0) == Ok::<_, TokenParseError>((
                ValueModel::Object(map![k => ValueModel::Number(n2)]),
                9int,
            ))
        }),
{
    let toks = seq![
        TokenModel::LeftBrace,
        TokenModel::String(k),
        TokenModel::Colon,
        TokenModel::Number(n1),
        TokenModel::Comma,
        TokenModel::String(k),
        TokenModel::Colon,
        TokenModel::Number(n2),
        TokenModel::RightBrace,
    ];
    let m1 = Map::<Seq<char>, ValueModel>::empty().insert(k, ValueModel::Number(n1));
    let m2 = m1.insert(k, ValueModel::Number(n2));
    assert(spec_parse_value(toks, 3) == Ok::<_, TokenParseError>((ValueModel::Number(n1), 1int)));
    assert(spec_parse_value(toks, 7) == Ok::<_, TokenParseError>((ValueModel::Number(n2), 1int)));
    assert(spec_parse_members(toks, 5, m1, false) == Ok::<_, TokenParseError>((m2, 4int)));
    assert(spec_parse_members(toks, 1, Map::empty(), true) == Ok::<_, TokenParseError>((m2, 8int)));
    assert(m2 =~= map![k => ValueModel::Number(n2)]);
}

/// Scanning a string literal body that holds no quote and no backslash:
/// the raw content runs to the closing quote.
proof fn lemma_lex_plain_string(full: Seq<char>, i: int)
    requires
        1 <= i <= full.len() - 1,
        full[full.len() - 1] == '"',
        forall|t: int| i <= t < full.len() - 1 ==> full[t] != '"' && full[t] != '\\',
    ensures
        spec_lex_string(full, i, false) == Ok::<_, TokenizeError>((
            full.subrange(i, full.len() - 1),
            full.len() - i,
        )),
    decreases full.len() - i,
{
    let n = full.len() as int;
    if i == n - 1 {
        assert(full.subrange(i, n - 1) =~= Seq::<char>::empty());
    } else {
        lemma_lex_plain_string(full, i + 1);
        assert(seq![full[i]] + full.subrange(i + 1, n - 1) =~= full.subrange(i, n - 1));
    }
}

/// Decoding a string that holds no backslash returns it unchanged.
pub proof fn lemma_decode_plain(s: Seq<char>)
    requires
        forall|t: int| 0 <= t < s.len() ==> s[t] != '\\',
    ensures
        spec_decode_string(s) == Ok::<_, TokenParseError>(s),
    decreases s.len(),
{
    if s.len() == 0 {
        assert(s =~= Seq::<char>::empty());
    } else {
        assert forall|t: int| 0 <= t < s.skip(1).len() implies s.skip(1)[t] != '\\' by {
            assert(s.skip(1)[t] == s[t + 1]);
        }
        lemma_decode_plain(s.skip(1));
        assert(seq![s[0]] + s.skip(1) =~= s);
    }
}

/// A string free of quotes and backslashes parses to itself: the text
/// made of that string between two quotes yields exactly that string
/// value, unchanged.
pub proof fn lemma_plain_string_round_trip(s: Seq<char>)
    requires
        forall|t: int| 0 <= t < s.len() ==> s[t] != '"' && s[t] != '\\',
    ensures
        spec_parse_text(seq!['"'] + s + seq!['"']) == Ok::<_, ParseError>(ValueModel::String(s)),
{
    let full = seq!['"'] + s + seq!['"'];
    let n = full.len() as int;
    assert(full[0] == '"');
    assert(full[n - 1] == '"');
    assert forall|t: int| 1 <= t < n - 1 implies full[t] != '"' && full[t] != '\\' by {
        assert(full[t] == s[t - 1]);
    }
    lemma_lex_plain_string(full, 1);
    assert(full.subrange(1, n - 1) =~= s);
    assert(spec_make_token(full, 0) == Ok::<_, TokenizeError>((TokenModel::String(s), n)));
    assert(spec_tokens_from(full, n) == Ok::<_, TokenizeError>(Seq::<TokenModel>::empty()));
    assert(spec_tokens_from(full, 0) == Ok::<_, TokenizeError>(seq![TokenModel::String(s)])) by {
        assert(seq![TokenModel::String(s)] + Seq::<TokenModel>::empty() =~= seq![
            TokenModel::String(s),
        ]);
    }
    lemma_decode_plain(s);
    assert(spec_parse_value(seq![TokenModel::String(s)], 0) == Ok::<_, TokenParseError>((
        ValueModel::String(s),
        1int,
    )));
}

/// The cursor only moves forward: a value production that succeeds
/// consumes at least one token and never more than remain.
pub proof fn lemma_value_moves_cursor(toks: Seq<TokenModel>, i: int)
    ensures
        spec_parse_value(toks, i) matches Ok(r) ==> 1 <= r.1 <= toks.len() - i,
    decreases toks.len() - i, 0int,
{
    if 0 <= i < toks.len() {
        match toks[i] {
            TokenModel::LeftBracket => {
                lemma_elems_move_cursor(toks, i + 1, Seq::empty());
            },
            TokenModel::LeftBrace => {
                lemma_members_move_cursor(toks, i + 1, Map::empty(), true);
            },
            _ => {},
        }
    }
}

/// The array production consumes at least its closing bracket and never
/// more tokens than remain.
pub proof fn lemma_elems_move_cursor(toks: Seq<TokenModel>, i: int, acc: Seq<ValueModel>)
    ensures
        spec_parse_elems(toks, i, acc) matches Ok(r) ==> 1 <= r.1 <= toks.len() - i,
    decreases toks.len() - i, 1int,
{
    if 0 <= i < toks.len() && toks[i] != TokenModel::RightBracket {
        lemma_value_moves_cursor(toks, i);
        match spec_parse_value(toks, i) {
            Ok(r) => {
                let j = i + r.1;
                if r.1 >= 1 && j < toks.len() && toks[j] == TokenModel::Comma {
                    lemma_elems_move_cursor(toks, j + 1, acc.push(r.0));
                }
            },
            Err(_) => {},
        }
    }
}

/// The object production consumes at least its closing brace and never
/// more tokens than remain.
pub proof fn lemma_members_move_cursor(
    toks: Seq<TokenModel>,
    i: int,
    acc: Map<Seq<char>, ValueModel>,
    first: bool,
)
    ensures
        spec_parse_members(toks, i, acc, first) matches Ok(r) ==> 1 <= r.1 <= toks.len() - i,
    decreases toks.len() - i, 1int,
{
    if 0 <= i < toks.len() && !(first && toks[i] == TokenModel::RightBrace) {
        match toks[i] {
            TokenModel::String(k) => {
                if i + 2 < toks.len() {
                    lemma_value_moves_cursor(toks, i + 2);
                }
                match spec_parse_value(toks, i + 2) {
                    Ok(r) => {
                        let j = i + 2 + r.1;
                        if r.1 >= 1 && j < toks.len() && toks[j] == TokenModel::Comma {
                            lemma_members_move_cursor(toks, j + 1, acc.insert(k, r.0), false);
                        }
                    },
                    Err(_) => {},
                }
            },
            _ => {},
        }
    }
}

/// The general last-wins law of objects: whatever map has been
/// accumulated, the object production returns it overridden by the
/// bindings the source makes from that point on. Members are inserted in
/// source order, so a later occurrence of a key silently overwrites an
/// earlier one — no error, no merge; a key the source does not bind keeps
/// its accumulated value; success, failure and the count of tokens
/// consumed do not depend on the accumulator at all.
pub proof fn lemma_members_override(
    toks: Seq<TokenModel>,
    i: int,
    acc: Map<Seq<char>, ValueModel>,
    first: bool,
)
    ensures
        ({
            match spec_parse_members(toks, i, Map::<Seq<char>, ValueModel>::empty(), first) {
                Ok(r0) => spec_parse_members(toks, i, acc, first) == Ok::<_, TokenParseError>((
                    acc.union_prefer_right(r0.0),
                    r0.1,
                )),
                Err(e) => spec_parse_members(toks, i, acc, first) == Err::<
                    (Map<Seq<char>, ValueModel>, int),
                    _,
                >(e),
            }
        }),
    decreases toks.len() - i, 1int,
{
    let empty = Map::<Seq<char>, ValueModel>::empty();
    if 0 <= i < toks.len() {
        if first && toks[i] == TokenModel::RightBrace {
            assert(acc.union_prefer_right(empty) =~= acc);
        } else {
            match toks[i] {
                TokenModel::String(k) => {
                    if !(i + 1 >= toks.len() || toks[i + 1] != TokenModel::Colon) {
                        match spec_parse_value(toks, i + 2) {
                            Ok(r) => {
                                let j = i + 2 + r.1;
                                let v = r.0;
                                if r.1 >= 1 && j < toks.len() {
                                    if toks[j] == TokenModel::RightBrace {
                                        assert(acc.union_prefer_right(empty.insert(k, v)) =~= acc
                                            .insert(k, v));
                                    } else if toks[j] == TokenModel::Comma {
                                        lemma_members_override(toks, j + 1, acc.insert(k, v), false);
                                        lemma_members_override(
                                            toks,
                                            j + 1,
                                            empty.insert(k, v),
                                            false,
                                        );
                                        match spec_parse_members(toks, j + 1, empty, false) {
                                            Ok(rr) => {
                                                assert(acc.insert(k, v).union_prefer_right(rr.0)
                                                    =~= acc.union_prefer_right(
                                                    empty.insert(k, v).union_prefer_right(rr.0),
                                                ));
                                            },
                                            Err(_) => {},
                                        }
                                    }
                                }
                            },
                            Err(_) => {},
                        }
                    }
                },
                _ => {},
            }
        }
    }
}

/// The character that writes a decimal digit value.
pub open spec fn digit_char_of(d: u8) -> char {
    ((d + 48) as u32) as char
}

/// The characters that write a sequence of decimal digit values.
pub open spec fn digit_chars(ds: Seq<u8>) -> Seq<char> {
    ds.map_values(|d: u8| digit_char_of(d))
}

/// The text of a decimal numeric literal: an optional minus sign, the
/// integer digits, and, when there is a fraction, a dot and its digits.
pub open spec fn num_chars(neg: bool, ints: Seq<u8>, fracs: Seq<u8>) -> Seq<char> {
    (if neg {
        seq!['-']
    } else {
        Seq::<char>::empty()
    }) + digit_chars(ints) + (if fracs.len() > 0 {
        seq!['.'] + digit_chars(fracs)
    } else {
        Seq::<char>::empty()
    })
}

/// A run of digit characters reaching the end of the input is consumed
/// whole, each digit going to the integer or the fraction part as the
/// decimal point dictates.
proof fn lemma_run_digits_to_end(s: Seq<char>, i: int, ds: Seq<u8>, seen_dot: bool)
    requires
        0 <= i,
        i + ds.len() == s.len(),
        forall|t: int| 0 <= t < ds.len() ==> ds[t] < 10,
        forall|t: int| 0 <= t < ds.len() ==> s[i + t] == digit_char_of(#[trigger] ds[t]),
    ensures
        spec_lex_num_run(s, i, seen_dot) == (if seen_dot {
            (Seq::<u8>::empty(), ds, ds.len() as int)
        } else {
            (ds, Seq::<u8>::empty(), ds.len() as int)
        }),
    decreases ds.len(),
{
    if ds.len() > 0 {
        assert(s[i] == digit_char_of(ds[0]));
        assert(digit_char_of(ds[0]) as u32 == ds[0] + 48);
        assert(is_digit(s[i]));
        assert(digit_of(s[i]) == ds[0]);
        let ds2 = ds.skip(1);
        assert forall|t: int| 0 <= t < ds2.len() implies ds2[t] < 10 && s[(i + 1) + t]
            == digit_char_of(#[trigger] ds2[t]) by {
            assert(ds2[t] == ds[t + 1]);
        }
        lemma_run_digits_to_end(s, i + 1, ds2, seen_dot);
        assert(seq![ds[0]] + ds2 =~= ds);
    }
}

/// A run of digit characters, a decimal point and a second run reaching
/// the end of the input lex as the integer and fraction digit sequences.
proof fn lemma_run_digits_then_dot(s: Seq<char>, i: int, ints: Seq<u8>, fracs: Seq<u8>)
    requires
        0 <= i,
        i + ints.len() + 1 + fracs.len() == s.len(),
        forall|t: int| 0 <= t < ints.len() ==> ints[t] < 10,
        forall|t: int| 0 <= t < fracs.len() ==> fracs[t] < 10,
        forall|t: int| 0 <= t < ints.len() ==> s[i + t] == digit_char_of(#[trigger] ints[t]),
        s[i + ints.len()] == '.',
        forall|t: int|
            0 <= t < fracs.len() ==> s[i + ints.len() + 1 + t] == digit_char_of(
                #[trigger] fracs[t],
            ),
    ensures
        spec_lex_num_run(s, i, false) == (ints, fracs, ints.len() + 1 + fracs.len() as int),
    decreases ints.len(),
{
    if ints.len() == 0 {
        assert(s[i] == '.');
        assert(!is_digit(s[i]));
        assert forall|t: int| 0 <= t < fracs.len() implies s[(i + 1) + t] == digit_char_of(
            #[trigger] fracs[t],
        ) by {}
        lemma_run_digits_to_end(s, i + 1, fracs, true);
        assert(ints =~= Seq::<u8>::empty());
    } else {
        assert(s[i] == digit_char_of(ints[0]));
        assert(digit_char_of(ints[0]) as u32 == ints[0] + 48);
        assert(is_digit(s[i]));
        assert(digit_of(s[i]) == ints[0]);
        let ints2 = ints.skip(1);
        assert forall|t: int| 0 <= t < ints2.len() implies ints2[t] < 10 && s[(i + 1) + t]
            == digit_char_of(#[trigger] ints2[t]) by {
            assert(ints2[t] == ints[t + 1]);
        }
        assert(s[(i + 1) + ints2.len()] == '.');
        assert forall|t: int| 0 <= t < fracs.len() implies s[(i + 1) + ints2.len() + 1 + t]
            == digit_char_of(#[trigger] fracs[t]) by {}
        lemma_run_digits_then_dot(s, i + 1, ints2, fracs);
        assert(seq![ints[0]] + ints2 =~= ints);
    }
}

/// Lexing a finite decimal numeric literal `-?[0-9]+(.[0-9]+)?` yields
/// exactly one number token, and parsing it yields the number value
/// carrying the literal's own sign, integer digits and fraction digits —
/// so its exact rational value `num_numer / num_denom` is the
/// mathematical value of the string.
pub proof fn lemma_number_round_trip(neg: bool, ints: Seq<u8>, fracs: Seq<u8>)
    requires
        ints.len() >= 1,
        forall|t: int| 0 <= t < ints.len() ==> ints[t] < 10,
        forall|t: int| 0 <= t < fracs.len() ==> fracs[t] < 10,
    ensures
        spec_tokens_from(num_chars(neg, ints, fracs), 0) == Ok::<_, TokenizeError>(
            seq![
                TokenModel::Number(NumberModel { neg, int_digits: ints, frac_digits: fracs }),
            ],
        ),
        spec_parse_text(num_chars(neg, ints, fracs)) == Ok::<_, ParseError>(
            ValueModel::Number(NumberModel { neg, int_digits: ints, frac_digits: fracs }),
        ),
        crate::num_wf(NumberModel { neg, int_digits: ints, frac_digits: fracs }),
{
    let s = num_chars(neg, ints, fracs);
    let off: int = if neg {
        1
    } else {
        0
    };
    let n = s.len() as int;
    assert forall|t: int| 0 <= t < ints.len() implies s[off + t] == digit_char_of(
        #[trigger] ints[t],
    ) by {
        assert(digit_chars(ints)[t] == digit_char_of(ints[t]));
    }
    if neg {
        assert(s[0] == '-');
    }
    if fracs.len() == 0 {
        assert(n == off + ints.len());
        lemma_run_digits_to_end(s, off, ints, false);
    } else {
        assert(n == off + ints.len() + 1 + fracs.len());
        assert(s[off + ints.len()] == '.');
        assert forall|t: int| 0 <= t < fracs.len() implies s[off + ints.len() + 1 + t]
            == digit_char_of(#[trigger] fracs[t]) by {
            assert(digit_chars(fracs)[t] == digit_char_of(fracs[t]));
        }
        lemma_run_digits_then_dot(s, off, ints, fracs);
    }
    assert(digit_char_of(ints[0]) as u32 == ints[0] + 48);
    assert(spec_lex_num_run(s, off, false) == (ints, fracs, n - off));
    let tok = TokenModel::Number(NumberModel { neg, int_digits: ints, frac_digits: fracs });
    assert(spec_make_token(s, 0) == Ok::<_, TokenizeError>((tok, n)));
    assert(spec_tokens_from(s, n) == Ok::<_, TokenizeError>(Seq::<TokenModel>::empty()));
    assert(spec_tokens_from(s, 0) == Ok::<_, TokenizeError>(seq![tok])) by {
        assert(seq![tok] + Seq::<TokenModel>::empty() =~= seq![tok]);
    }
    assert(spec_parse_value(seq![tok], 0) == Ok::<_, TokenParseError>((
        ValueModel::Number(NumberModel { neg, int_digits: ints, frac_digits: fracs }),
        1int,
    )));
}

/// Parsing is deterministic: the outcome is a function of the input text
/// alone, so any two parses of the same text agree, model for model.
pub proof fn lemma_parse_deterministic(
    s: Seq<char>,
    r1: Result<ValueModel, ParseError>,
    r2: Result<ValueModel, ParseError>,
)
    requires
        r1 == spec_parse_text(s),
        r2 == spec_parse_text(s),
    ensures
        r1 == r2,
{
}

} // verus!
