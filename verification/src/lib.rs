//! A JSON document model with a verified lexer and recursive-descent parser.
//!
//! `tokenize` turns input text into a token sequence; `parse` runs the full
//! pipeline from text to a [`Value`] tree. Numbers keep the exact decimal
//! digits of the literal, so every stage is specified over plain integers
//! and character sequences.

use vstd::prelude::*;

pub mod tokenize;
pub mod parse;
pub mod laws;

pub use tokenize::{Token, TokenModel, TokenizeError, tokenize};
pub use parse::{ParseError, TokenParseError, parse, parse_tokens};

verus! {

broadcast use vstd::std_specs::vec::group_vec_axioms;

/// Exact decimal payload of a numeric literal: a sign, the digits before the
/// decimal point, and the digits after it. The literal `-12.5` is held as
/// `neg = true`, `int_digits = [1, 2]`, `frac_digits = [5]`; an integer
/// literal has an empty `frac_digits`. The number denoted is the exact
/// rational [`num_numer`] over [`num_denom`] of the model.
#[derive(Debug, PartialEq, Eq)]
pub struct JsonNumber {
    pub neg: bool,
    pub int_digits: Vec<u8>,
    pub frac_digits: Vec<u8>,
}

/// Mathematical model of a [`JsonNumber`]: the same three components over `Seq`.
pub struct NumberModel {
    pub neg: bool,
    pub int_digits: Seq<u8>,
    pub frac_digits: Seq<u8>,
}

impl View for JsonNumber {
    type V = NumberModel;

    open spec fn view(&self) -> NumberModel {
        NumberModel {
            neg: self.neg,
            int_digits: self.int_digits@,
            frac_digits: self.frac_digits@,
        }
    }
}

/// A well-formed number holds decimal digit values only, and at least one digit.
pub open spec fn num_wf(n: NumberModel) -> bool {
    &&& forall|i: int| 0 <= i < n.int_digits.len() ==> n.int_digits[i] < 10
    &&& forall|i: int| 0 <= i < n.frac_digits.len() ==> n.frac_digits[i] < 10
    &&& n.int_digits.len() + n.frac_digits.len() >= 1
}

/// The value of a big-endian sequence of decimal digits.
pub open spec fn digits_val(ds: Seq<u8>) -> nat
    decreases ds.len(),
{
    if ds.len() == 0 {
        0
    } else {
        digits_val(ds.drop_last()) * 10 + ds.last() as nat
    }
}

pub open spec fn pow10(n: nat) -> nat
    decreases n,
{
    if n == 0 {
        1
    } else {
        10 * pow10((n - 1) as nat)
    }
}

/// Numerator of the exact rational value of a number: the number equals
/// `num_numer(n) / num_denom(n)`.
pub open spec fn num_numer(n: NumberModel) -> int {
    let mag = digits_val(n.int_digits) * pow10(n.frac_digits.len()) + digits_val(n.frac_digits);
    if n.neg {
        -(mag as int)
    } else {
        mag as int
    }
}

/// Denominator of the exact rational value of a number.
pub open spec fn num_denom(n: NumberModel) -> nat {
    pow10(n.frac_digits.len())
}

/// A parsed JSON document value.
///
/// An `Object` holds its members as key/value pairs with pairwise distinct
/// keys; a key repeated in the source keeps only its last value. Member
/// order carries no meaning: the object's model is the finite map of its
/// pairs (see [`value_model`]). The derived `==` compares the pair lists
/// element by element, in order; the order-free meaning of an object is
/// only its map model.
#[derive(Debug, PartialEq)]
pub enum Value {
    /// literal characters `null`
    Null,
    /// literal characters `true` or `false`
    Boolean(bool),
    /// a numeric literal, kept as its exact decimal digits
    Number(JsonNumber),
    /// a string of characters wrapped in double quotes, escapes resolved
    String(String),
    /// an array of values
    Array(Vec<Value>),
    /// an object with key-value pairs
    Object(Vec<(String, Value)>),
}

/// Mathematical model of a [`Value`]: strings are character sequences,
/// arrays are sequences, and objects are finite maps from key to value.
pub enum ValueModel {
    Null,
    Boolean(bool),
    Number(NumberModel),
    String(Seq<char>),
    Array(Seq<ValueModel>),
    Object(Map<Seq<char>, ValueModel>),
}

/// Whether some pair of the list carries the key `k`.
pub open spec fn assoc_has_key(pairs: Seq<(String, Value)>, k: Seq<char>) -> bool {
    exists|j: int| 0 <= j < pairs.len() && pairs[j].0@ == k
}

/// The model of a value: the abstraction every contract of the parser speaks of.
pub open spec fn value_model(v: Value) -> ValueModel
    decreases v, 0nat, 0int,
{
    match v {
        Value::Null => ValueModel::Null,
        Value::Boolean(b) => ValueModel::Boolean(b),
        Value::Number(n) => ValueModel::Number(n@),
        Value::String(s) => ValueModel::String(s@),
        Value::Array(elems) => ValueModel::Array(array_models_at(elems, elems@.len() as int)),
        Value::Object(pairs) => ValueModel::Object(object_map(pairs)),
    }
}

/// The finite map held by an object's pair list: a key is present when
/// some pair carries it, and maps to the value of the last such pair.
pub open spec fn object_map(pairs: Vec<(String, Value)>) -> Map<Seq<char>, ValueModel>
    decreases pairs, 2nat, 0int,
{
    Map::new(
        |k: Seq<char>| assoc_has_key(pairs@, k),
        |k: Seq<char>| assoc_value_of_at(pairs, k, pairs@.len() as int),
    )
}

/// The models of a sequence of values, in order.
pub open spec fn vals_model(s: Seq<Value>) -> Seq<ValueModel> {
    s.map_values(|v: Value| value_model(v))
}

/// The models of the first `j` elements of an array's element list, in order.
pub open spec fn array_models_at(elems: Vec<Value>, j: int) -> Seq<ValueModel>
    decreases elems, 1nat, j,
{
    if j <= 0 || j > elems@.len() {
        Seq::empty()
    } else {
        array_models_at(elems, j - 1).push(value_model(elems@[j - 1]))
    }
}

/// The model of the value stored under key `k` among pairs `0 .. j` of an
/// object's pair list, searched from the end: the pair closest to the end
/// wins, as a later occurrence of a key overwrites an earlier one.
pub open spec fn assoc_value_of_at(pairs: Vec<(String, Value)>, k: Seq<char>, j: int) -> ValueModel
    decreases pairs, 1nat, j,
{
    if j <= 0 || j > pairs@.len() {
        ValueModel::Null
    } else if pairs@[j - 1].0@ == k {
        value_model(pairs@[j - 1].1)
    } else {
        assoc_value_of_at(pairs, k, j - 1)
    }
}

/// Well-formedness of a value tree: every object holds pairwise distinct
/// keys, down to the leaves.
pub open spec fn value_wf(v: Value) -> bool
    decreases v,
{
    match v {
        Value::Array(elems) => forall|j: int|
            0 <= j < elems@.len() ==> value_wf(#[trigger] elems@[j]),
        Value::Object(pairs) => {
            &&& forall|j: int| 0 <= j < pairs@.len() ==> value_wf((#[trigger] pairs@[j]).1)
            &&& forall|j1: int, j2: int|
                0 <= j1 < j2 < pairs@.len() ==> (#[trigger] pairs@[j1]).0@ != (
                #[trigger] pairs@[j2]).0@
        },
        _ => true,
    }
}

} // verus!
