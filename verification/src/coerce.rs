//! Coercing cells to booleans and numbers.
use crate::numeral::{parse_signed, parse_unsigned, read_signed, read_unsigned};
use crate::text::to_chars;
use crate::value::{
    float_bits_finite, lemma_entries_view, lemma_items_view, Json, Number, Value,
    FLOAT_MAGNITUDE_MASK,
};
use vstd::prelude::*;

verus! {

/// Whether `s` is the word `false`, in any mix of upper and lower case.
pub open spec fn is_false_word(s: Seq<char>) -> bool {
    &&& s.len() == 5
    &&& (s[0] == 'f' || s[0] == 'F')
    &&& (s[1] == 'a' || s[1] == 'A')
    &&& (s[2] == 'l' || s[2] == 'L')
    &&& (s[3] == 's' || s[3] == 'S')
    &&& (s[4] == 'e' || s[4] == 'E')
}

/// The boolean that a text stands for: false for the empty text, for `0` and
/// for the word `false` in any case, true for every other text.
pub open spec fn text_truthy(s: Seq<char>) -> bool {
    !(s.len() == 0 || s == seq!['0'] || is_false_word(s))
}

/// The boolean that a document stands for.
pub open spec fn truthy(v: Json) -> bool {
    match v {
        Json::Null => false,
        Json::Bool(b) => b,
        Json::Number(n) => !n.is_zero(),
        Json::String(s) => text_truthy(s),
        Json::Array(items) => items.len() > 0,
        Json::Object(entries) => entries.len() > 0,
    }
}

/// The number that a boolean stands for: one for true, zero for false.
pub open spec fn number_of_bool(b: bool) -> Number {
    if b {
        Number::PosInt(1)
    } else {
        Number::PosInt(0)
    }
}

/// The number for a signed integer, in canonical form.
pub open spec fn number_of_signed(i: i64) -> Number {
    if i < 0 {
        Number::NegInt(i)
    } else {
        Number::PosInt(i as u64)
    }
}

/// The number that a text stands for. The empty text is zero; then the text
/// is read as an unsigned integer, as a signed integer, and as a floating-point
/// number, in that order, and the first reading that succeeds counts.
///
/// `float_bits` is the reading of the text as a binary64 floating-point
/// number, as a bit pattern, or `None` where the text is not one.
pub open spec fn number_from_text(text: Seq<char>, float_bits: Option<u64>) -> Option<Number> {
    if text.len() == 0 {
        Some(Number::PosInt(0))
    } else if let Some(u) = parse_unsigned(text) {
        Some(Number::PosInt(u))
    } else if let Some(i) = parse_signed(text) {
        Some(number_of_signed(i))
    } else {
        match float_bits {
            Some(bits) if float_bits_finite(bits) => Some(Number::Float(bits)),
            _ => None,
        }
    }
}

/// The number that a document stands for, or `None` for a text that is not
/// numeric.
pub open spec fn to_number(v: Json, float_bits: Option<u64>) -> Option<Number> {
    match v {
        Json::Null => Some(Number::PosInt(0)),
        Json::Bool(b) => Some(number_of_bool(b)),
        Json::Number(n) => Some(n),
        Json::String(s) => number_from_text(s, float_bits),
        Json::Array(items) => Some(number_of_bool(items.len() > 0)),
        Json::Object(entries) => Some(number_of_bool(entries.len() > 0)),
    }
}

/// The boolean that a text stands for.
pub fn string_to_bool(string: &str) -> (b: bool)
    ensures
        b == text_truthy(string@),
{
    let chars = to_chars(string);
    if chars.len() == 0 {
        false
    } else if chars.len() == 1 {
        assert(chars@ =~= seq![chars@[0]]);
        chars[0] != '0'
    } else if chars.len() == 5 {
        !((chars[0] == 'f' || chars[0] == 'F') && (chars[1] == 'a' || chars[1] == 'A') && (chars[2]
            == 'l' || chars[2] == 'L') && (chars[3] == 's' || chars[3] == 'S') && (chars[4] == 'e'
            || chars[4] == 'E'))
    } else {
        true
    }
}

/// Whether a number is other than zero.
pub fn number_to_bool(number: &Number) -> (b: bool)
    ensures
        b == !number.is_zero(),
{
    match number {
        Number::PosInt(u) => *u != 0,
        Number::NegInt(i) => *i != 0,
        Number::Float(bits) => *bits & FLOAT_MAGNITUDE_MASK != 0,
    }
}

/// The boolean that a value stands for.
pub fn value_to_bool(value: &Value) -> (b: bool)
    ensures
        b == truthy(value@),
{
    broadcast use {lemma_entries_view, lemma_items_view};

    match value {
        Value::Null => false,
        Value::Bool(boolean) => *boolean,
        Value::Number(number) => number_to_bool(number),
        Value::String(string) => string_to_bool(string.as_str()),
        Value::Array(array) => array.len() > 0,
        Value::Object(object) => object.len() > 0,
    }
}

/// The number that a boolean stands for.
pub fn boolean_to_number(boolean: bool) -> (n: Number)
    ensures
        n == number_of_bool(boolean),
{
    if boolean {
        Number::from_u64(1)
    } else {
        Number::from_u64(0)
    }
}

/// The number that a text stands for; the text itself where it is not numeric.
///
/// `float_bits` is what the text reads as a binary64 floating-point number,
/// as a bit pattern, or `None` where it is not the text of one.
pub fn string_to_number<'a>(string: &'a str, float_bits: Option<u64>) -> (r: Result<
    Number,
    &'a str,
>)
    ensures
        match r {
            Ok(n) => number_from_text(string@, float_bits) == Some(n) && n.well_formed(),
            Err(rejected) => number_from_text(string@, float_bits) is None && rejected@
                == string@,
        },
{
    let chars = to_chars(string);
    if chars.len() == 0 {
        return Ok(Number::from_u64(0));
    }
    if let Some(unsigned) = read_unsigned(&chars) {
        return Ok(Number::from_u64(unsigned));
    }
    if let Some(signed) = read_signed(&chars) {
        return Ok(Number::from_i64(signed));
    }
    if let Some(bits) = float_bits {
        if let Some(float) = Number::from_float_bits(bits) {
            return Ok(float);
        }
    }
    Err(string)
}

/// The number that a value stands for; for a text that is not numeric, that
/// text.
///
/// `float_bits` is used where the value is a text: it is what the text reads
/// as a binary64 floating-point number, as a bit pattern, or `None` where it
/// is not the text of one.
pub fn value_to_number(value: &Value, float_bits: Option<u64>) -> (r: Result<Number, String>)
    ensures
        match r {
            Ok(n) => to_number(value@, float_bits) == Some(n),
            Err(rejected) => to_number(value@, float_bits) is None && value@ == Json::String(
                rejected@,
            ),
        },
        value@.well_formed() ==> (r matches Ok(n) ==> n.well_formed()),
{
    broadcast use {lemma_entries_view, lemma_items_view};

    match value {
        Value::Null => Ok(Number::from_u64(0)),
        Value::Bool(boolean) => Ok(boolean_to_number(*boolean)),
        Value::Number(number) => Ok(*number),
        Value::String(string) => match string_to_number(string.as_str(), float_bits) {
            Ok(n) => Ok(n),
            Err(_) => Err(string.clone()),
        },
        Value::Array(array) => Ok(boolean_to_number(array.len() > 0)),
        Value::Object(object) => Ok(boolean_to_number(object.len() > 0)),
    }
}

} // verus!
