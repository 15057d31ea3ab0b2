//! Scalar inference: which JSON scalar a text stands for.

use vstd::prelude::*;
use crate::element::{Element, Node};
use crate::json::{Json, Value, finite, is_finite};
use crate::numbers::{Numbers, reading_of};

verus! {

/// The boolean that a text spells: `true`, `false`, or none.
pub open spec fn bool_literal(text: Seq<char>) -> Option<bool> {
    if text == seq!['t', 'r', 'u', 'e'] {
        Some(true)
    } else if text == seq!['f', 'a', 'l', 's', 'e'] {
        Some(false)
    } else {
        None
    }
}

/// The scalar that a text stands for, given its reading as a number if it
/// has one: a finite reading makes it a number; else the text `true` or
/// `false` makes it a boolean; else it is a string.
pub open spec fn scalar_of(text: Seq<char>, reading: Option<u64>) -> Json {
    if reading.is_some() && finite(reading.unwrap()) {
        Json::Number(reading.unwrap())
    } else {
        match bool_literal(text) {
            Some(b) => Json::Bool(b),
            None => Json::String(text),
        }
    }
}

/// The scalar that a text stands for under a table of readings.
pub open spec fn typed(text: Seq<char>, numbers: Map<Seq<char>, u64>) -> Json {
    scalar_of(text, reading_of(numbers, text))
}

/// The text content of a node: its text followed by its CDATA.
pub open spec fn contents(node: Node) -> Seq<char> {
    (match node.text {
        Some(t) => t,
        None => Seq::empty(),
    }) + (match node.cdata {
        Some(c) => c,
        None => Seq::empty(),
    })
}

/// Calls `str::parse::<bool>`, which accepts the two texts `true` and
/// `false` and fails on every other: the result is the boolean that the
/// text spells, or `None` where the call fails.
#[verifier::external_body]
fn parse_bool(text: &str) -> (r: Option<bool>)
    ensures
        r == bool_literal(text@),
{
    match text.parse::<bool>() {
        Ok(b) => Some(b),
        Err(_) => None,
    }
}

/// Infers the scalar for `text` from its reading as a number, if it has one.
pub fn infer_scalar(text: &str, reading: Option<u64>) -> (r: Value)
    ensures
        r@ == scalar_of(text@, reading),
{
    if let Some(bits) = reading {
        if is_finite(bits) {
            return Value::Number(bits);
        }
    }
    match parse_bool(text) {
        Some(b) => Value::Bool(b),
        None => Value::String(text.to_owned()),
    }
}

/// Infers the scalar for `text`: a number if the table holds a finite
/// reading of it, else a boolean if it is `true` or `false`, else the
/// string itself.
pub fn parse_text(text: &str, numbers: &Numbers) -> (r: Value)
    ensures
        r@ == typed(text@, numbers@),
{
    infer_scalar(text, numbers.reading(text))
}

/// The text content of an element: its text followed by its CDATA.
pub fn text_contents(e: &Element) -> (r: String)
    ensures
        r@ == contents(e@),
{
    let mut r = String::new();
    if let Some(t) = &e.text {
        r.append(t.as_str());
    }
    if let Some(c) = &e.cdata {
        r.append(c.as_str());
    }
    assert(r@ =~= contents(e@));
    r
}

/// Infers the scalar for the text content of an element.
pub fn parse_text_contents(e: &Element, numbers: &Numbers) -> (r: Value)
    ensures
        r@ == typed(contents(e@), numbers@),
{
    let text = text_contents(e);
    parse_text(text.as_str(), numbers)
}

} // verus!
