//! Scalar inference: promote raw text to a typed JSON scalar by trying a
//! finite number first, then the exact boolean literals, then falling back
//! to the string unchanged.

use vstd::prelude::*;

use crate::json::JsonModel;
use crate::json::JsonValue;

verus! {

/// What parsing the text as a double yields when the value is finite:
/// `Some` holding the bit pattern of the parsed double where the text
/// parses and the result is neither a NaN nor an infinity, `None`
/// otherwise. A pure function of the characters alone.
pub uninterp spec fn finite_double_bits_of(s: Seq<char>) -> Option<u64>;

/// Scalar inference for text that is not a finite number: exactly "true"
/// or "false" becomes the boolean; anything else stays the string,
/// unchanged.
pub open spec fn infer_nonnumeric(s: Seq<char>) -> JsonModel {
    if s == "true"@ {
        JsonModel::Bool(true)
    } else if s == "false"@ {
        JsonModel::Bool(false)
    } else {
        JsonModel::Str(s)
    }
}

/// Scalar inference: text that parses as a finite double becomes that
/// number; otherwise exactly "true" or "false" becomes the boolean;
/// anything else stays the string, unchanged.
pub open spec fn infer_scalar(s: Seq<char>) -> JsonModel {
    match finite_double_bits_of(s) {
        Option::Some(b) => JsonModel::Num(b),
        Option::None => infer_nonnumeric(s),
    }
}

/// Relies on str::parse with a double target, gated by
/// serde_json::Number::from_f64, which accepts exactly the finite doubles:
/// both are deterministic, so the bit pattern handed back is a function of
/// the characters alone.
#[verifier::external_body]
fn parse_finite_double(s: &str) -> (r: Option<u64>)
    ensures
        r == finite_double_bits_of(s@),
{
    match s.parse() {
        Ok(v) => match serde_json::Number::from_f64(v) {
            Some(_) => Some(v.to_bits()),
            None => None,
        },
        Err(_) => None,
    }
}

fn text_is(s: &str, lit: &str) -> (r: bool)
    ensures
        r == (s@ == lit@),
{
    let a = s.to_owned();
    let b = lit.to_owned();
    a == b
}

/// Infer a JSON scalar from raw text: number, then boolean, then string.
pub fn parse_text(text: &str) -> (v: JsonValue)
    ensures
        v@ == infer_scalar(text@),
{
    match parse_finite_double(text) {
        Option::Some(b) => JsonValue::Num(b),
        Option::None => {
            if text_is(text, "true") {
                JsonValue::Bool(true)
            } else if text_is(text, "false") {
                JsonValue::Bool(false)
            } else {
                JsonValue::Str(text.to_owned())
            }
        },
    }
}

} // verus!
