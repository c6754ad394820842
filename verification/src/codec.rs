//! Scalars as the bytes that a byte store keeps for them: compact JSON text,
//! written and read by `serde_json`.

use crate::value::Scalar;
use vstd::prelude::*;

verus! {

/// The error that `serde_json` reports. Nothing is read from it.
#[verifier::external_type_specification]
#[verifier::external_body]
pub struct ExJsonError(serde_json::Error);

/// Why stored bytes hold no scalar.
#[derive(Debug, PartialEq, Eq, Clone, Copy)]
pub enum DecodeError {
    /// The bytes are not one JSON value.
    Malformed,
    /// The bytes are a JSON array or object, which no row may hold.
    NotScalar,
}

/// What a stored value turned out to be.
#[derive(Debug, PartialEq)]
pub enum Parsed {
    Scalar(Scalar),
    Container,
}

/// The compact JSON text of a scalar, as `serde_json::to_vec` writes it.
pub uninterp spec fn json_text(value: Scalar) -> Seq<u8>;

/// The JSON value that `serde_json::from_slice` reads from `bytes`, if they
/// hold exactly one.
pub uninterp spec fn json_parse(bytes: Seq<u8>) -> Option<Parsed>;

/// Calls `serde_json::to_vec` on the JSON value that holds `value`. Claimed:
/// the call succeeds, and its bytes are the same for equal scalars, which is
/// what `json_text` names. It succeeds because the serializer reports no
/// error but one of its writer, it writes here into a byte vector, which
/// takes every write, and it refuses no null, boolean, number or string.
#[verifier::external_body]
fn to_vec(value: &Scalar) -> (r: Result<Vec<u8>, serde_json::Error>)
    ensures
        r is Ok,
        r matches Ok(bytes) ==> bytes@ == json_text(*value),
{
    let json = match value {
        Scalar::Null => serde_json::Value::Null,
        Scalar::Bool(b) => serde_json::Value::Bool(*b),
        Scalar::Number(n) => serde_json::Value::Number(n.clone()),
        Scalar::Text(t) => serde_json::Value::String(t.clone()),
    };
    serde_json::to_vec(&json)
}

/// Calls `serde_json::from_slice` for a JSON value and tells its variants
/// apart. Claimed: the call fails or succeeds, and gives the value it gives,
/// by the bytes alone, which is what `json_parse` names.
#[verifier::external_body]
fn from_slice(bytes: &[u8]) -> (r: Result<Parsed, serde_json::Error>)
    ensures
        r matches Ok(parsed) ==> json_parse(bytes@) == Some(parsed),
        r is Err ==> json_parse(bytes@) is None,
{
    match serde_json::from_slice::<serde_json::Value>(bytes) {
        Ok(serde_json::Value::Null) => Ok(Parsed::Scalar(Scalar::Null)),
        Ok(serde_json::Value::Bool(b)) => Ok(Parsed::Scalar(Scalar::Bool(b))),
        Ok(serde_json::Value::Number(n)) => Ok(Parsed::Scalar(Scalar::Number(n))),
        Ok(serde_json::Value::String(t)) => Ok(Parsed::Scalar(Scalar::Text(t))),
        Ok(serde_json::Value::Array(_)) => Ok(Parsed::Container),
        Ok(serde_json::Value::Object(_)) => Ok(Parsed::Container),
        Err(e) => Err(e),
    }
}

/// The scalar that a parse stands for, or the reason why there is none.
pub open spec fn decoded(parsed: Option<Parsed>) -> Result<Scalar, DecodeError> {
    match parsed {
        Some(Parsed::Scalar(value)) => Ok(value),
        Some(Parsed::Container) => Err(DecodeError::NotScalar),
        None => Err(DecodeError::Malformed),
    }
}

/// Sorts the outcome of a parse: a scalar is handed on, a container and a
/// failed parse are told apart.
pub fn classify(outcome: Option<Parsed>) -> (r: Result<Scalar, DecodeError>)
    ensures
        r == decoded(outcome),
{
    match outcome {
        Some(Parsed::Scalar(value)) => Ok(value),
        Some(Parsed::Container) => Err(DecodeError::NotScalar),
        None => Err(DecodeError::Malformed),
    }
}

/// The bytes to store for `value`: its compact JSON text.
pub fn encode(value: &Scalar) -> (bytes: Vec<u8>)
    ensures
        bytes@ == json_text(*value),
{
    match to_vec(value) {
        Ok(bytes) => bytes,
        Err(_) => Vec::new(),
    }
}

/// The scalar that stored bytes hold.
pub fn decode(bytes: &[u8]) -> (r: Result<Scalar, DecodeError>)
    ensures
        r == decoded(json_parse(bytes@)),
{
    match from_slice(bytes) {
        Ok(parsed) => classify(Some(parsed)),
        Err(_) => classify(None),
    }
}

/// The line that the console shows for a leaf: the path, ` = `, and the
/// JSON text of the value.
pub open spec fn line_text(path: Seq<u8>, text: Seq<u8>) -> Seq<u8> {
    path + seq![32u8, 61u8, 32u8] + text
}

/// Formats the console line for a leaf whose value has the JSON text `text`.
pub fn console_line(path: &[u8], text: &[u8]) -> (line: Vec<u8>)
    ensures
        line@ == line_text(path@, text@),
{
    let mut line: Vec<u8> = Vec::new();
    let mut i: usize = 0;
    while i < path.len()
        invariant
            i <= path.len(),
            line@ == path@.subrange(0, i as int),
        decreases path.len() - i,
    {
        line.push(path[i]);
        i += 1;
        assert(line@ =~= path@.subrange(0, i as int));
    }
    assert(path@.subrange(0, path@.len() as int) =~= path@);
    line.push(32u8);
    line.push(61u8);
    line.push(32u8);
    let ghost head = line@;
    assert(head =~= path@ + seq![32u8, 61u8, 32u8]);
    let mut j: usize = 0;
    while j < text.len()
        invariant
            j <= text.len(),
            line@ == head + text@.subrange(0, j as int),
        decreases text.len() - j,
    {
        line.push(text[j]);
        j += 1;
        assert(line@ =~= head + text@.subrange(0, j as int));
    }
    assert(text@.subrange(0, text@.len() as int) =~= text@);
    line
}

} // verus!
