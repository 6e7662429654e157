use vstd::prelude::*;

use crate::json::{JsonModel, JsonValue};

verus! {

#[verifier::external_type_specification]
#[verifier::external_body]
pub struct ExValue(serde_json::Value);

#[verifier::external_type_specification]
#[verifier::external_body]
pub struct ExError(serde_json::Error);

/// The value that `serde_json::from_str` reads from a text, as a model
/// (`None` where it rejects the text).
pub uninterp spec fn spec_parse_json(text: Seq<char>) -> Option<JsonModel>;

/// The bytes that `serde_json::to_vec` writes for a value (`None` where it fails).
pub uninterp spec fn spec_json_bytes(v: JsonModel) -> Option<Seq<u8>>;

/// The text that `serde_json::to_string_pretty` writes for a value (`None`
/// where it fails).
pub uninterp spec fn spec_json_text_pretty(v: JsonModel) -> Option<Seq<char>>;

/// A JSON text that could not be read, or a value that could not be written,
/// with the reason that `serde_json` gave.
#[derive(Debug)]
pub struct JsonError {
    pub reason: serde_json::Error,
}

/// A `serde_json::Value` as a `JsonValue`, variant by variant; a number by its text.
#[verifier::external_body]
fn value_to_json(v: serde_json::Value) -> JsonValue {
    match v {
        serde_json::Value::Null => JsonValue::Null,
        serde_json::Value::Bool(b) => JsonValue::Bool(b),
        serde_json::Value::Number(n) => JsonValue::Number(n.to_string()),
        serde_json::Value::String(s) => JsonValue::String(s),
        serde_json::Value::Array(a) => JsonValue::Array(a.into_iter().map(value_to_json).collect()),
        serde_json::Value::Object(m) => JsonValue::Object(
            m.into_iter().map(|(k, x)| (k, value_to_json(x))).collect(),
        ),
    }
}

/// A `JsonValue` as a `serde_json::Value`, variant by variant; a number read
/// from its text with `serde_json::Number::from_str`, whose error is passed on.
#[verifier::external_body]
fn json_to_value(v: &JsonValue) -> Result<serde_json::Value, serde_json::Error> {
    Ok(match v {
        JsonValue::Null => serde_json::Value::Null,
        JsonValue::Bool(b) => serde_json::Value::Bool(*b),
        JsonValue::Number(t) => serde_json::Value::Number(t.parse()?),
        JsonValue::String(s) => serde_json::Value::String(s.clone()),
        JsonValue::Array(a) => serde_json::Value::Array(a.iter().map(json_to_value).collect::<Result<_, _>>()?),
        JsonValue::Object(m) => serde_json::Value::Object(
            m.iter().map(|(k, x)| Ok((k.clone(), json_to_value(x)?))).collect::<Result<_, _>>()?,
        ),
    })
}

/// Calls `serde_json::from_str` for a `serde_json::Value` and converts it.
/// Claimed: the result depends on the text alone; it is `Ok` exactly where
/// `spec_parse_json` gives a value, and then its model is that value.
#[verifier::external_body]
fn parse_json_text(text: &str) -> (r: Result<JsonValue, serde_json::Error>)
    ensures
        match r {
            Ok(v) => spec_parse_json(text@) == Some(v.deep_view()),
            Err(_) => spec_parse_json(text@) is None,
        },
{
    serde_json::from_str::<serde_json::Value>(text).map(value_to_json)
}

/// Converts the value and calls `serde_json::to_vec` on it. Claimed: the
/// result depends on the value's model alone; it is `Ok` exactly where
/// `spec_json_bytes` gives bytes, and then holds those bytes.
#[verifier::external_body]
fn json_bytes(v: &JsonValue) -> (r: Result<Vec<u8>, serde_json::Error>)
    ensures
        match r {
            Ok(b) => spec_json_bytes(v.deep_view()) == Some(b@),
            Err(_) => spec_json_bytes(v.deep_view()) is None,
        },
{
    serde_json::to_vec(&json_to_value(v)?)
}

/// Converts the value and calls `serde_json::to_string_pretty` on it.
/// Claimed: the result depends on the value's model alone; it is `Ok` exactly
/// where `spec_json_text_pretty` gives a text, and then holds that text.
#[verifier::external_body]
fn json_text_pretty(v: &JsonValue) -> (r: Result<String, serde_json::Error>)
    ensures
        match r {
            Ok(s) => spec_json_text_pretty(v.deep_view()) == Some(s@),
            Err(_) => spec_json_text_pretty(v.deep_view()) is None,
        },
{
    serde_json::to_string_pretty(&json_to_value(v)?)
}

impl JsonValue {
    /// Reads a JSON text.
    pub fn from_json_text(text: &str) -> (r: Result<JsonValue, JsonError>)
        ensures
            match spec_parse_json(text@) {
                Some(m) => r matches Ok(v) && v.deep_view() == m,
                None => r is Err,
            },
    {
        match parse_json_text(text) {
            Ok(v) => Ok(v),
            Err(e) => Err(JsonError { reason: e }),
        }
    }

    /// The value written as compact JSON bytes.
    pub fn to_json_bytes(&self) -> (r: Result<Vec<u8>, JsonError>)
        ensures
            match spec_json_bytes(self.deep_view()) {
                Some(b) => r matches Ok(w) && w@ == b,
                None => r is Err,
            },
    {
        match json_bytes(self) {
            Ok(b) => Ok(b),
            Err(e) => Err(JsonError { reason: e }),
        }
    }

    /// The value written as indented JSON text.
    pub fn to_json_text_pretty(&self) -> (r: Result<String, JsonError>)
        ensures
            match spec_json_text_pretty(self.deep_view()) {
                Some(t) => r matches Ok(s) && s@ == t,
                None => r is Err,
            },
    {
        match json_text_pretty(self) {
            Ok(s) => Ok(s),
            Err(e) => Err(JsonError { reason: e }),
        }
    }
}

} // verus!
