//! JSON values as texts.
use crate::config::result_view;
use crate::json::{Json, JsonEntry, JsonNumber, JsonView};
use crate::text::hexadecimal;
use serde_json::Value;
use vstd::prelude::*;

verus! {

/// A JSON value of `serde_json`.
#[verifier::external_type_specification]
#[verifier::external_body]
pub struct ExValue(serde_json::Value);

/// The value of `serde_json` that stands for a JSON value of the library.
pub uninterp spec fn json_value(value: JsonView) -> serde_json::Value;

/// The value of the library that stands for a JSON value of `serde_json`.
pub uninterp spec fn value_parts(value: serde_json::Value) -> JsonView;

/// The value that `serde_json::from_str` reads from a text, or what it finds wrong
/// with it.
pub uninterp spec fn json_read(text: Seq<char>) -> Result<serde_json::Value, Seq<char>>;

/// A value as `serde_json::Value::to_string` writes it.
pub uninterp spec fn value_written(value: serde_json::Value) -> Seq<char>;

/// The constructors of `serde_json::Value` make a value of the same shape, with a
/// map for each object. A number that is no integer is read by
/// `serde_json::from_str` from its digits. What is made is a function of the
/// value.
#[verifier::external_body]
fn to_value(json: &Json) -> (value: serde_json::Value)
    ensures
        value == json_value(json@),
{
    match json {
        Json::Null => serde_json::Value::Null,
        Json::Bool(flag) => serde_json::Value::from(*flag),
        Json::Number(JsonNumber::Unsigned(number)) => serde_json::Value::from(*number),
        Json::Number(JsonNumber::Negative(number)) => serde_json::Value::from(*number),
        Json::Number(JsonNumber::Real(text)) => serde_json::from_str(text).unwrap_or_default(),
        Json::Text(text) => serde_json::Value::from(text.as_str()),
        Json::List(items) => items.iter().map(to_value).collect(),
        Json::Object(entries) => entries.iter().map(|e| (e.key.clone(), to_value(&e.value))).collect(),
    }
}

/// The variants of `serde_json::Value` are taken over part by part: an integer as
/// the `u64` or `i64` that `serde_json::Number` gives, any other number as it is
/// written, and the entries of a map in the order in which it is walked. What
/// comes out is a function of the value.
#[verifier::external_body]
fn from_value(value: &serde_json::Value) -> (json: Json)
    ensures
        json@ == value_parts(*value),
{
    match value {
        Value::Null => Json::Null,
        Value::Bool(flag) => Json::Bool(*flag),
        Value::Number(number) => Json::Number(match (number.as_u64(), number.as_i64()) {
            (Some(own), _) => JsonNumber::Unsigned(own),
            (_, Some(own)) => JsonNumber::Negative(own),
            _ => JsonNumber::Real(number.to_string()),
        }),
        Value::String(text) => Json::Text(text.clone()),
        Value::Array(items) => Json::List(items.iter().map(from_value).collect()),
        Value::Object(map) => Json::Object(
            map.iter().map(|(k, v)| JsonEntry { key: k.clone(), value: from_value(v) }).collect()),
    }
}

/// `serde_json::from_str` reads a JSON text into a `serde_json::Value`. Whether it
/// can, what it reads, and what it says where it cannot, is a function of the text.
#[verifier::external_body]
pub(crate) fn read_json(text: &str) -> (value: Result<serde_json::Value, String>)
    ensures
        match value {
            Ok(value) => json_read(text@) == Ok::<serde_json::Value, Seq<char>>(value),
            Err(message) => json_read(text@) == Err::<serde_json::Value, Seq<char>>(message@),
        },
{
    serde_json::from_str::<serde_json::Value>(text).map_err(|err| err.to_string())
}

/// `serde_json::Value::to_string` writes a value without white space. What is
/// written is a function of the value.
#[verifier::external_body]
pub(crate) fn write_value(value: &serde_json::Value) -> (text: String)
    ensures
        text@ == value_written(*value),
{
    value.to_string()
}

/// A character as it stands in a JSON string.
pub open spec fn json_char(c: char) -> Seq<char> {
    if c == '"' {
        "\\\""@
    } else if c == '\\' {
        "\\\\"@
    } else if c == '\n' {
        "\\n"@
    } else if c == '\r' {
        "\\r"@
    } else if c == '\t' {
        "\\t"@
    } else if c as nat == 8 {
        "\\b"@
    } else if c as nat == 12 {
        "\\f"@
    } else if (c as nat) < 32 {
        "\\u"@ + hexadecimal(c as nat, 4)
    } else {
        Seq::empty().push(c)
    }
}

/// The characters of a text as they stand in a JSON string.
pub open spec fn json_chars(text: Seq<char>) -> Seq<char>
    decreases text.len(),
{
    if text.len() == 0 {
        text
    } else {
        json_chars(text.drop_last()) + json_char(text.last())
    }
}

/// A text as a JSON string.
pub open spec fn json_quoted(text: Seq<char>) -> Seq<char> {
    "\""@ + json_chars(text) + "\""@
}

/// `serde_json::Value::to_string` writes a text between quotation marks, with
/// escapes for quotation marks, backslashes and control characters: the short
/// ones where there are any, else four hexadecimal digits.
#[verifier::external_body]
pub(crate) fn quote_json(text: &str) -> (quoted: String)
    ensures
        quoted@ == json_quoted(text@),
{
    serde_json::Value::String(text.to_string()).to_string()
}

/// A JSON value as a text without white space.
pub open spec fn json_written(value: JsonView) -> Seq<char> {
    value_written(json_value(value))
}

/// Writes a JSON value as a text without white space.
pub fn write_json(value: &Json) -> (text: String)
    ensures
        text@ == json_written(value@),
{
    write_value(&to_value(value))
}

/// A JSON text written without white space. There is nothing for what is no JSON
/// text.
pub open spec fn json_compact(text: Seq<char>) -> Option<Seq<char>> {
    match json_read(text) {
        Ok(value) => Some(value_written(value)),
        Err(_) => None,
    }
}

/// What a JSON text stands for, or what is wrong with it.
pub open spec fn json_parsed(text: Seq<char>) -> Result<JsonView, Seq<char>> {
    match json_read(text) {
        Ok(value) => Ok(value_parts(value)),
        Err(message) => Err(message),
    }
}

/// Reads a JSON text.
pub fn parse_json(text: &str) -> (parsed: Result<Json, String>)
    ensures
        result_view(parsed) == json_parsed(text@),
{
    match read_json(text) {
        Ok(value) => Ok(from_value(&value)),
        Err(message) => Err(message),
    }
}

} // verus!
