//! JSON documents parsed with simd-json or serde_json and written with
//! serde_json, the fields of objects read and set, with
//! the messages their failures are reported with.
use vstd::prelude::*;

verus! {

/// `serde_json::Value`, carried opaquely.
#[verifier::external_type_specification]
#[verifier::external_body]
pub struct ExJsonValue(serde_json::Value);

/// Whether simd-json reads `text` as one JSON document.
pub uninterp spec fn simd_json_accepts(text: Seq<char>) -> bool;

/// The value simd-json reads from `text`, where it accepts the text.
pub uninterp spec fn simd_json_value(text: Seq<char>) -> serde_json::Value;

/// `simd_json::serde::from_slice` into a `serde_json::Value`, on the UTF-8
/// bytes of `text`: a value exactly when simd-json accepts the text, and then
/// `simd_json_value` of it; a refusal is carried as the error's message, of
/// which nothing is claimed.
#[verifier::external_body]
fn simd_parse(text: String) -> (r: Result<serde_json::Value, String>)
    ensures
        r is Ok <==> simd_json_accepts(text@),
        r matches Ok(v) ==> v == simd_json_value(text@),
{
    let mut bytes = text.into_bytes();
    simd_json::serde::from_slice(&mut bytes).map_err(|e| e.to_string())
}

/// The elements of `value`, in order, when it is `Value::Array`, and `None`
/// for every other kind of value.
pub uninterp spec fn json_array_items(value: serde_json::Value) -> Option<Seq<serde_json::Value>>;

/// Takes `value` apart when it is `Value::Array`: its elements, which
/// `json_array_items` names; any other value is handed back unchanged.
#[verifier::external_body]
fn array_elements(value: serde_json::Value) -> (r: Result<Vec<serde_json::Value>, serde_json::Value>)
    ensures
        r is Ok <==> json_array_items(value) is Some,
        r matches Ok(items) ==> json_array_items(value) == Some(items@),
        r matches Err(v) ==> v == value,
{
    match value {
        serde_json::Value::Array(items) => Ok(items),
        other => Err(other),
    }
}

/// The JSON text `serde_json::to_string` writes for `value`: what the value
/// holds, without whitespace.
pub uninterp spec fn json_compact(value: serde_json::Value) -> Seq<char>;

/// The JSON text `serde_json::to_string_pretty` writes for `value`: what the
/// value holds, indented by two spaces.
pub uninterp spec fn json_pretty(value: serde_json::Value) -> Seq<char>;

/// `serde_json::to_string`: the text is `json_compact` of the value. Writing
/// a `Value` cannot fail (its maps have string keys and the text goes to
/// memory), so the result is always `Ok`; an error would be carried as its
/// message.
#[verifier::external_body]
fn compact_text(value: &serde_json::Value) -> (r: Result<String, String>)
    ensures
        r is Ok,
        r matches Ok(t) ==> t@ == json_compact(*value),
{
    serde_json::to_string(value).map_err(|e| e.to_string())
}

/// `serde_json::to_string_pretty`: the text is `json_pretty` of the value;
/// as with `compact_text`, writing a `Value` cannot fail.
#[verifier::external_body]
pub(crate) fn pretty_text(value: &serde_json::Value) -> (r: Result<String, String>)
    ensures
        r is Ok,
        r matches Ok(t) ==> t@ == json_pretty(*value),
{
    serde_json::to_string_pretty(value).map_err(|e| e.to_string())
}

/// Whether serde_json reads `text` as one JSON document.
pub uninterp spec fn serde_json_accepts(text: Seq<char>) -> bool;

/// The value serde_json reads from `text`, where it accepts the text.
pub uninterp spec fn serde_json_value(text: Seq<char>) -> serde_json::Value;

/// `serde_json::from_str` into a `serde_json::Value`: a value exactly when
/// serde_json accepts the text, and then `serde_json_value` of it; a refusal
/// is carried as the error's message, of which nothing is claimed.
#[verifier::external_body]
pub(crate) fn serde_parse(text: &str) -> (r: Result<serde_json::Value, String>)
    ensures
        r is Ok <==> serde_json_accepts(text@),
        r matches Ok(v) ==> v == serde_json_value(text@),
{
    serde_json::from_str::<serde_json::Value>(text).map_err(|e| e.to_string())
}

/// The text field `key` of `value`: `None` when the value is not an object,
/// `Some(None)` when the object has no field `key` or that field is not a
/// string, and `Some(Some(text))` when it is the string `text`.
pub uninterp spec fn json_object_text_field(value: serde_json::Value, key: Seq<char>) -> Option<Option<Seq<char>>>;

/// `Value::as_object`, then `Map::get` of `key` and `Value::as_str`: the
/// field as `json_object_text_field` names it.
#[verifier::external_body]
pub(crate) fn object_text_field(value: &serde_json::Value, key: &str) -> (r: Option<Option<String>>)
    ensures
        match json_object_text_field(*value, key@) {
            None => r is None,
            Some(None) => r matches Some(f) && f is None,
            Some(Some(t)) => r matches Some(f) && f matches Some(s) && s@ == t,
        },
{
    value.as_object().map(|o| o.get(key).and_then(|v| v.as_str()).map(|t| t.to_string()))
}

/// The object `value` with its field `key` set to the string `text` (added
/// when it was missing, replaced otherwise).
pub uninterp spec fn json_with_text_field(value: serde_json::Value, key: Seq<char>, text: Seq<char>) -> serde_json::Value;

/// `Map::insert` of `key` with `Value::String(text)` into the object `value`.
#[verifier::external_body]
pub(crate) fn set_text_field(value: serde_json::Value, key: &str, text: String) -> (r: serde_json::Value)
    requires
        json_object_text_field(value, key@) is Some,
    ensures
        r == json_with_text_field(value, key@, text@),
{
    let mut value = value;
    match &mut value {
        serde_json::Value::Object(object) => {
            object.insert(key.to_string(), serde_json::Value::String(text));
        },
        _ => {},
    }
    value
}

/// `s` is `prefix` followed by some detail.
pub open spec fn reported_as(s: Seq<char>, prefix: Seq<char>) -> bool {
    s.len() >= prefix.len() && s.take(prefix.len() as int) == prefix
}

fn with_prefix(prefix: &str, detail: String) -> (s: String)
    ensures
        s@ == prefix@ + detail@,
{
    let mut s = prefix.to_owned();
    s.append(detail.as_str());
    s
}

/// Parses a JSON document into the value simd-json reads from it. A text
/// simd-json refuses is reported as
/// `JSON parse error: ` and the parser's message.
pub fn json_parse(text: String) -> (r: Result<serde_json::Value, String>)
    ensures
        r is Ok <==> simd_json_accepts(text@),
        r matches Ok(v) ==> v == simd_json_value(text@),
        r matches Err(m) ==> reported_as(m@, "JSON parse error: "@),
{
    match simd_parse(text) {
        Ok(value) => Ok(value),
        Err(detail) => {
            let m = with_prefix("JSON parse error: ", detail);
            proof {
                assert(m@.take("JSON parse error: "@.len() as int) =~= "JSON parse error: "@);
            }
            Err(m)
        },
    }
}

/// Parses a JSON document that must be an array and returns its elements.
/// A text simd-json refuses is reported as `JSON parse error: ` and the
/// parser's message; a document that is not an array as `Expected JSON array`.
pub fn json_parse_array(text: String) -> (r: Result<Vec<serde_json::Value>, String>)
    ensures
        !simd_json_accepts(text@) ==> (r matches Err(m) && reported_as(m@, "JSON parse error: "@)),
        simd_json_accepts(text@) ==> match json_array_items(simd_json_value(text@)) {
            Some(items) => r matches Ok(got) && got@ == items,
            None => r matches Err(m) && m@ == "Expected JSON array"@,
        },
{
    match json_parse(text) {
        Ok(value) => match array_elements(value) {
            Ok(items) => Ok(items),
            Err(_) => Err("Expected JSON array".to_owned()),
        },
        Err(m) => Err(m),
    }
}

/// Writes a value as JSON text, indented when `pretty` and without
/// whitespace otherwise. Writing a value always succeeds; a failure of the
/// serialiser would be reported as `JSON stringify error: ` and its message.
pub fn json_stringify(value: &serde_json::Value, pretty: bool) -> (r: Result<String, String>)
    ensures
        r matches Ok(t) && t@ == (if pretty {
            json_pretty(*value)
        } else {
            json_compact(*value)
        }),
        r matches Err(m) ==> reported_as(m@, "JSON stringify error: "@),
{
    let written = if pretty {
        pretty_text(value)
    } else {
        compact_text(value)
    };
    match written {
        Ok(text) => Ok(text),
        Err(detail) => {
            let m = with_prefix("JSON stringify error: ", detail);
            proof {
                assert(m@.take("JSON stringify error: "@.len() as int) =~= "JSON stringify error: "@);
            }
            Err(m)
        },
    }
}

} // verus!
