//! JSON documents, kept by the `serde_json` crate.

use vstd::prelude::*;
use serde_json::Value;

verus! {

#[verifier::external_type_specification]
#[verifier::external_body]
pub struct ExValue(serde_json::Value);

// The text of a document, as `serde_json::to_string` writes it.
pub uninterp spec fn json_text(v: Value) -> Seq<char>;

// The fields of a document that is an object: the text of each value by its key.
pub uninterp spec fn json_fields(v: Value) -> Option<Map<Seq<char>, Seq<char>>>;

// The text of the document that `Value::from` makes of a string.
pub uninterp spec fn json_string(s: Seq<char>) -> Seq<char>;

// What `serde_json::to_string_pretty` makes of the document with this text.
pub uninterp spec fn json_pretty_text(text: Seq<char>) -> Option<Seq<char>>;

/// `Value::default` is the document `null`.
#[verifier::external_body]
pub(crate) fn json_null() -> (r: Value)
    ensures
        json_text(r) == "null"@,
{
    Value::default()
}

/// `Value::is_null` holds of the document `null` alone.
#[verifier::external_body]
pub(crate) fn json_is_null(v: &Value) -> (r: bool)
    ensures
        r == (json_text(*v) == "null"@),
{
    v.is_null()
}

/// `Value::clone` gives a document with the same text and the same fields.
pub assume_specification[ <serde_json::Value as Clone>::clone ](v: &serde_json::Value) -> (r: serde_json::Value)
    ensures
        json_text(r) == json_text(*v),
        json_fields(r) == json_fields(*v),
;

/// `Value::is_object` tells the documents that have fields, by key.
#[verifier::external_body]
pub(crate) fn json_is_object(v: &Value) -> (r: bool)
    ensures
        r == (json_fields(*v) is Some),
{
    v.is_object()
}

/// `Value::get` finds a field of an object by its key.
#[verifier::external_body]
pub(crate) fn json_has(v: &Value, key: &str) -> (r: bool)
    ensures
        r == (json_fields(*v) is Some && json_fields(*v)->0.contains_key(key@)),
{
    v.get(key).is_some()
}

/// Assigning to an indexed `Value` sets that field of an object and leaves the others alone.
#[verifier::external_body]
pub(crate) fn json_set(v: &mut Value, key: &str, text: &str)
    requires
        json_fields(*old(v)) is Some,
    ensures
        json_fields(*final(v)) == Some(json_fields(*old(v))->0.insert(key@, json_string(text@))),
{
    v[key] = Value::from(text);
}

/// `serde_json::to_string_pretty`, which depends on the document alone; its layout is not
/// stated here.
#[verifier::external_body]
pub(crate) fn json_pretty(v: &Value) -> (r: Option<String>)
    ensures
        r.deep_view() == json_pretty_text(json_text(*v)),
{
    serde_json::to_string_pretty(v).ok()
}

/// `serde_json::to_string` of a document does not fail, and gives the document's text.
#[verifier::external_body]
pub(crate) fn json_compact(v: &Value) -> (r: Option<String>)
    ensures
        r is Some,
        r->0@ == json_text(*v),
{
    serde_json::to_string(v).ok()
}

/// The reserved key under which a run's parameters name the directory of its config.
pub open spec fn with_base_dir_spec(
    fields: Option<Map<Seq<char>, Seq<char>>>,
    base: Seq<char>,
) -> Option<Map<Seq<char>, Seq<char>>> {
    match fields {
        Some(m) => if m.contains_key("_base_dir"@) {
            Some(m)
        } else {
            Some(m.insert("_base_dir"@, json_string(base)))
        },
        None => None,
    }
}

/// Scenarios resolve relative paths against the config's directory; expose it under a reserved
/// key, unless the parameters hold that key already or are no object.
pub fn with_base_dir(params: Value, base: &str) -> (r: Value)
    ensures
        json_fields(r) == with_base_dir_spec(json_fields(params), base@),
        json_fields(params) is None ==> r == params,
        json_fields(params) is Some && json_fields(params)->0.contains_key("_base_dir"@) ==> r == params,
{
    let mut params = params;
    if json_is_object(&params) && !json_has(&params, "_base_dir") {
        json_set(&mut params, "_base_dir", base);
    }
    params
}

} // verus!
