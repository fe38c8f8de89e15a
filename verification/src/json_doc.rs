//! JSON documents as plain data.
//!
//! `serde_json` parses them; the parsed value is turned, one for one, into
//! [`JsonValue`], and lookups go through the accessors below, which mirror
//! indexing a `serde_json::Value` by a key or a position (a missing entry
//! reads as `null`) and `as_str`.

use crate::text::str_eq;
use vstd::prelude::*;

verus! {

#[verifier::external_type_specification]
#[verifier::external_body]
pub struct ExJsonValue(serde_json::Value);

/// A JSON value as plain data.
pub enum JsonValue {
    Array(Vec<JsonValue>),
    /// The members of an object, one per key.
    Object(Vec<(String, JsonValue)>),
    Text(String),
    /// `null`, booleans and numbers, which are never read here.
    Other,
}

/// `serde_json::from_str::<serde_json::Value>` of `text`, as plain data (see
/// [`JsonValue`]); `None` when the text is not a JSON document.
pub uninterp spec fn json_of(text: Seq<char>) -> Option<JsonValue>;

/// `v` as plain data: arrays and objects member by member, strings as they
/// are, anything else as `Other`.
#[verifier::external_body]
fn plain_json(v: &serde_json::Value) -> JsonValue {
    match v {
        serde_json::Value::Array(a) => JsonValue::Array(a.iter().map(plain_json).collect()),
        serde_json::Value::Object(o) => JsonValue::Object(
            o.iter().map(|(k, x)| (k.clone(), plain_json(x))).collect(),
        ),
        serde_json::Value::String(s) => JsonValue::Text(s.clone()),
        serde_json::Value::Null => JsonValue::Other,
        serde_json::Value::Bool(_) => JsonValue::Other,
        serde_json::Value::Number(_) => JsonValue::Other,
    }
}

/// `serde_json::from_str::<serde_json::Value>(text).ok()`, as plain data.
#[verifier::external_body]
pub(crate) fn parse_json(text: &str) -> (r: Option<JsonValue>)
    ensures
        r == json_of(text@),
{
    serde_json::from_str::<serde_json::Value>(text).ok().map(|v| plain_json(&v))
}

/// First index at or after `j` of a member named `key`.
pub open spec fn member_at(d: Seq<(String, JsonValue)>, key: Seq<char>, j: int) -> Option<int>
    decreases d.len() - j,
{
    if j < 0 || j >= d.len() {
        None
    } else if d[j].0@ == key {
        Some(j)
    } else {
        member_at(d, key, j + 1)
    }
}

/// `v[key]`, with `None` for `null`: the member `key` of an object.
pub open spec fn member(v: Option<JsonValue>, key: Seq<char>) -> Option<JsonValue> {
    match v {
        Some(JsonValue::Object(d)) => match member_at(d@, key, 0) {
            Some(i) => Some(d@[i].1),
            None => None,
        },
        _ => None,
    }
}

/// `v[index]`, with `None` for `null`: the element `index` of an array.
pub open spec fn element(v: Option<JsonValue>, index: int) -> Option<JsonValue> {
    match v {
        Some(JsonValue::Array(a)) => if 0 <= index < a@.len() {
            Some(a@[index])
        } else {
            None
        },
        _ => None,
    }
}

/// `v.as_str()`.
pub open spec fn json_text(v: Option<JsonValue>) -> Option<Seq<char>> {
    match v {
        Some(JsonValue::Text(s)) => Some(s@),
        _ => None,
    }
}

/// The value behind an optional reference.
pub open spec fn present(v: Option<&JsonValue>) -> Option<JsonValue> {
    match v {
        Some(x) => Some(*x),
        None => None,
    }
}

/// `v[key]`.
pub fn member_of<'a>(v: Option<&'a JsonValue>, key: &str) -> (r: Option<&'a JsonValue>)
    ensures
        match r {
            Some(x) => member(present(v), key@) == Some(*x),
            None => member(present(v), key@) is None,
        },
{
    match v {
        Some(JsonValue::Object(d)) => {
            let mut j: usize = 0;
            while j < d.len()
                invariant
                    v == Some(&JsonValue::Object(*d)),
                    j <= d@.len(),
                    member_at(d@, key@, 0) == member_at(d@, key@, j as int),
                decreases d.len() - j,
            {
                if str_eq(d[j].0.as_str(), key) {
                    assert(member_at(d@, key@, j as int) == Some(j as int));
                    return Some(&d[j].1);
                }
                j = j + 1;
            }
            None
        },
        _ => None,
    }
}

/// `v[index]`.
pub fn element_of<'a>(v: Option<&'a JsonValue>, index: usize) -> (r: Option<&'a JsonValue>)
    ensures
        match r {
            Some(x) => element(present(v), index as int) == Some(*x),
            None => element(present(v), index as int) is None,
        },
{
    match v {
        Some(JsonValue::Array(a)) => if index < a.len() {
            Some(&a[index])
        } else {
            None
        },
        _ => None,
    }
}

/// `v.as_str()`, copied out.
pub fn text_of(v: Option<&JsonValue>) -> (r: Option<String>)
    ensures
        match json_text(present(v)) {
            Some(t) => r matches Some(s) && s@ == t,
            None => r is None,
        },
{
    match v {
        Some(JsonValue::Text(s)) => Some(s.clone()),
        _ => None,
    }
}

} // verus!
