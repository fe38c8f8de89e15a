//! Property-list documents as plain data.
//!
//! `diskutil` answers in property lists.  The `plist` crate parses them; the
//! parsed value is turned, one for one, into [`PlistValue`], and everything
//! the library reads from it goes through the accessors below, which mirror
//! `as_dictionary`, `Dictionary::get`, `as_array`, `as_string` and
//! `as_unsigned_integer`.

use crate::cmd::{from_utf8_lossy, utf8_lossy};
use crate::text::str_eq;
use vstd::prelude::*;

verus! {

#[verifier::external_type_specification]
#[verifier::external_body]
pub struct ExPlistValue(plist::Value);

/// A property-list value as plain data.
pub enum PlistValue {
    Array(Vec<PlistValue>),
    /// The entries in document order.
    Dictionary(Vec<(String, PlistValue)>),
    Boolean(bool),
    /// An integer as `Integer::as_unsigned` reads it (`None` when negative).
    Integer(Option<u64>),
    Text(String),
    /// Data, dates, reals and uids, which are never read here.
    Other,
}

/// `plist::from_bytes::<plist::Value>` of `bytes`, as plain data (see
/// [`PlistValue`]), or the message of its error.
pub uninterp spec fn plist_of(bytes: Seq<u8>) -> Result<PlistValue, Seq<char>>;

/// `v` as plain data: arrays and dictionaries element by element in their
/// order, booleans and strings as they are, integers through
/// `Integer::as_unsigned`, data, dates, reals and uids as `Other` (the enum
/// is non-exhaustive; a variant added later reads as `Other` too).
#[verifier::external_body]
fn plain_value(v: &plist::Value) -> PlistValue {
    match v {
        plist::Value::Array(a) => PlistValue::Array(a.iter().map(plain_value).collect()),
        plist::Value::Dictionary(d) => PlistValue::Dictionary(
            d.iter().map(|(k, x)| (k.clone(), plain_value(x))).collect(),
        ),
        plist::Value::Boolean(b) => PlistValue::Boolean(*b),
        plist::Value::Integer(i) => PlistValue::Integer(i.as_unsigned()),
        plist::Value::String(s) => PlistValue::Text(s.clone()),
        plist::Value::Data(_) => PlistValue::Other,
        plist::Value::Date(_) => PlistValue::Other,
        plist::Value::Real(_) => PlistValue::Other,
        plist::Value::Uid(_) => PlistValue::Other,
        _ => PlistValue::Other,
    }
}

/// `plist::from_bytes::<plist::Value>(bytes)`, the value as plain data, the
/// error as its `Display` text.
#[verifier::external_body]
pub(crate) fn parse_plist(bytes: &[u8]) -> (r: Result<PlistValue, String>)
    ensures
        match r {
            Ok(v) => plist_of(bytes@) == Ok::<PlistValue, Seq<char>>(v),
            Err(e) => plist_of(bytes@) == Err::<PlistValue, Seq<char>>(e@),
        },
{
    match plist::from_bytes::<plist::Value>(bytes) {
        Ok(v) => Ok(plain_value(&v)),
        Err(e) => Err(e.to_string()),
    }
}

/// The bytes a command's output is parsed from: the output decoded lossily
/// as UTF-8 and encoded again.
pub open spec fn lossy_bytes(out: Seq<u8>) -> Seq<u8> {
    vstd::utf8::encode_utf8(utf8_lossy(out))
}

/// The document a command printed: parsed from [`lossy_bytes`].
pub open spec fn document_of(out: Seq<u8>) -> Result<PlistValue, Seq<char>> {
    plist_of(lossy_bytes(out))
}

/// Parse a command's output as a property list.
pub fn parse_output(out: &[u8]) -> (r: Result<PlistValue, String>)
    ensures
        match r {
            Ok(v) => document_of(out@) == Ok::<PlistValue, Seq<char>>(v),
            Err(e) => document_of(out@) == Err::<PlistValue, Seq<char>>(e@),
        },
{
    let s = from_utf8_lossy(out);
    let b = s.as_str().as_bytes();
    assert(b@ == vstd::utf8::encode_utf8(s@));
    parse_plist(b)
}

/// First index at or after `j` of an entry named `key`.
pub open spec fn key_at(d: Seq<(String, PlistValue)>, key: Seq<char>, j: int) -> Option<int>
    decreases d.len() - j,
{
    if j < 0 || j >= d.len() {
        None
    } else if d[j].0@ == key {
        Some(j)
    } else {
        key_at(d, key, j + 1)
    }
}

/// `as_dictionary().and_then(|d| d.get(key))`.
pub open spec fn field(v: Option<PlistValue>, key: Seq<char>) -> Option<PlistValue> {
    match v {
        Some(PlistValue::Dictionary(d)) => match key_at(d@, key, 0) {
            Some(i) => Some(d@[i].1),
            None => None,
        },
        _ => None,
    }
}

/// `as_string()`.
pub open spec fn text(v: Option<PlistValue>) -> Option<Seq<char>> {
    match v {
        Some(PlistValue::Text(s)) => Some(s@),
        _ => None,
    }
}

/// `as_unsigned_integer()`.
pub open spec fn unsigned(v: Option<PlistValue>) -> Option<u64> {
    match v {
        Some(PlistValue::Integer(n)) => n,
        _ => None,
    }
}

/// `as_array()`.
pub open spec fn items(v: Option<PlistValue>) -> Option<Seq<PlistValue>> {
    match v {
        Some(PlistValue::Array(a)) => Some(a@),
        _ => None,
    }
}

/// Is `v` a dictionary?
pub open spec fn is_dict(v: PlistValue) -> bool {
    v is Dictionary
}

/// The dictionaries among `vs`, in order (what `filter_map(as_dictionary)`
/// keeps).
pub open spec fn dicts_in(vs: Seq<PlistValue>) -> Seq<PlistValue>
    decreases vs.len(),
{
    if vs.len() == 0 {
        Seq::empty()
    } else if is_dict(vs.last()) {
        dicts_in(vs.drop_last()).push(vs.last())
    } else {
        dicts_in(vs.drop_last())
    }
}

/// Does the optional string `a` hold the text `b`?
pub open spec fn text_matches(a: Option<String>, b: Option<Seq<char>>) -> bool {
    match (a, b) {
        (Some(x), Some(y)) => x@ == y,
        (None, None) => true,
        _ => false,
    }
}

/// The value of `key` in the dictionary `v`, if `v` is one.
pub fn field_of<'a>(v: &'a PlistValue, key: &str) -> (r: Option<&'a PlistValue>)
    ensures
        match r {
            Some(x) => field(Some(*v), key@) == Some(*x),
            None => field(Some(*v), key@) is None,
        },
{
    match v {
        PlistValue::Dictionary(d) => {
            let mut j: usize = 0;
            while j < d.len()
                invariant
                    *v == PlistValue::Dictionary(*d),
                    j <= d@.len(),
                    key_at(d@, key@, 0) == key_at(d@, key@, j as int),
                decreases d.len() - j,
            {
                if str_eq(d[j].0.as_str(), key) {
                    assert(key_at(d@, key@, j as int) == Some(j as int));
                    return Some(&d[j].1);
                }
                j = j + 1;
            }
            None
        },
        _ => None,
    }
}

/// The spec value behind an optional reference.
pub open spec fn deref_opt(v: Option<&PlistValue>) -> Option<PlistValue> {
    match v {
        Some(x) => Some(*x),
        None => None,
    }
}

/// The value of `key` in `v` when `v` is present and a dictionary.
pub fn field_in<'a>(v: Option<&'a PlistValue>, key: &str) -> (r: Option<&'a PlistValue>)
    ensures
        deref_opt(r) == field(deref_opt(v), key@),
{
    match v {
        Some(x) => field_of(x, key),
        None => None,
    }
}

/// `as_string()`, copied out.
pub fn text_in(v: Option<&PlistValue>) -> (r: Option<String>)
    ensures
        text_matches(r, text(deref_opt(v))),
{
    match v {
        Some(PlistValue::Text(s)) => Some(s.clone()),
        _ => None,
    }
}

/// `as_unsigned_integer()`.
pub fn unsigned_in(v: Option<&PlistValue>) -> (r: Option<u64>)
    ensures
        r == unsigned(deref_opt(v)),
{
    match v {
        Some(PlistValue::Integer(n)) => *n,
        _ => None,
    }
}

/// `as_array()`.
pub fn items_in<'a>(v: Option<&'a PlistValue>) -> (r: Option<&'a Vec<PlistValue>>)
    ensures
        match r {
            Some(a) => items(deref_opt(v)) == Some(a@),
            None => items(deref_opt(v)) is None,
        },
{
    match v {
        Some(PlistValue::Array(a)) => Some(a),
        _ => None,
    }
}

} // verus!
