//! A JSON document model, and the lookups the library performs on it.
use vstd::prelude::*;

use crate::text::{chars_eq, chars_of};

verus! {

/// A JSON value. Object members keep the order in which the document's map yields them.
#[derive(Debug, PartialEq, Eq)]
pub enum Json {
    Null,
    Bool(bool),
    /// A number, by its textual form.
    Number(String),
    Str(String),
    Array(Vec<Json>),
    Object(Vec<(String, Json)>),
}

/// The value of the first member named `key` among `entries[j..]`.
pub open spec fn lookup(entries: Seq<(String, Json)>, key: Seq<char>, j: int) -> Option<Json>
    decreases entries.len() - j,
{
    if j < 0 || j >= entries.len() {
        None
    } else if entries[j].0@ == key {
        Some(entries[j].1)
    } else {
        lookup(entries, key, j + 1)
    }
}

/// `Value::get(key)`: the member `key` of an object.
pub open spec fn json_get(v: Json, key: Seq<char>) -> Option<Json> {
    match v {
        Json::Object(entries) => lookup(entries@, key, 0),
        _ => None,
    }
}

/// `json_get` on an optional value.
pub open spec fn json_get_opt(v: Option<Json>, key: Seq<char>) -> Option<Json> {
    match v {
        Some(x) => json_get(x, key),
        None => None,
    }
}

/// `Value::as_str`.
pub open spec fn json_str(v: Option<Json>) -> Option<Seq<char>> {
    match v {
        Some(Json::Str(s)) => Some(s@),
        _ => None,
    }
}

/// `Value::as_array`.
pub open spec fn json_array(v: Option<Json>) -> Option<Seq<Json>> {
    match v {
        Some(Json::Array(items)) => Some(items@),
        _ => None,
    }
}

pub open spec fn opt_ref_view(r: Option<&Json>) -> Option<Json> {
    match r {
        Some(x) => Some(*x),
        None => None,
    }
}

/// The member `key` of an object value.
pub fn get<'a>(v: &'a Json, key: &str) -> (r: Option<&'a Json>)
    ensures
        opt_ref_view(r) == json_get(*v, key@),
{
    match v {
        Json::Object(entries) => {
            let k = chars_of(key);
            assert(json_get(*v, key@) == lookup(entries@, key@, 0));
            let mut j: usize = 0;
            while j < entries.len()
                invariant
                    j <= entries@.len(),
                    k@ == key@,
                    json_get(*v, key@) == lookup(entries@, key@, 0),
                    lookup(entries@, key@, 0) == lookup(entries@, key@, j as int),
                decreases entries@.len() - j,
            {
                let name = chars_of(entries[j].0.as_str());
                if chars_eq(name.as_slice(), k.as_slice()) {
                    assert(entries@[j as int].0@ == key@);
                    assert(lookup(entries@, key@, j as int) == Some(entries@[j as int].1));
                    let r = &entries[j].1;
                    assert(*r == entries@[j as int].1);
                    return Some(r);
                }
                j += 1;
            }
            None
        },
        _ => None,
    }
}

/// The member `key` of an optional object value.
pub fn get_opt<'a>(v: Option<&'a Json>, key: &str) -> (r: Option<&'a Json>)
    ensures
        opt_ref_view(r) == json_get_opt(opt_ref_view(v), key@),
{
    match v {
        Some(x) => get(x, key),
        None => None,
    }
}

/// The string of an optional string value.
pub fn as_str(v: Option<&Json>) -> (r: Option<&String>)
    ensures
        match r {
            Some(s) => json_str(opt_ref_view(v)) == Some(s@),
            None => json_str(opt_ref_view(v)).is_none(),
        },
{
    match v {
        Some(Json::Str(s)) => Some(s),
        _ => None,
    }
}

/// The items of an optional array value.
pub fn as_array(v: Option<&Json>) -> (r: Option<&Vec<Json>>)
    ensures
        match r {
            Some(items) => json_array(opt_ref_view(v)) == Some(items@),
            None => json_array(opt_ref_view(v)).is_none(),
        },
{
    match v {
        Some(Json::Array(items)) => Some(items),
        _ => None,
    }
}

} // verus!
