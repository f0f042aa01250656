//! JSON: what the archives answer with. Parsing is `serde_json`'s; a parsed value
//! is seen as a tree.

use serde_json::Value;
use vstd::prelude::*;

verus! {

/// A value of `serde_json`.
#[verifier::external_type_specification]
#[verifier::external_body]
pub struct ExValue(Value);

/// Why a text is not JSON.
#[verifier::external_type_specification]
#[verifier::external_body]
pub struct ExJsonError(serde_json::Error);

/// A JSON value. A number that is written with a fraction or an exponent, or that is too
/// large for 64 bits, is `Real`.
pub enum Json {
    Null,
    Bool(bool),
    Whole(int),
    Real,
    Text(Seq<char>),
    List(Seq<Json>),
    Object(Map<Seq<char>, Json>),
}

/// The tree that a parsed value is.
pub uninterp spec fn json_tree(v: Value) -> Json;

/// The tree that a text stands for; `None` when it is not JSON.
pub uninterp spec fn json_of_text(text: Seq<char>) -> Option<Json>;

/// `serde_json::from_str`, into a value.
#[verifier::external_body]
pub(crate) fn json_parse(text: &str) -> (r: Result<Value, serde_json::Error>)
    ensures
        match r {
            Ok(v) => json_of_text(text@) == Some(json_tree(v)),
            Err(_) => json_of_text(text@) is None,
        },
{
    serde_json::from_str(text)
}

/// A field of an object; null where there is none.
pub open spec fn field(j: Json, key: Seq<char>) -> Json {
    match j {
        Json::Object(m) => if m.dom().contains(key) {
            m[key]
        } else {
            Json::Null
        },
        _ => Json::Null,
    }
}

/// The items of a list; none where it is not a list.
pub open spec fn items(j: Json) -> Seq<Json> {
    match j {
        Json::List(s) => s,
        _ => Seq::empty(),
    }
}

/// The text that a value is.
pub open spec fn text_in(j: Json) -> Option<Seq<char>> {
    match j {
        Json::Text(s) => Some(s),
        _ => None,
    }
}

/// The whole number that a value is, within these bounds.
pub open spec fn whole_in(j: Json, min: int, max: int) -> Option<int> {
    match j {
        Json::Whole(n) => if min <= n <= max {
            Some(n)
        } else {
            None
        },
        _ => None,
    }
}

/// Indexing a `serde_json::Value` by a text: the field, or null.
#[verifier::external_body]
pub(crate) fn json_field<'a>(v: &'a Value, key: &str) -> (r: &'a Value)
    ensures
        json_tree(*r) == field(json_tree(*v), key@),
{
    &v[key]
}

/// The trees of a list of values.
pub open spec fn trees(v: Seq<Value>) -> Seq<Json> {
    v.map_values(|x: Value| json_tree(x))
}

/// `serde_json::Value::as_array`: the items of a list.
#[verifier::external_body]
pub(crate) fn json_array(v: &Value) -> (r: Option<&Vec<Value>>)
    ensures
        match r {
            Some(a) => json_tree(*v) == Json::List(trees(a@)),
            None => !(json_tree(*v) is List),
        },
{
    v.as_array()
}

/// `serde_json::Value::as_str`: the text, where the value is one.
#[verifier::external_body]
pub(crate) fn json_str(v: &Value) -> (r: Option<&str>)
    ensures
        match r {
            Some(s) => text_in(json_tree(*v)) == Some(s@),
            None => text_in(json_tree(*v)) is None,
        },
{
    v.as_str()
}

/// `serde_json::Value::as_i64`: the number, where it is whole and fits.
#[verifier::external_body]
pub(crate) fn json_i64(v: &Value) -> (r: Option<i64>)
    ensures
        match r {
            Some(n) => whole_in(json_tree(*v), i64::MIN as int, i64::MAX as int) == Some(n as int),
            None => whole_in(json_tree(*v), i64::MIN as int, i64::MAX as int) is None,
        },
{
    v.as_i64()
}

/// `serde_json::Value::as_u64`: the number, where it is whole and fits.
#[verifier::external_body]
pub(crate) fn json_u64(v: &Value) -> (r: Option<u64>)
    ensures
        match r {
            Some(n) => whole_in(json_tree(*v), 0, u64::MAX as int) == Some(n as int),
            None => whole_in(json_tree(*v), 0, u64::MAX as int) is None,
        },
{
    v.as_u64()
}

} // verus!
