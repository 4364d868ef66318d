use vstd::prelude::*;

use crate::model::Json;

verus! {

/// A document as serde_json reads it; opaque here.
#[verifier::external_type_specification]
#[verifier::external_body]
pub struct ExSerdeValue(serde_json::Value);

/// serde_json's error; opaque here.
#[verifier::external_type_specification]
#[verifier::external_body]
pub struct ExSerdeError(serde_json::Error);

/// What a value that serde_json holds stands for in this library's model:
/// `null`, booleans and strings as they are; an integer that fits `i64` as
/// `Int`, a larger non-negative one as `UInt`, any other number as `Float`
/// with the text its `Display` writes; arrays and objects member by member,
/// an object's entries in its map's order.
pub uninterp spec fn serde_model(v: serde_json::Value) -> Json;

/// Whether serde_json reads the text as one JSON document.
pub uninterp spec fn accepts_text(s: Seq<char>) -> bool;

/// The document that serde_json reads from a text it accepts.
pub uninterp spec fn text_value(s: Seq<char>) -> Json;

/// Whether serde_json reads the bytes as one JSON document.
pub uninterp spec fn accepts_bytes(b: Seq<u8>) -> bool;

/// The document that serde_json reads from bytes it accepts.
pub uninterp spec fn bytes_value(b: Seq<u8>) -> Json;

/// Relies on `serde_json::from_str`: it reads the text as one JSON document,
/// or fails, depending on the text alone; a map keeps each key once.
#[verifier::external_body]
pub(crate) fn parse_text(s: &str) -> (r: Result<serde_json::Value, serde_json::Error>)
    ensures
        r is Ok <==> accepts_text(s@),
        r is Ok ==> serde_model(r->Ok_0) == text_value(s@) && text_value(s@).wf(),
{
    serde_json::from_str(s)
}

/// Relies on `serde_json::from_slice`: it reads the bytes as one JSON
/// document, or fails, depending on the bytes alone; a map keeps each key once.
#[verifier::external_body]
pub(crate) fn parse_bytes(b: &[u8]) -> (r: Result<serde_json::Value, serde_json::Error>)
    ensures
        r is Ok <==> accepts_bytes(b@),
        r is Ok ==> serde_model(r->Ok_0) == bytes_value(b@) && bytes_value(b@).wf(),
{
    serde_json::from_slice(b)
}

/// Relies on serde_json's `Display` for its error: a message with the line
/// and column where reading failed.
#[verifier::external_body]
pub(crate) fn error_message(e: &serde_json::Error) -> String {
    e.to_string()
}

/// Relies on `serde_json::Value::as_number` and `Number`'s `Display`: the
/// decimal text of a number, where the value is one.
#[verifier::external_body]
pub(crate) fn number_text(j: &serde_json::Value) -> (r: Option<String>)
    ensures
        r is Some <==> (serde_model(*j) is Int || serde_model(*j) is UInt
            || serde_model(*j) is Float),
        serde_model(*j) is Float ==> r->0@ == serde_model(*j)->Float_0,
{
    j.as_number().map(|n| n.to_string())
}

/// Relies on `serde_json::Value::as_object`: the entries of an object, in
/// the map's order, where the value is one.
#[verifier::external_body]
pub(crate) fn object_entries(j: &serde_json::Value) -> (r: Option<Vec<(String, serde_json::Value)>>)
    ensures
        r is Some <==> serde_model(*j) is Object,
        r is Some ==> r->0@.len() == serde_model(*j)->Object_0.len(),
        r is Some ==> forall|i: int|
            0 <= i < r->0@.len() ==> (#[trigger] r->0@[i]).0@ == serde_model(*j)->Object_0[i].0
                && serde_model(r->0@[i].1) == serde_model(*j)->Object_0[i].1,
{
    j.as_object().map(|m| m.iter().map(|(k, x)| (k.clone(), x.clone())).collect())
}

/// Relies on `serde_json::Value::is_null`: true of `Value::Null` alone.
pub assume_specification[ serde_json::Value::is_null ](j: &serde_json::Value) -> (r: bool)
    ensures
        r == (serde_model(*j) is Null),
;

/// Relies on `serde_json::Value::as_bool`: the boolean of `Value::Bool`.
pub assume_specification[ serde_json::Value::as_bool ](j: &serde_json::Value) -> (r: Option<bool>)
    ensures
        r == (match serde_model(*j) {
            Json::Bool(b) => Some(b),
            _ => None,
        }),
;

/// Relies on `serde_json::Value::as_i64`: a number that is an integer
/// within `i64`.
pub assume_specification[ serde_json::Value::as_i64 ](j: &serde_json::Value) -> (r: Option<i64>)
    ensures
        r == (match serde_model(*j) {
            Json::Int(i) => Some(i),
            _ => None,
        }),
;

/// Relies on `serde_json::Value::as_u64`: a number that is a non-negative
/// integer within `u64`.
pub assume_specification[ serde_json::Value::as_u64 ](j: &serde_json::Value) -> (r: Option<u64>)
    ensures
        r == (match serde_model(*j) {
            Json::Int(i) => if i >= 0 {
                Some(i as u64)
            } else {
                None
            },
            Json::UInt(u) => Some(u),
            _ => None,
        }),
;

/// Relies on `serde_json::Value::as_str`: the text of `Value::String`.
pub assume_specification[ serde_json::Value::as_str ](j: &serde_json::Value) -> (r: Option<&str>)
    ensures
        r is Some <==> serde_model(*j) is Str,
        r is Some ==> r->0@ == serde_model(*j)->Str_0,
;

/// Relies on `serde_json::Value::as_array`: the elements of `Value::Array`.
pub assume_specification[ serde_json::Value::as_array ](j: &serde_json::Value) -> (r: Option<
    &Vec<serde_json::Value>,
>)
    ensures
        r is Some <==> serde_model(*j) is Array,
        r is Some ==> r->0@.len() == serde_model(*j)->Array_0.len(),
        r is Some ==> forall|i: int|
            0 <= i < r->0@.len() ==> serde_model(#[trigger] r->0@[i]) == serde_model(
                *j,
            )->Array_0[i],
;

} // verus!
