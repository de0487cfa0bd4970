//! The boundary to the JSON codec. Lines of a log are JSON documents; what
//! the engine reads from one is gathered here into plain values, and what the
//! codec computes is named, not restated.

use vstd::prelude::*;

verus! {

/// `serde_json::Error`, the codec's error: told apart from a reading,
/// nothing is read from it.
#[verifier::external_type_specification]
#[verifier::external_body]
pub struct ExJsonError(serde_json::Error);

/// What one JSON document says of itself, as far as the log reads it.
#[derive(Debug, PartialEq, Eq)]
pub struct JsonReading {
    /// The document in the codec's compact rendering.
    pub text: String,
    /// The string under the id key, if the document is an object that has one.
    pub id: Option<String>,
    /// The integer under the timestamp key, if there is one that fits `i64`.
    pub stamp: Option<i64>,
    /// The boolean under the deletion key, if there is one.
    pub flag: Option<bool>,
}

/// A reading in the abstract.
pub ghost struct ReadingView {
    pub text: Seq<char>,
    pub id: Option<Seq<char>>,
    pub stamp: Option<i64>,
    pub flag: Option<bool>,
}

impl View for JsonReading {
    type V = ReadingView;

    open spec fn view(&self) -> ReadingView {
        ReadingView {
            text: self.text@,
            id: match self.id {
                Some(s) => Some(s@),
                None => None,
            },
            stamp: self.stamp,
            flag: self.flag,
        }
    }
}

/// What the codec reads from `text` under the three keys, or `None` where
/// `text` is not one JSON document.
pub uninterp spec fn json_reading(
    text: Seq<char>,
    id_key: Seq<char>,
    stamp_key: Seq<char>,
    flag_key: Seq<char>,
) -> Option<ReadingView>;

/// Whether the two texts denote equal values, where both are JSON
/// documents; `None` where one of them is not.
pub uninterp spec fn json_same(a: Seq<char>, b: Seq<char>) -> Option<bool>;

/// The compact JSON object that holds `id` under `id_key`, `stamp` under
/// `stamp_key` and `flag` under `flag_key`.
pub uninterp spec fn json_marker(
    id_key: Seq<char>,
    id: Seq<char>,
    stamp_key: Seq<char>,
    stamp: i64,
    flag_key: Seq<char>,
    flag: bool,
) -> Seq<char>;

/// Parses `text` with `serde_json::from_str` into a `serde_json::Value` and
/// reads it with `Value::get`, `as_str`, `as_i64`, `as_bool` and its compact
/// `to_string`. Nothing is claimed of the outcome but that it is a function
/// of the four texts: the error exactly where the codec rejects `text`.
#[verifier::external_body]
pub(crate) fn read_json(text: &str, id_key: &str, stamp_key: &str, flag_key: &str) -> (r: Result<
    JsonReading,
    serde_json::Error,
>)
    ensures
        r is Ok <==> json_reading(text@, id_key@, stamp_key@, flag_key@) is Some,
        r is Ok ==> Some(r->Ok_0@) == json_reading(text@, id_key@, stamp_key@, flag_key@),
{
    let v: serde_json::Value = serde_json::from_str(text)?;
    Ok(
        JsonReading {
            text: v.to_string(),
            id: v.get(id_key).and_then(|x| x.as_str()).map(|s| s.to_string()),
            stamp: v.get(stamp_key).and_then(|x| x.as_i64()),
            flag: v.get(flag_key).and_then(|x| x.as_bool()),
        },
    )
}

/// Parses both texts with `serde_json::from_str` and compares the two
/// `serde_json::Value`s with `==`. Nothing is claimed of the outcome but that
/// it is a function of the two texts: the error exactly where the codec
/// rejects one of them.
#[verifier::external_body]
pub(crate) fn json_equal(a: &str, b: &str) -> (r: Result<bool, serde_json::Error>)
    ensures
        r is Ok <==> json_same(a@, b@) is Some,
        r is Ok ==> Some(r->Ok_0) == json_same(a@, b@),
{
    let x: serde_json::Value = serde_json::from_str(a)?;
    let y: serde_json::Value = serde_json::from_str(b)?;
    Ok(x == y)
}

/// Builds a `serde_json::Map` of three members with `Map::insert` and
/// renders it as a `serde_json::Value` with its compact `to_string`. Nothing
/// is claimed of the text but that it is a function of what goes into it.
#[verifier::external_body]
pub(crate) fn marker_json(
    id_key: &str,
    id: &str,
    stamp_key: &str,
    stamp: i64,
    flag_key: &str,
    flag: bool,
) -> (r: String)
    ensures
        r@ == json_marker(id_key@, id@, stamp_key@, stamp, flag_key@, flag),
{
    let mut m = serde_json::Map::new();
    m.insert(id_key.to_string(), serde_json::Value::String(id.to_string()));
    m.insert(stamp_key.to_string(), serde_json::Value::from(stamp));
    m.insert(flag_key.to_string(), serde_json::Value::Bool(flag));
    serde_json::Value::Object(m).to_string()
}

} // verus!
