//! The opaque serialize/deserialize capability the store consumes, supplied
//! by serde_json. The store itself only ever holds the serialized text; these
//! are the two trusted crossings between `serde_json::Value` and that text.

use vstd::prelude::*;

verus! {

#[verifier::external_type_specification]
#[verifier::external_body]
pub struct ExValue(serde_json::Value);

/// The JSON text serde_json writes for a value — a function of the value
/// alone; `None` stands for the values the serializer refuses.
pub uninterp spec fn json_text(v: serde_json::Value) -> Option<Seq<char>>;

/// The value serde_json reads back from a piece of text — a function of the
/// text alone; `None` stands for text that does not parse as a JSON value.
pub uninterp spec fn json_value(s: Seq<char>) -> Option<serde_json::Value>;

/// Relies on serde_json::to_string: serializing a value is deterministic,
/// and whether it fails is decided by the value alone.
#[verifier::external_body]
pub fn serialize_value(v: &serde_json::Value) -> (r: Option<String>)
    ensures
        r is Some <==> json_text(*v) is Some,
        r matches Option::Some(s) ==> Option::Some(s@) == json_text(*v),
{
    serde_json::to_string(v).ok()
}

/// Relies on serde_json::from_str::<Value>: whether a piece of text parses,
/// and to which value, is decided by the text alone.
#[verifier::external_body]
pub fn deserialize_text(s: &String) -> (r: Option<serde_json::Value>)
    ensures
        r == json_value(s@),
{
    serde_json::from_str(s.as_str()).ok()
}

} // verus!
