//! Reading a JSON text into a tree.
use crate::json::{Json, JsonTree};
use vstd::prelude::*;

verus! {

#[verifier::external_type_specification]
#[verifier::external_body]
pub struct ExValue(serde_json::Value);

#[verifier::external_type_specification]
#[verifier::external_body]
pub struct ExError(serde_json::Error);

/// The value that a text spells, as `serde_json::from_str` reads it: numbers
/// as the text that `serde_json` prints them with, the members of an object
/// in the order in which `serde_json` walks them. `None` where the text is no
/// JSON document.
pub uninterp spec fn parsed(text: Seq<char>) -> Option<JsonTree>;

/// Moves a `serde_json::Value` into a `Json`, variant by variant. A number
/// becomes the text that `serde_json` prints it with, which is the text that
/// it serializes it to.
#[verifier::external_body]
fn from_value(value: &serde_json::Value) -> Json {
    match value {
        serde_json::Value::Null => Json::Null,
        serde_json::Value::Bool(b) => Json::Bool(*b),
        serde_json::Value::Number(n) => Json::Number(n.to_string()),
        serde_json::Value::String(s) => Json::String(s.clone()),
        serde_json::Value::Array(items) => Json::Array(items.iter().map(from_value).collect()),
        serde_json::Value::Object(members) => Json::Object(
            members.iter().map(|(k, v)| (k.clone(), from_value(v))).collect(),
        ),
    }
}

/// `serde_json::from_str`: reads `text` as one JSON document. The result
/// depends on the text alone, so the contract gives it a name.
#[verifier::external_body]
pub(crate) fn parse(text: &str) -> (r: Result<Json, serde_json::Error>)
    ensures
        match r {
            Ok(v) => parsed(text@) == Some(v@),
            Err(_) => parsed(text@) is None,
        },
{
    match serde_json::from_str::<serde_json::Value>(text) {
        Ok(value) => Ok(from_value(&value)),
        Err(e) => Err(e),
    }
}

} // verus!
