//! Reading the members of a JSON object line through `serde_json`.
use vstd::prelude::*;

verus! {

/// A member value of a JSON object, as text.
#[derive(Debug)]
pub enum JsonScalar {
    /// A JSON string: its unescaped contents.
    Text(String),
    /// Any other JSON value: its compact JSON text.
    Other(String),
}

/// One member of a JSON object.
#[derive(Debug)]
pub struct JsonEntry {
    pub key: String,
    pub value: JsonScalar,
}

/// A member as plain values: its key, whether its value is a JSON string,
/// and the value's text.
pub open spec fn entry_view(e: JsonEntry) -> (Seq<char>, bool, Seq<char>) {
    match e.value {
        JsonScalar::Text(t) => (e.key@, true, t@),
        JsonScalar::Other(t) => (e.key@, false, t@),
    }
}

/// The members as plain values.
pub open spec fn entries_view(es: Seq<JsonEntry>) -> Seq<(Seq<char>, bool, Seq<char>)> {
    es.map_values(|e: JsonEntry| entry_view(e))
}

/// The members of the JSON object that `text` is, in the order `serde_json`
/// keeps them, each as (key, is a string, text); `None` when `text` is not
/// a JSON object.
pub uninterp spec fn json_object_members(text: Seq<char>) -> Option<Seq<(Seq<char>, bool, Seq<char>)>>;

/// Parses `line` with `serde_json::from_str` into a `serde_json::Value`.
/// When the value is an object, hands out its members in the map's order,
/// a string value as its contents and any other value as the compact text
/// that `serde_json`'s `Display` writes. The contract only ties the result to
/// the name `json_object_members` of the line's characters: what that name
/// is on a given line is not stated.
#[verifier::external_body]
pub(crate) fn parse_json_object(line: &str) -> (members: Option<Vec<JsonEntry>>)
    ensures
        match members {
            Some(v) => json_object_members(line@) == Some(entries_view(v@)),
            None => json_object_members(line@) is None,
        },
{
    match serde_json::from_str::<serde_json::Value>(line) {
        Ok(serde_json::Value::Object(map)) => Some(
            map.into_iter().map(|(key, v)| JsonEntry { key, value: match v {
                serde_json::Value::String(s) => JsonScalar::Text(s),
                other => JsonScalar::Other(other.to_string()),
            } }).collect(),
        ),
        _ => None,
    }
}

} // verus!
