//! The engine treats payloads as opaque JSON text: it only ever asks whether
//! a text parses, and stores the parser's compact rendering. Both questions
//! are answered by serde_json behind the trusted wrappers below; everything
//! the rest of the crate knows about them is stated here, over the names
//! `json_ok`, `json_canon`, `json_array_ok` and `json_array_items`.

use vstd::prelude::*;

verus! {

/// Whether a text is valid JSON, exactly as serde_json's parser accepts it.
pub uninterp spec fn json_ok(s: Seq<char>) -> bool;

/// The compact rendering serde_json gives a valid JSON text after parsing it
/// (meaningful only when `json_ok` holds of the text).
pub uninterp spec fn json_canon(s: Seq<char>) -> Seq<char>;

/// Whether a text is a JSON array.
pub uninterp spec fn json_array_ok(s: Seq<char>) -> bool;

/// The elements of a JSON array text, each in compact rendering (meaningful
/// only when `json_array_ok` holds of the text).
pub uninterp spec fn json_array_items(s: Seq<char>) -> Seq<Seq<char>>;

/// Relies on `serde_json::from_str::<Value>`, which returns `Ok` exactly on
/// valid JSON text, and on `Value`'s `Display`, which renders the parsed
/// value compactly; both depend on the text alone.
#[verifier::external_body]
pub fn canonical_json(s: &str) -> (r: Option<String>)
    ensures
        r is Some <==> json_ok(s@),
        r matches Some(t) ==> t@ == json_canon(s@),
{
    match serde_json::from_str::<serde_json::Value>(s) {
        Ok(v) => Some(v.to_string()),
        Err(_) => None,
    }
}

/// Relies on `serde_json::from_str::<Vec<Value>>`, which returns `Ok` exactly
/// on a JSON array, and on `Value`'s `Display` for each element; both depend
/// on the text alone.
#[verifier::external_body]
pub fn parse_json_array(s: &str) -> (r: Option<Vec<String>>)
    ensures
        r is Some <==> json_array_ok(s@),
        r matches Some(v) ==> v@.map_values(|t: String| t@) == json_array_items(s@),
{
    match serde_json::from_str::<Vec<serde_json::Value>>(s) {
        Ok(items) => Some(items.iter().map(|v| v.to_string()).collect()),
        Err(_) => None,
    }
}

} // verus!
