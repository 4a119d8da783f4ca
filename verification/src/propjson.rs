//! Trusted boundary around the json crate, used for the `!` records of
//! the input format: a JSON object whose `Properties` member maps bit
//! numbers to property display names.
//!
//! What entries a given text yields is a fixed function of the text (the
//! json crate's object keeps its members in insertion order), named here
//! and never written out.

use vstd::prelude::*;

verus! {

/// Why a property-table record was rejected: the text is not JSON at
/// all, or it has no `Properties` object.
#[derive(Copy, Clone, PartialEq, Eq, Structural, Debug)]
pub enum PropJsonError {
    NotJson,
    NoPropertiesObject,
}

/// The key/value pairs of the `Properties` object of `text`, in object
/// order, values rendered as the json crate's Display renders them; or
/// which of the two errors the text earns.
pub uninterp spec fn prop_entries_of(text: Seq<char>) -> Result<
    Seq<(Seq<char>, Seq<char>)>,
    PropJsonError,
>;

/// Relies on json::parse (fails exactly on malformed JSON), JsonValue's
/// `&str` indexing (the member, or null when absent or not an object),
/// json::object::Object::iter (members in insertion order) and
/// JsonValue's Display (strings rendered bare). The result depends on
/// the text alone.
#[verifier::external_body]
pub(crate) fn json_prop_entries(text: &str) -> (r: Result<Vec<(String, String)>, PropJsonError>)
    ensures
        match r {
            Ok(v) => prop_entries_of(text@) matches Ok(s) && v@.len() == s.len() && forall|i: int|
                0 <= i < v@.len() ==> (#[trigger] v@[i]).0@ == s[i].0 && v@[i].1@ == s[i].1,
            Err(e) => prop_entries_of(text@) == Err::<Seq<(Seq<char>, Seq<char>)>, PropJsonError>(
                e,
            ),
        },
{
    match json::parse(text) {
        Err(_) => Err(PropJsonError::NotJson),
        Ok(doc) => match &doc["Properties"] {
            json::JsonValue::Object(table) => Ok(
                table.iter().map(|(k, v)| (k.to_string(), v.to_string())).collect(),
            ),
            _ => Err(PropJsonError::NoPropertiesObject),
        },
    }
}

} // verus!
