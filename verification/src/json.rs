//! Reading a JSON array of strings.

use vstd::prelude::*;

verus! {

/// The error of serde_json: a value that is handed on and never looked
/// into.
#[verifier::external_type_specification]
#[verifier::external_body]
pub struct ExJsonError(serde_json::Error);

/// A list of texts as plain values.
pub open spec fn plain(list: Seq<String>) -> Seq<Seq<char>> {
    Seq::new(list.len(), |i: int| list[i]@)
}

/// The strings of the JSON array written in `text`, as serde_json reads
/// them; `None` where `text` is not a JSON array of strings.
pub uninterp spec fn json_strings(text: Seq<char>) -> Option<Seq<Seq<char>>>;

/// `serde_json::from_str` reads a JSON text into a list of strings, or
/// fails. The contract names the list, and says that there is none where
/// the call fails.
#[verifier::external_body]
pub(crate) fn read_json_strings(text: &str) -> (r: Result<Vec<String>, serde_json::Error>)
    ensures
        match r {
            Ok(list) => json_strings(text@) == Some(plain(list@)),
            Err(_) => json_strings(text@) is None,
        },
{
    serde_json::from_str::<Vec<String>>(text)
}

} // verus!
