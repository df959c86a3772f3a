//! The plain on-disk form of the recent list: a JSON array of strings, read
//! with serde_json. Reading the file itself is left to the caller; this
//! module turns its text into a list.
use vstd::prelude::*;

verus! {

/// The error type of serde_json.
#[verifier::external_type_specification]
#[verifier::external_body]
pub struct ExJsonError(serde_json::Error);

/// The strings that a JSON text holds when it is an array of strings, as
/// serde_json reads it into a `Vec<String>`; `None` for any other text.
pub uninterp spec fn json_string_list(text: Seq<char>) -> Option<Seq<Seq<char>>>;

/// Calls `serde_json::from_str::<Vec<String>>`. The contract claims that the
/// call succeeds exactly when the text is one serde_json reads as a list of
/// strings, and that the list it returns is that one (`json_string_list`, a
/// function of the text alone). Which texts those are (the JSON grammar) is
/// not stated.
#[verifier::external_body]
fn read_string_list(text: &str) -> (r: Result<Vec<String>, serde_json::Error>)
    ensures
        r is Ok <==> json_string_list(text@) is Some,
        r matches Ok(v) ==> json_string_list(text@) == Some(v.deep_view()),
{
    serde_json::from_str::<Vec<String>>(text)
}

/// Reads the text of a recent-list file: the list of strings it holds, or
/// `None` when it is not a JSON array of strings.
pub fn parse_recent_list(content: &str) -> (r: Option<Vec<String>>)
    ensures
        match r {
            Some(v) => json_string_list(content@) == Some(v.deep_view()),
            None => json_string_list(content@) is None,
        },
{
    match read_string_list(content) {
        Ok(v) => Some(v),
        Err(_) => None,
    }
}

} // verus!
