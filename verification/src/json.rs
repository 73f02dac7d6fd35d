//! The one place where the script language calls `serde_json`.

use vstd::prelude::*;
use crate::text::{owned, append};

verus! {

/// What `serde_json` makes of a text: the text parsed as a `serde_json::Value`
/// and written back with its `Display` (compact JSON), or the `Display` of the
/// parse error.
pub uninterp spec fn json_reformat(text: Seq<char>) -> Result<Seq<char>, Seq<char>>;

/// Calls `serde_json::from_str::<serde_json::Value>` on `text` and turns the
/// value, or the error, into text with its `Display`. The contract claims only
/// that the result is `json_reformat` of the text: the outcome depends on the
/// text alone.
#[verifier::external_body]
pub(crate) fn reformat_json(text: &str) -> (r: Result<String, String>)
    ensures
        match r {
            Ok(t) => json_reformat(text@) == Ok::<Seq<char>, Seq<char>>(t@),
            Err(m) => json_reformat(text@) == Err::<Seq<char>, Seq<char>>(m@),
        },
{
    match serde_json::from_str::<serde_json::Value>(text) {
        Ok(v) => Ok(v.to_string()),
        Err(e) => Err(e.to_string()),
    }
}


/// What `json_parse` answers for the outcome of parsing: the compact text,
/// or the parse error after `JSON Parse Error: `.
pub fn json_answer(parsed: Result<String, String>) -> (r: Result<String, String>)
    ensures
        match parsed {
            Ok(t) => r matches Ok(u) && u@ == t@,
            Err(m) => r matches Err(e) && e@ == "JSON Parse Error: "@ + m@,
        },
{
    match parsed {
        Ok(t) => Ok(t),
        Err(m) => {
            let mut msg = owned("JSON Parse Error: ");
            append(&mut msg, m.as_str());
            Err(msg)
        },
    }
}

} // verus!
