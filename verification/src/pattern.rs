//! Regular expressions, through the `regex` crate.

use vstd::prelude::*;

verus! {

/// The message of the error that `regex::Regex::new` gives for `pattern`,
/// or `None` when it accepts the pattern.
pub uninterp spec fn regex_error_text(pattern: Seq<char>) -> Option<Seq<char>>;

/// Whether the regular expression `pattern` matches somewhere in `line`,
/// as `regex::Regex::is_match` answers.
pub uninterp spec fn regex_match(pattern: Seq<char>, line: Seq<char>) -> bool;

pub open spec fn opt_text(r: Option<String>) -> Option<Seq<char>> {
    match r {
        Some(s) => Some(s@),
        None => None,
    }
}

/// Calls `regex::Regex::new(pattern)` and gives the `Display` text of its
/// error, if any. Stated: the answer depends on the pattern alone.
#[verifier::external_body]
pub(crate) fn regex_error(pattern: &str) -> (r: Option<String>)
    ensures
        opt_text(r) == regex_error_text(pattern@),
{
    regex::Regex::new(pattern).err().map(|e| e.to_string())
}

/// Compiles `pattern` with `regex::Regex::new` and asks `is_match` of
/// `line`. Stated: the answer depends on the pattern and the line alone;
/// it is asked only of patterns that compile.
#[verifier::external_body]
pub(crate) fn regex_is_match(pattern: &str, line: &str) -> (r: bool)
    requires
        regex_error_text(pattern@) is None,
    ensures
        r == regex_match(pattern@, line@),
{
    match regex::Regex::new(pattern) {
        Ok(re) => re.is_match(line),
        Err(_) => false,
    }
}

} // verus!
