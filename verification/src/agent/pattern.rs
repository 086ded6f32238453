//! Regular expressions in log lines.

use vstd::prelude::*;

verus! {

/// What the `regex` crate finds for a pattern in a text: nothing when the
/// pattern does not compile, otherwise whether it matches anywhere.
pub uninterp spec fn pattern_outcome(pattern: Seq<char>, text: Seq<char>) -> Option<bool>;

/// Calls `regex::Regex::new` and `Regex::is_match`. The result is a function
/// of the pattern and the text: nothing when the pattern does not compile,
/// otherwise whether it matches anywhere in the text. What a pattern means is
/// not stated here.
#[verifier::external_body]
pub(crate) fn try_match(pattern: &str, text: &str) -> (r: Option<bool>)
    ensures
        r == pattern_outcome(pattern@, text@),
{
    regex::Regex::new(pattern).ok().map(|re| re.is_match(text))
}

} // verus!
