//! Searching byte strings with regular expressions.
use vstd::prelude::*;

verus! {

/// Whether `pattern` is a regular expression that the engine accepts.
pub uninterp spec fn regex_valid(pattern: Seq<char>) -> bool;

/// The byte offsets `(start, end)` of the leftmost-first match of `pattern` in
/// `text`, if there is one.
pub uninterp spec fn regex_first_match(pattern: Seq<char>, text: Seq<u8>) -> Option<(int, int)>;

/// Relies on regex::bytes::Regex::new, which refuses a pattern that does not
/// parse, and on regex::bytes::Regex::find, which returns the first match with
/// `start <= end <= text.len()`. Both depend on their arguments alone.
#[verifier::external_body]
pub(crate) fn regex_find(pattern: &str, text: &[u8]) -> (r: Result<Option<(usize, usize)>, ()>)
    ensures
        r is Err <==> !regex_valid(pattern@),
        r matches Ok(m) ==> match m {
            Some((s, e)) => regex_first_match(pattern@, text@) == Some((s as int, e as int)),
            None => regex_first_match(pattern@, text@) is None,
        },
        r matches Ok(Some((s, e))) ==> s <= e <= text@.len(),
{
    match regex::bytes::Regex::new(pattern) {
        Ok(re) => Ok(re.find(text).map(|m| (m.start(), m.end()))),
        Err(_) => Err(()),
    }
}

} // verus!
