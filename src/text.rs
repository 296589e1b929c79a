use vstd::prelude::*;

verus! {

/// `pat` occurs in `s` as a contiguous run of characters (the empty pattern
/// occurs everywhere).
pub open spec fn contains_chars(s: Seq<char>, pat: Seq<char>) -> bool {
    exists|i: int| 0 <= i && i + pat.len() <= s.len() && #[trigger] s.subrange(i, i + pat.len()) == pat
}

/// Relies on `str::contains` with a `&str` pattern: true exactly when the
/// pattern occurs in the string as a substring.
#[verifier::external_body]
pub(crate) fn name_matches(name: &String, filter: &String) -> (r: bool)
    ensures
        r == contains_chars(name@, filter@),
{
    name.contains(filter.as_str())
}

} // verus!
