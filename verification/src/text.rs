//! Case-insensitive name matching, on top of the standard library's case
//! folding and substring search.

use vstd::prelude::*;

verus! {

/// The lowercase form of a character sequence, as the standard library's
/// case folding produces it: a function of the characters alone.
pub uninterp spec fn lower_of(s: Seq<char>) -> Seq<char>;

/// `n` occurs contiguously inside `h` (anywhere, the empty sequence always).
pub open spec fn spec_contains(h: Seq<char>, n: Seq<char>) -> bool {
    exists|i: int| 0 <= i <= h.len() - n.len() && #[trigger] h.subrange(i, i + n.len()) == n
}

/// Relies on str::to_lowercase: the result depends on the characters alone.
#[verifier::external_body]
pub(crate) fn to_lowercase(s: &str) -> (r: String)
    ensures
        r@ == lower_of(s@),
{
    s.to_lowercase()
}

/// Relies on str::contains with a string pattern: true exactly when the
/// pattern matches a contiguous substring.
#[verifier::external_body]
pub(crate) fn contains_str(h: &str, n: &str) -> (r: bool)
    ensures
        r == spec_contains(h@, n@),
{
    h.contains(n)
}

/// A name matches a query when its lowercase form contains the query's
/// lowercase form.
pub open spec fn name_matches(name: Seq<char>, query: Seq<char>) -> bool {
    spec_contains(lower_of(name), lower_of(query))
}

/// Case-insensitive containment, as the tables' searches use it.
pub fn matches_name(name: &str, query: &str) -> (r: bool)
    ensures
        r == name_matches(name@, query@),
{
    let ln = to_lowercase(name);
    let lq = to_lowercase(query);
    contains_str(ln.as_str(), lq.as_str())
}

} // verus!
