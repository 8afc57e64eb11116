//! The edit-distance metric, as a named black box.
//!
//! The metric's internal algorithm is outside the library: `strsim`
//! computes it, and the uninterpreted name [`lev`] stands for its result.
//! Everything the rest of the library proves rests only on the few facts
//! stated here: the distance of a string to itself is zero, the metric is
//! symmetric, and it never exceeds the length of the longer string.

use vstd::prelude::*;

verus! {

/// The Levenshtein distance between two sequences of characters: the least
/// number of single-character insertions, deletions and substitutions that
/// turns one into the other. The name stands for what
/// `strsim::levenshtein` returns; nothing in this crate computes it.
pub uninterp spec fn lev(a: Seq<char>, b: Seq<char>) -> nat;

/// Relies on `strsim::levenshtein`: it walks the `char`s of both strings and
/// returns their Levenshtein distance. Of that distance the contract states
/// three facts that hold of the metric by its definition: equal strings are
/// at distance zero, the metric is symmetric (insertions and deletions swap
/// roles), and substituting every character of the shorter string and
/// inserting the rest bounds the distance by the longer length.
#[verifier::external_body]
pub(crate) fn levenshtein_distance(a: &str, b: &str) -> (r: usize)
    ensures
        r == lev(a@, b@),
        r == lev(b@, a@),
        a@ == b@ ==> r == 0,
        r <= a@.len() || r <= b@.len(),
{
    strsim::levenshtein(a, b)
}

} // verus!
