//! Lines of text as the items that are compared.

use vstd::prelude::*;

verus! {

/// The lines of a slice, each as its sequence of characters.
pub open spec fn lines_of(s: Seq<&str>) -> Seq<Seq<char>> {
    Seq::new(s.len(), |i: int| s[i]@)
}

/// Whether two lines hold the same characters.
///
/// Trusted: this is `==` of `str`, which compares two string slices by their
/// contents; the contract says that it answers whether the two sequences of
/// characters are equal.
#[verifier::external_body]
pub(crate) fn same_line(a: &str, b: &str) -> (same: bool)
    ensures
        same == (a@ == b@),
{
    a == b
}

} // verus!
