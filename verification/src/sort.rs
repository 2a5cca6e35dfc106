//! Sorting a list of codes.
//!
//! The sort is the standard library's; its contract here is what the
//! documentation of `slice::sort` promises and is not proved.
use vstd::prelude::*;

verus! {

/// No element is greater than one that follows it.
pub open spec fn ascending(codes: Seq<u64>) -> bool {
    forall|i: int, j: int| 0 <= i <= j < codes.len() ==> codes[i] <= codes[j]
}

/// `slice::sort`: afterwards the list holds the elements that it
/// held before, each as often as before, in ascending order.
#[verifier::external_body]
pub(crate) fn sort_codes(codes: &mut Vec<u64>)
    ensures
        ascending(final(codes)@),
        final(codes)@.to_multiset() == old(codes)@.to_multiset(),
{
    codes.sort();
}

} // verus!
