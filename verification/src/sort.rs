//! Parallel sorting of sample keys.

use rayon::slice::ParallelSliceMut;
use vstd::prelude::*;

verus! {

/// The lexicographic order on `(intensity, index)` keys: by intensity first,
/// by index among equal intensities.
pub open spec fn key_le(a: (u8, usize), b: (u8, usize)) -> bool {
    a.0 < b.0 || (a.0 == b.0 && a.1 <= b.1)
}

/// Sorts the keys in place with rayon's `ParallelSliceMut::par_sort_unstable`.
///
/// Not proved here, taken from rayon and from the order that std gives to
/// tuples: after the call the vector holds the same keys as before, each as
/// often as before, and they stand in ascending lexicographic order.
#[verifier::external_body]
pub(crate) fn par_sort_keys(keys: &mut Vec<(u8, usize)>)
    ensures
        final(keys)@.to_multiset() == old(keys)@.to_multiset(),
        forall|i: int, j: int|
            0 <= i < j < final(keys)@.len() ==> key_le(
                #[trigger] final(keys)@[i],
                #[trigger] final(keys)@[j],
            ),
{
    keys.par_sort_unstable();
}

} // verus!
