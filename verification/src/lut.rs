//! The inverse lookup table of one channel.

use crate::sample::{is_arrangement, is_sorting_of, precedes, Sample, SortedSamples};
use vstd::prelude::*;

verus! {

/// The place that a lookup at `index` reads among `n` samples: `index`
/// itself, or the last place where `index` lies beyond it.
pub open spec fn clamped(index: int, n: int) -> int {
    if index < n {
        index
    } else {
        n - 1
    }
}

/// The table that the places `indices` give over `sorted`: entry `k` is the
/// intensity at place `indices[k]`, clamped to the last place. Without
/// samples the table is empty.
pub open spec fn lut_of(sorted: Seq<Sample>, indices: Seq<usize>) -> Seq<u8> {
    if sorted.len() == 0 {
        Seq::empty()
    } else {
        Seq::new(
            indices.len(),
            |k: int| sorted[clamped(indices[k] as int, sorted.len() as int)].intensity,
        )
    }
}

/// In an arrangement the intensity never falls from one place to a later
/// one.
pub proof fn lemma_intensity_ascends(sorted: Seq<Sample>, a: int, b: int)
    requires
        is_arrangement(sorted),
        0 <= a <= b < sorted.len(),
    ensures
        sorted[a].intensity <= sorted[b].intensity,
{
    if a < b {
        assert(precedes(sorted[a], sorted[b]));
    }
}

/// Places that do not fall give a table that does not fall.
pub proof fn lemma_lut_ascends(sorted: Seq<Sample>, indices: Seq<usize>, k1: int, k2: int)
    requires
        is_arrangement(sorted),
        0 <= k1 <= k2 < lut_of(sorted, indices).len(),
        indices[k1] <= indices[k2],
    ensures
        lut_of(sorted, indices)[k1] <= lut_of(sorted, indices)[k2],
{
    let n = sorted.len() as int;
    lemma_intensity_ascends(sorted, clamped(indices[k1] as int, n), clamped(indices[k2] as int, n));
}

/// Every entry of the table is the intensity of some pixel of the channel.
pub proof fn lemma_lut_holds_intensities(
    sorted: Seq<Sample>,
    channel: Seq<u8>,
    indices: Seq<usize>,
    k: int,
)
    requires
        is_sorting_of(sorted, channel),
        0 <= k < lut_of(sorted, indices).len(),
    ensures
        channel.contains(lut_of(sorted, indices)[k]),
{
    let place = clamped(indices[k] as int, sorted.len() as int);
    assert(channel[sorted[place].index as int] == sorted[place].intensity);
}

impl SortedSamples {
    /// The intensity at place `index` of the ascending order; an index beyond
    /// the last place reads the last place.
    pub fn intensity_at(&self, index: usize) -> (v: u8)
        requires
            self@.len() > 0,
        ensures
            v == self@[clamped(index as int, self@.len() as int)].intensity,
    {
        let n = self.len();
        let place = if index < n {
            index
        } else {
            n - 1
        };
        self.sample(place).intensity
    }

    /// Builds the inverse lookup table: entry `k` is the intensity at place
    /// `indices[k]`, clamped to the last place. Where the places do not fall
    /// along the table, neither do its entries.
    pub fn inverse_lut(&self, indices: &Vec<usize>) -> (lut: Vec<u8>)
        ensures
            lut@ == lut_of(self@, indices@),
            self@.len() == 0 ==> lut@.len() == 0,
            self@.len() > 0 ==> lut@.len() == indices@.len(),
            forall|k1: int, k2: int|
                0 <= k1 <= k2 < lut@.len() && indices@[k1] <= indices@[k2] ==> (#[trigger] lut@[k1])
                    <= (#[trigger] lut@[k2]),
            self@.len() == 1 ==> forall|k: int|
                0 <= k < lut@.len() ==> #[trigger] lut@[k] == self@[0].intensity,
    {
        let mut lut: Vec<u8> = Vec::new();
        if self.len() == 0 {
            assert(lut@ =~= lut_of(self@, indices@));
            return lut;
        }
        let w = indices.len();
        let mut k: usize = 0;
        while k < w
            invariant
                self@.len() > 0,
                w == indices@.len(),
                k <= w,
                lut@.len() == k,
                forall|j: int| 0 <= j < k ==> #[trigger] lut@[j] == lut_of(self@, indices@)[j],
            decreases w - k,
        {
            lut.push(self.intensity_at(indices[k]));
            k += 1;
        }
        proof {
            assert(lut@ =~= lut_of(self@, indices@));
            assert forall|k1: int, k2: int|
                0 <= k1 <= k2 < lut@.len() && indices@[k1] <= indices@[k2] implies (
            #[trigger] lut@[k1]) <= (#[trigger] lut@[k2]) by {
                lemma_lut_ascends(self@, indices@, k1, k2);
            }
        }
        lut
    }
}

} // verus!
