//! Samples of one channel and their sorted arrangement.

use crate::sort::{key_le, par_sort_keys};
use vstd::prelude::*;

verus! {

/// One pixel of one channel: where it stands in the image (row-major) and
/// how bright it is.
#[derive(Clone, Copy, Debug, PartialEq, Eq, Structural)]
pub struct Sample {
    pub index: usize,
    pub intensity: u8,
}

/// The strict order in which samples are arranged: ascending by intensity,
/// and by index among samples of equal intensity.
pub open spec fn precedes(a: Sample, b: Sample) -> bool {
    a.intensity < b.intensity || (a.intensity == b.intensity && a.index < b.index)
}

/// The sample that pixel `i` of `channel` contributes.
pub open spec fn sample_of(channel: Seq<u8>, i: int) -> Sample {
    Sample { index: i as usize, intensity: channel[i] }
}

/// Pixel `i` has a sample in `sorted`.
pub open spec fn holds_pixel(sorted: Seq<Sample>, i: int) -> bool {
    exists|k: int| 0 <= k < sorted.len() && (#[trigger] sorted[k]).index == i
}

/// The samples are those of some channel of their number, each pixel once,
/// in strictly ascending order.
pub open spec fn is_arrangement(sorted: Seq<Sample>) -> bool {
    &&& forall|k: int| 0 <= k < sorted.len() ==> (#[trigger] sorted[k]).index < sorted.len()
    &&& forall|i: int| 0 <= i < sorted.len() ==> #[trigger] holds_pixel(sorted, i)
    &&& forall|a: int, b: int|
        0 <= a < b < sorted.len() ==> {
            &&& (#[trigger] sorted[a]).index != (#[trigger] sorted[b]).index
            &&& precedes(sorted[a], sorted[b])
        }
}

/// `sorted` holds exactly the samples of `channel`, in strictly ascending
/// order.
pub open spec fn is_sorting_of(sorted: Seq<Sample>, channel: Seq<u8>) -> bool {
    &&& sorted.len() == channel.len()
    &&& is_arrangement(sorted)
    &&& forall|k: int|
        0 <= k < sorted.len() ==> (#[trigger] sorted[k]).intensity
            == channel[sorted[k].index as int]
}

/// The keys of a channel before sorting: pixel `i` gives `(intensity, i)`.
spec fn keys_of(keys: Seq<(u8, usize)>, channel: Seq<u8>) -> bool {
    &&& keys.len() == channel.len()
    &&& forall|i: int| 0 <= i < keys.len() ==> #[trigger] keys[i] == (channel[i], i as usize)
}

/// A rearrangement of a channel's keys that is ascending is strictly
/// ascending, and holds each pixel's key.
proof fn lemma_sorted_keys(unsorted: Seq<(u8, usize)>, sorted: Seq<(u8, usize)>, channel: Seq<u8>)
    requires
        channel.len() <= usize::MAX,
        keys_of(unsorted, channel),
        sorted.to_multiset() == unsorted.to_multiset(),
        forall|i: int, j: int|
            0 <= i < j < sorted.len() ==> key_le(#[trigger] sorted[i], #[trigger] sorted[j]),
    ensures
        sorted.len() == channel.len(),
        forall|k: int|
            0 <= k < sorted.len() ==> {
                &&& (#[trigger] sorted[k]).1 < channel.len()
                &&& sorted[k].0 == channel[sorted[k].1 as int]
            },
        forall|i: int|
            0 <= i < channel.len() ==> sorted.contains(#[trigger] unsorted[i]),
        forall|a: int, b: int|
            0 <= a < b < sorted.len() ==> (#[trigger] sorted[a]) != (#[trigger] sorted[b]),
{
    broadcast use vstd::seq_lib::to_multiset_contains;

    vstd::seq_lib::to_multiset_len(sorted);
    vstd::seq_lib::to_multiset_len(unsorted);
    assert(sorted.len() == unsorted.len());
    assert forall|k: int| 0 <= k < sorted.len() implies {
        &&& (#[trigger] sorted[k]).1 < channel.len()
        &&& sorted[k].0 == channel[sorted[k].1 as int]
    } by {
        assert(sorted.contains(sorted[k]));
        assert(sorted.to_multiset().count(sorted[k]) > 0);
        assert(unsorted.contains(sorted[k]));
        let i = choose|i: int| 0 <= i < unsorted.len() && unsorted[i] == sorted[k];
        assert(unsorted[i] == (channel[i], i as usize));
    }
    assert forall|i: int| 0 <= i < channel.len() implies sorted.contains(
        #[trigger] unsorted[i],
    ) by {
        assert(unsorted.contains(unsorted[i]));
        assert(unsorted.to_multiset().count(unsorted[i]) > 0);
    }
    assert(unsorted.no_duplicates()) by {
        assert forall|i: int, j: int|
            0 <= i < unsorted.len() && 0 <= j < unsorted.len() && i != j implies unsorted[i]
            != unsorted[j] by {
            assert(unsorted[i].1 == i as usize);
            assert(unsorted[j].1 == j as usize);
        }
    }
    unsorted.lemma_multiset_has_no_duplicates();
    sorted.lemma_multiset_has_no_duplicates_conv();
}

/// The samples of one channel in ascending order.
pub struct SortedSamples {
    samples: Vec<Sample>,
}

impl View for SortedSamples {
    type V = Seq<Sample>;

    closed spec fn view(&self) -> Seq<Sample> {
        self.samples@
    }
}

impl SortedSamples {
    #[verifier::type_invariant]
    spec fn inv(&self) -> bool {
        is_arrangement(self.samples@)
    }

    /// The number of samples.
    pub fn len(&self) -> (n: usize)
        ensures
            n == self@.len(),
            is_arrangement(self@),
    {
        proof {
            use_type_invariant(self);
        }
        self.samples.len()
    }

    /// The sample at place `k` of the ascending order.
    pub fn sample(&self, k: usize) -> (s: Sample)
        requires
            k < self@.len(),
        ensures
            s == self@[k as int],
    {
        self.samples[k]
    }

    /// Sorts the samples of `channel` ascending by intensity; pixels of equal
    /// intensity keep the order of their indices.
    pub fn from_channel(channel: &Vec<u8>) -> (sorted: SortedSamples)
        ensures
            is_sorting_of(sorted@, channel@),
    {
        let n = channel.len();
        let mut keys: Vec<(u8, usize)> = Vec::with_capacity(n);
        let mut i: usize = 0;
        while i < n
            invariant
                n == channel.len(),
                i <= n,
                keys.len() == i,
                forall|j: int| 0 <= j < i ==> #[trigger] keys@[j] == (channel@[j], j as usize),
            decreases n - i,
        {
            keys.push((channel[i], i));
            i += 1;
        }
        let ghost unsorted = keys@;
        par_sort_keys(&mut keys);
        proof {
            lemma_sorted_keys(unsorted, keys@, channel@);
        }
        let mut samples: Vec<Sample> = Vec::with_capacity(n);
        let mut k: usize = 0;
        while k < n
            invariant
                n == channel.len(),
                n == keys.len(),
                k <= n,
                samples.len() == k,
                forall|j: int|
                    0 <= j < k ==> #[trigger] samples@[j] == (Sample {
                        index: keys@[j].1,
                        intensity: keys@[j].0,
                    }),
            decreases n - k,
        {
            samples.push(Sample { index: keys[k].1, intensity: keys[k].0 });
            k += 1;
        }
        proof {
            let s = samples@;
            assert forall|i: int| 0 <= i < s.len() implies #[trigger] holds_pixel(s, i) by {
                assert(keys@.contains(unsorted[i]));
                let m = choose|m: int| 0 <= m < keys@.len() && keys@[m] == unsorted[i];
                assert(s[m].index == i);
            }
            assert forall|a: int, b: int| 0 <= a < b < s.len() implies {
                &&& (#[trigger] s[a]).index != (#[trigger] s[b]).index
                &&& precedes(s[a], s[b])
            } by {
                assert(key_le(keys@[a], keys@[b]));
                assert(keys@[a] != keys@[b]);
            }
        }
        SortedSamples { samples }
    }
}

} // verus!
