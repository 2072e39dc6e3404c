//! The rank of each pixel among the samples of its channel.

use crate::grid::{midpoint, Fraction};
use crate::sample::{
    holds_pixel, is_arrangement, is_sorting_of, precedes, sample_of, Sample, SortedSamples,
};
use vstd::prelude::*;

verus! {

/// `ranks[i]` is the place of pixel `i` in `sorted`.
pub open spec fn is_rank_map(ranks: Seq<usize>, sorted: Seq<Sample>) -> bool {
    &&& ranks.len() == sorted.len()
    &&& forall|i: int|
        0 <= i < ranks.len() ==> {
            &&& (#[trigger] ranks[i]) < sorted.len()
            &&& sorted[ranks[i] as int].index == i
        }
}

/// `ranks` maps `[0, N)` one to one onto `[0, N)`, where `N` is its length.
pub open spec fn is_bijection(ranks: Seq<usize>) -> bool {
    &&& forall|i: int| 0 <= i < ranks.len() ==> (#[trigger] ranks[i]) < ranks.len()
    &&& forall|i: int, j: int|
        0 <= i < j < ranks.len() ==> (#[trigger] ranks[i]) != (#[trigger] ranks[j])
    &&& forall|r: usize| r < ranks.len() ==> #[trigger] ranks.contains(r)
}

/// Pixel `j` of `channel` is ranked before pixel `i`: it is darker, or as
/// bright and earlier in the image.
pub open spec fn comes_before(channel: Seq<u8>, j: int, i: int) -> bool {
    channel[j] < channel[i] || (channel[j] == channel[i] && j < i)
}

/// How many of the first `n` pixels of `channel` come before pixel `i`.
pub open spec fn count_preceding(channel: Seq<u8>, i: int, n: nat) -> nat
    decreases n,
{
    if n == 0 {
        0
    } else {
        let rest = count_preceding(channel, i, (n - 1) as nat);
        if comes_before(channel, n - 1, i) {
            rest + 1
        } else {
            rest
        }
    }
}

/// The rank of pixel `i`: the number of pixels of `channel` that come before
/// it.
pub open spec fn rank_of(channel: Seq<u8>, i: int) -> nat {
    count_preceding(channel, i, channel.len())
}

proof fn lemma_count_preceding_order(channel: Seq<u8>, i: int, j: int, n: nat)
    requires
        0 <= i < channel.len(),
        0 <= j < channel.len(),
        comes_before(channel, i, j),
        n <= channel.len(),
    ensures
        count_preceding(channel, i, n) <= count_preceding(channel, j, n) <= n,
        i < n ==> count_preceding(channel, i, n) < count_preceding(channel, j, n),
    decreases n,
{
    if n > 0 {
        lemma_count_preceding_order(channel, i, j, (n - 1) as nat);
    }
}

proof fn lemma_count_preceding_bound(channel: Seq<u8>, i: int, n: nat)
    requires
        0 <= i < channel.len(),
        n <= channel.len(),
    ensures
        count_preceding(channel, i, n) <= n,
        i < n ==> count_preceding(channel, i, n) < n,
    decreases n,
{
    if n > 0 {
        lemma_count_preceding_bound(channel, i, (n - 1) as nat);
    }
}

/// Every rank is below the number of pixels.
pub proof fn lemma_rank_of_in_range(channel: Seq<u8>, i: int)
    requires
        0 <= i < channel.len(),
    ensures
        rank_of(channel, i) < channel.len(),
{
    lemma_count_preceding_bound(channel, i, channel.len());
}

/// Ranks follow the order of the pixels: a pixel that is darker than
/// another, or as bright and earlier, has the lower rank.
pub proof fn lemma_rank_of_order(channel: Seq<u8>, i: int, j: int)
    requires
        0 <= i < channel.len(),
        0 <= j < channel.len(),
        comes_before(channel, i, j),
    ensures
        rank_of(channel, i) < rank_of(channel, j),
{
    lemma_count_preceding_order(channel, i, j, channel.len());
}

/// No two pixels share a rank.
pub proof fn lemma_rank_of_distinct(channel: Seq<u8>, i: int, j: int)
    requires
        0 <= i < channel.len(),
        0 <= j < channel.len(),
        i != j,
    ensures
        rank_of(channel, i) != rank_of(channel, j),
{
    if comes_before(channel, i, j) {
        lemma_rank_of_order(channel, i, j);
    } else {
        lemma_rank_of_order(channel, j, i);
    }
}

/// How many of the first `n` entries of `ranks` are below `r`.
pub open spec fn count_below(ranks: Seq<usize>, r: int, n: nat) -> nat
    decreases n,
{
    if n == 0 {
        0
    } else {
        let rest = count_below(ranks, r, (n - 1) as nat);
        if ranks[n - 1] < r {
            rest + 1
        } else {
            rest
        }
    }
}

/// The place of a sample in the sorted arrangement is the rank of its pixel.
pub proof fn lemma_rank_map_inverts(sorted: Seq<Sample>, ranks: Seq<usize>, k: int)
    requires
        is_arrangement(sorted),
        is_rank_map(ranks, sorted),
        0 <= k < sorted.len(),
    ensures
        ranks[sorted[k].index as int] == k,
{
    let i = sorted[k].index as int;
    let m = ranks[i] as int;
    assert(sorted[m].index == i);
    if m < k {
        assert(sorted[m].index != sorted[k].index);
    } else if k < m {
        assert(sorted[k].index != sorted[m].index);
    }
}

/// A rank map of an arrangement of `N` samples is a bijection on `[0, N)`.
pub proof fn lemma_rank_map_bijection(sorted: Seq<Sample>, ranks: Seq<usize>)
    requires
        is_arrangement(sorted),
        is_rank_map(ranks, sorted),
    ensures
        is_bijection(ranks),
{
    assert forall|i: int, j: int| 0 <= i < j < ranks.len() implies (#[trigger] ranks[i]) != (
    #[trigger] ranks[j]) by {
        assert(sorted[ranks[i] as int].index == i);
        assert(sorted[ranks[j] as int].index == j);
    }
    assert forall|r: usize| r < ranks.len() implies #[trigger] ranks.contains(r) by {
        lemma_rank_map_inverts(sorted, ranks, r as int);
        assert(ranks[sorted[r as int].index as int] == r);
    }
}

/// Ranks follow the order of the samples: pixel `i` has the lower rank
/// exactly when it is darker than pixel `j`, or as bright and earlier.
pub proof fn lemma_rank_order(
    channel: Seq<u8>,
    sorted: Seq<Sample>,
    ranks: Seq<usize>,
    i: int,
    j: int,
)
    requires
        is_sorting_of(sorted, channel),
        is_rank_map(ranks, sorted),
        0 <= i < channel.len(),
        0 <= j < channel.len(),
    ensures
        sorted[ranks[i] as int] == sample_of(channel, i),
        ranks[i] < ranks[j] <==> comes_before(channel, i, j),
        channel[i] < channel[j] ==> ranks[i] < ranks[j],
        channel[i] == channel[j] && i < j ==> ranks[i] < ranks[j],
{
    let a = ranks[i] as int;
    let b = ranks[j] as int;
    assert(sorted[a] == sample_of(channel, i));
    assert(sorted[b] == sample_of(channel, j));
    if a < b {
        assert(precedes(sorted[a], sorted[b]));
    } else if b < a {
        assert(precedes(sorted[b], sorted[a]));
    }
}

proof fn lemma_count_preceding_is_count_below(
    channel: Seq<u8>,
    sorted: Seq<Sample>,
    ranks: Seq<usize>,
    i: int,
    n: nat,
)
    requires
        is_sorting_of(sorted, channel),
        is_rank_map(ranks, sorted),
        0 <= i < channel.len(),
        n <= channel.len(),
    ensures
        count_preceding(channel, i, n) == count_below(ranks, ranks[i] as int, n),
    decreases n,
{
    if n > 0 {
        lemma_count_preceding_is_count_below(channel, sorted, ranks, i, (n - 1) as nat);
        lemma_rank_order(channel, sorted, ranks, n - 1, i);
    }
}

/// Of the first `n` entries of a rank map, one holds the rank `r` if the
/// pixel of that rank is among them, and none otherwise.
proof fn lemma_count_below_step(sorted: Seq<Sample>, ranks: Seq<usize>, r: int, n: nat)
    requires
        is_arrangement(sorted),
        is_rank_map(ranks, sorted),
        0 <= r < sorted.len(),
        n <= sorted.len(),
    ensures
        count_below(ranks, r + 1, n) == count_below(ranks, r, n) + if sorted[r].index < n {
            1nat
        } else {
            0nat
        },
    decreases n,
{
    if n > 0 {
        lemma_count_below_step(sorted, ranks, r, (n - 1) as nat);
        lemma_rank_map_inverts(sorted, ranks, r);
        assert(sorted[ranks[n - 1] as int].index == n - 1);
    }
}

proof fn lemma_count_below_zero(ranks: Seq<usize>, n: nat)
    requires
        n <= ranks.len(),
    ensures
        count_below(ranks, 0, n) == 0,
    decreases n,
{
    if n > 0 {
        lemma_count_below_zero(ranks, (n - 1) as nat);
    }
}

/// Exactly `r` pixels have a rank below `r`.
proof fn lemma_count_below_all(sorted: Seq<Sample>, ranks: Seq<usize>, r: nat)
    requires
        is_arrangement(sorted),
        is_rank_map(ranks, sorted),
        r <= sorted.len(),
    ensures
        count_below(ranks, r as int, sorted.len()) == r,
    decreases r,
{
    if r == 0 {
        lemma_count_below_zero(ranks, sorted.len());
    } else {
        lemma_count_below_all(sorted, ranks, (r - 1) as nat);
        lemma_count_below_step(sorted, ranks, r - 1, sorted.len());
    }
}

/// The place of a pixel's sample in the sorted arrangement is the number of
/// samples that precede it.
pub proof fn lemma_rank_is_count(channel: Seq<u8>, sorted: Seq<Sample>, ranks: Seq<usize>, i: int)
    requires
        is_sorting_of(sorted, channel),
        is_rank_map(ranks, sorted),
        0 <= i < channel.len(),
    ensures
        ranks[i] == rank_of(channel, i),
{
    lemma_count_preceding_is_count_below(channel, sorted, ranks, i, channel.len());
    lemma_count_below_all(sorted, ranks, ranks[i] as nat);
}

/// A place in `sorted` at which the sample of pixel `i` stands.
pub open spec fn place_of(sorted: Seq<Sample>, i: int) -> int {
    choose|k: int| 0 <= k < sorted.len() && (#[trigger] sorted[k]).index == i
}

/// A channel has one sorted arrangement only: the order of its samples
/// leaves nothing open.
pub proof fn lemma_sorting_is_unique(channel: Seq<u8>, first: Seq<Sample>, second: Seq<Sample>)
    requires
        is_sorting_of(first, channel),
        is_sorting_of(second, channel),
    ensures
        first == second,
{
    let n = channel.len();
    if n > 0 {
        assert(holds_pixel(first, n - 1));
        assert(first[place_of(first, n - 1)].index == n - 1);
        assert(n - 1 <= usize::MAX);
    }
    let r1 = Seq::new(n, |i: int| place_of(first, i) as usize);
    let r2 = Seq::new(n, |i: int| place_of(second, i) as usize);
    assert(is_rank_map(r1, first)) by {
        assert forall|i: int| 0 <= i < n implies {
            &&& (#[trigger] r1[i]) < first.len()
            &&& first[r1[i] as int].index == i
        } by {
            assert(holds_pixel(first, i));
        }
    }
    assert(is_rank_map(r2, second)) by {
        assert forall|i: int| 0 <= i < n implies {
            &&& (#[trigger] r2[i]) < second.len()
            &&& second[r2[i] as int].index == i
        } by {
            assert(holds_pixel(second, i));
        }
    }
    assert forall|k: int| 0 <= k < n implies first[k] == second[k] by {
        let i = first[k].index as int;
        lemma_rank_map_inverts(first, r1, k);
        lemma_rank_is_count(channel, first, r1, i);
        lemma_rank_is_count(channel, second, r2, i);
        assert(second[r2[i] as int].index == i);
    }
    assert(first =~= second);
}

impl SortedSamples {
    /// The rank map: for each pixel the place of its sample in this
    /// arrangement.
    pub fn rank_map(&self) -> (ranks: Vec<usize>)
        ensures
            is_arrangement(self@),
            is_rank_map(ranks@, self@),
            is_bijection(ranks@),
    {
        let n = self.len();
        let mut ranks: Vec<usize> = Vec::with_capacity(n);
        let mut i: usize = 0;
        while i < n
            invariant
                i <= n,
                ranks.len() == i,
            decreases n - i,
        {
            ranks.push(0);
            i += 1;
        }
        let mut k: usize = 0;
        while k < n
            invariant
                is_arrangement(self@),
                n == self@.len(),
                ranks.len() == n,
                k <= n,
                forall|m: int| 0 <= m < k ==> ranks@[(#[trigger] self@[m]).index as int] == m,
            decreases n - k,
        {
            let sample = self.sample(k);
            ranks.set(sample.index, k);
            k += 1;
        }
        proof {
            assert forall|i: int| 0 <= i < ranks@.len() implies {
                &&& (#[trigger] ranks@[i]) < self@.len()
                &&& self@[ranks@[i] as int].index == i
            } by {
                assert(holds_pixel(self@, i));
                let m = choose|m: int| 0 <= m < self@.len() && (#[trigger] self@[m]).index == i;
                assert(ranks@[self@[m].index as int] == m);
            }
            lemma_rank_map_bijection(self@, ranks@);
        }
        ranks
    }
}

/// The normalized rank of every pixel, `(rank + 1/2) / N` for a pixel of
/// rank `rank` among `N`: a point strictly inside the unit interval, which
/// rises with the rank.
pub fn normalized_ranks(ranks: &Vec<usize>) -> (points: Vec<Fraction>)
    requires
        forall|i: int| 0 <= i < ranks@.len() ==> (#[trigger] ranks@[i]) < ranks@.len(),
    ensures
        points@.len() == ranks@.len(),
        forall|i: int|
            0 <= i < ranks@.len() ==> {
                &&& (#[trigger] points@[i]).is_midpoint(ranks@[i] as int, ranks@.len() as int)
                &&& points@[i].in_open_unit()
            },
        forall|i: int, j: int|
            0 <= i < ranks@.len() && 0 <= j < ranks@.len() && ranks@[i] < ranks@[j] ==> {
                &&& (#[trigger] points@[i]).den == (#[trigger] points@[j]).den
                &&& points@[i].num < points@[j].num
            },
{
    let n = ranks.len();
    let mut points: Vec<Fraction> = Vec::with_capacity(n);
    let mut i: usize = 0;
    while i < n
        invariant
            n == ranks@.len(),
            i <= n,
            points@.len() == i,
            forall|j: int| 0 <= j < n ==> (#[trigger] ranks@[j]) < n,
            forall|j: int|
                0 <= j < i ==> {
                    &&& (#[trigger] points@[j]).is_midpoint(ranks@[j] as int, n as int)
                    &&& points@[j].in_open_unit()
                },
        decreases n - i,
    {
        points.push(midpoint(ranks[i], n));
        i += 1;
    }
    points
}

/// Ranks the pixels of one channel: sorts its samples, and gives each pixel
/// the place of its sample. Equal intensities are ranked in the order of
/// their pixels.
pub fn rank_channel(channel: &Vec<u8>) -> (out: (SortedSamples, Vec<usize>))
    ensures
        is_sorting_of(out.0@, channel@),
        is_rank_map(out.1@, out.0@),
        is_bijection(out.1@),
        out.1@.len() == channel@.len(),
        forall|i: int| 0 <= i < channel@.len() ==> (#[trigger] out.1@[i]) == rank_of(channel@, i),
        forall|i: int, j: int|
            0 <= i < channel@.len() && 0 <= j < channel@.len() && channel@[i] < channel@[j]
                ==> (#[trigger] out.1@[i]) < (#[trigger] out.1@[j]),
        forall|i: int, j: int|
            0 <= i < j < channel@.len() && channel@[i] == channel@[j] ==> (#[trigger] out.1@[i])
                < (#[trigger] out.1@[j]),
{
    let sorted = SortedSamples::from_channel(channel);
    let ranks = sorted.rank_map();
    proof {
        assert forall|i: int| 0 <= i < channel@.len() implies (#[trigger] ranks@[i]) == rank_of(
            channel@,
            i,
        ) by {
            lemma_rank_is_count(channel@, sorted@, ranks@, i);
        }
        assert forall|i: int, j: int|
            0 <= i < channel@.len() && 0 <= j < channel@.len() implies {
            &&& channel@[i] < channel@[j] ==> (#[trigger] ranks@[i]) < (#[trigger] ranks@[j])
            &&& channel@[i] == channel@[j] && i < j ==> ranks@[i] < ranks@[j]
        } by {
            lemma_rank_order(channel@, sorted@, ranks@, i, j);
        }
    }
    (sorted, ranks)
}

} // verus!
