//! Evenly spaced points of the open unit interval, as exact fractions.

use vstd::prelude::*;

verus! {

/// A fraction `num / den` with a positive denominator.
#[derive(Clone, Copy, Debug, PartialEq, Eq, Structural)]
pub struct Fraction {
    pub num: u128,
    pub den: u128,
}

impl Fraction {
    /// The fraction lies strictly between 0 and 1.
    pub open spec fn in_open_unit(self) -> bool {
        0 < self.num < self.den
    }

    /// The fraction is `(k + 1/2) / n`.
    pub open spec fn is_midpoint(self, k: int, n: int) -> bool {
        self.num == 2 * k + 1 && self.den == 2 * n
    }
}

/// The middle of cell `k` when the unit interval is cut into `n` equal
/// cells: `(k + 1/2) / n`. It serves as the normalized rank of a pixel of
/// rank `k` among `n`, and as the grid coordinate of entry `k` of a table of
/// `n` entries. It lies strictly inside the unit interval, so that twice it
/// less one lies strictly between -1 and 1; for the only cell of one it is
/// one half.
pub fn midpoint(k: usize, n: usize) -> (u: Fraction)
    requires
        k < n,
    ensures
        u.is_midpoint(k as int, n as int),
        u.in_open_unit(),
        -u.den < 2 * u.num - u.den < u.den,
        n == 1 ==> 2 * u.num == u.den,
{
    let k_wide: u128 = k as u128;
    let n_wide: u128 = n as u128;
    Fraction { num: 2 * k_wide + 1, den: 2 * n_wide }
}

/// Midpoints rise with the cell: of two cells of one cutting, the earlier
/// has the smaller midpoint.
pub proof fn lemma_midpoint_rises(a: Fraction, b: Fraction, j: int, k: int, n: int)
    requires
        a.is_midpoint(j, n),
        b.is_midpoint(k, n),
        0 <= j < k < n,
    ensures
        a.den == b.den,
        a.num < b.num,
{
}

/// The midpoints of all `n` cells, in order.
pub fn midpoints(n: usize) -> (points: Vec<Fraction>)
    ensures
        points@.len() == n,
        forall|k: int| 0 <= k < n ==> (#[trigger] points@[k]).is_midpoint(k, n as int),
        forall|k: int| 0 <= k < n ==> (#[trigger] points@[k]).in_open_unit(),
{
    let mut points: Vec<Fraction> = Vec::new();
    let mut k: usize = 0;
    while k < n
        invariant
            k <= n,
            points@.len() == k,
            forall|j: int| 0 <= j < k ==> (#[trigger] points@[j]).is_midpoint(j, n as int),
            forall|j: int| 0 <= j < k ==> (#[trigger] points@[j]).in_open_unit(),
        decreases n - k,
    {
        points.push(midpoint(k, n));
        k += 1;
    }
    points
}

} // verus!
