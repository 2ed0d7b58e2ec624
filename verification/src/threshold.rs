//! Similarity thresholds as exact fractions.

use vstd::prelude::*;

verus! {

/// A similarity threshold in the closed unit interval, held as the fraction
/// `numer / denom`.
#[derive(Clone, Copy, Debug)]
pub struct Threshold {
    numer: u64,
    denom: u64,
}

impl Threshold {
    /// The numerator of the fraction.
    pub closed spec fn spec_numer(self) -> nat {
        self.numer as nat
    }

    /// The denominator of the fraction.
    pub closed spec fn spec_denom(self) -> nat {
        self.denom as nat
    }

    /// A threshold is a fraction with a positive denominator and a value of
    /// at most one.
    pub open spec fn wf(self) -> bool {
        0 < self.spec_denom() && self.spec_numer() <= self.spec_denom()
    }

    /// Whether `matches` agreeing positions out of `total` reach the
    /// threshold: `matches / total >= numer / denom`, cross-multiplied.
    pub open spec fn admits(self, matches: nat, total: nat) -> bool {
        matches * self.spec_denom() >= self.spec_numer() * total
    }

    /// Whether `self` is at most `other` as a fraction.
    pub open spec fn le(self, other: Threshold) -> bool {
        self.spec_numer() * other.spec_denom() <= other.spec_numer() * self.spec_denom()
    }

    /// The threshold `numer / denom`, if that is a fraction in `[0, 1]`.
    pub fn new(numer: u64, denom: u64) -> (t: Option<Threshold>)
        ensures
            t is Some <==> (0 < denom && numer <= denom),
            t matches Some(t) ==> t.wf() && t.spec_numer() == numer && t.spec_denom() == denom,
    {
        if denom == 0 || numer > denom {
            None
        } else {
            Some(Threshold { numer, denom })
        }
    }

    pub fn numer(&self) -> (n: u64)
        ensures
            n == self.spec_numer(),
    {
        self.numer
    }

    pub fn denom(&self) -> (d: u64)
        ensures
            d == self.spec_denom(),
    {
        self.denom
    }

    /// Decides `admits` without overflow.
    pub fn accepts(&self, matches: usize, total: usize) -> (b: bool)
        ensures
            b == self.admits(matches as nat, total as nat),
    {
        assert(matches * self.denom <= u64::MAX * u64::MAX) by (nonlinear_arith)
            requires
                matches <= u64::MAX,
                self.denom <= u64::MAX,
        ;
        assert(self.numer * total <= u64::MAX * u64::MAX) by (nonlinear_arith)
            requires
                total <= u64::MAX,
                self.numer <= u64::MAX,
        ;
        let lhs: u128 = (matches as u128) * (self.denom as u128);
        let rhs: u128 = (self.numer as u128) * (total as u128);
        lhs >= rhs
    }
}

/// What reaches a threshold reaches every lower one.
pub proof fn lemma_admits_monotone(low: Threshold, high: Threshold, matches: nat, total: nat)
    requires
        low.wf(),
        high.wf(),
        low.le(high),
        high.admits(matches, total),
    ensures
        low.admits(matches, total),
{
    let (n1, d1) = (low.spec_numer() as int, low.spec_denom() as int);
    let (n2, d2) = (high.spec_numer() as int, high.spec_denom() as int);
    let (m, t) = (matches as int, total as int);
    assert(m * d1 >= n1 * t) by (nonlinear_arith)
        requires
            0 < d1,
            0 < d2,
            0 <= n1,
            0 <= n2,
            0 <= m,
            0 <= t,
            n1 * d2 <= n2 * d1,
            m * d2 >= n2 * t,
    {
        assert(m * d2 * d1 >= n2 * t * d1);
        assert(n2 * d1 * t >= n1 * d2 * t);
        assert(n2 * t * d1 == n2 * d1 * t);
        assert((m * d1) * d2 >= (n1 * t) * d2);
    }
}

/// Agreement at every position reaches every threshold.
pub proof fn lemma_admits_all(t: Threshold, total: nat)
    requires
        t.wf(),
    ensures
        t.admits(total, total),
{
    assert(total * t.spec_denom() >= t.spec_numer() * total) by (nonlinear_arith)
        requires
            t.spec_numer() <= t.spec_denom(),
    ;
}

} // verus!
