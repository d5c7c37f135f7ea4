//! Finite sums of an integer-valued function over an initial segment of the
//! naturals, and how such a sum responds to a change of the function at one
//! point.

use vstd::prelude::*;

verus! {

/// The sum `f(0) + f(1) + ... + f(m - 1)`; zero when `m <= 0`.
pub open spec fn sum_to(f: spec_fn(int) -> int, m: int) -> int
    decreases m,
{
    if m <= 0 {
        0
    } else {
        sum_to(f, m - 1) + f(m - 1)
    }
}

/// Two functions that agree below `m` have the same sum.
pub proof fn lemma_sum_agree(f: spec_fn(int) -> int, g: spec_fn(int) -> int, m: int)
    requires
        forall|k: int| 0 <= k < m ==> #[trigger] f(k) == g(k),
    ensures
        sum_to(f, m) == sum_to(g, m),
    decreases m,
{
    if m > 0 {
        lemma_sum_agree(f, g, m - 1);
    }
}

/// Two functions that agree below `m` everywhere but at `p` have sums that
/// differ by their difference at `p`.
pub proof fn lemma_sum_point(f: spec_fn(int) -> int, g: spec_fn(int) -> int, m: int, p: int)
    requires
        0 <= p < m,
        forall|k: int| 0 <= k < m && k != p ==> #[trigger] f(k) == g(k),
    ensures
        sum_to(g, m) == sum_to(f, m) + g(p) - f(p),
    decreases m,
{
    if p == m - 1 {
        lemma_sum_agree(f, g, m - 1);
    } else {
        lemma_sum_point(f, g, m - 1, p);
    }
}

/// A sum of terms that each lie between `lo` and `hi` lies between `m * lo`
/// and `m * hi`.
pub proof fn lemma_sum_bounds(f: spec_fn(int) -> int, m: int, lo: int, hi: int)
    requires
        0 <= m,
        forall|k: int| 0 <= k < m ==> lo <= #[trigger] f(k) <= hi,
    ensures
        m * lo <= sum_to(f, m) <= m * hi,
    decreases m,
{
    if m > 0 {
        lemma_sum_bounds(f, m - 1, lo, hi);
        assert(m * lo == (m - 1) * lo + lo) by (nonlinear_arith);
        assert(m * hi == (m - 1) * hi + hi) by (nonlinear_arith);
    } else {
        assert(m * lo == 0 && m * hi == 0) by (nonlinear_arith)
            requires
                m == 0,
        ;
    }
}

} // verus!
