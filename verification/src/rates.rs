//! Probabilities as integer thresholds.
//!
//! An event of probability `p` is decided by a uniform draw from
//! `0..SCALE`: it happens when the draw is below the threshold that stands
//! for `p`, which is `p * SCALE` rounded up. A threshold of zero never
//! fires, one of `SCALE` or more always does.

use vstd::prelude::*;

verus! {

/// The number of equally likely values of one draw: two to the power 52.
pub const SCALE: u64 = 4503599627370496;

/// The thresholds that the update rules consult. They depend on the
/// temperature `T`, the coupling `J` and the field `h`, and are to be
/// recomputed whenever one of these changes.
#[derive(Clone, Copy, Debug)]
pub struct Rates {
    /// Metropolis acceptance of a single flip, by `flip_slot`: the slot of
    /// a spin `s` whose neighbours sum to `S` stands for the probability
    /// `min(1, exp(-dE / T))` with `dE = 2 * J * s * S + 2 * h * s`.
    pub metropolis: [u64; 10],
    /// Glauber acceptance of a single flip, by `flip_slot`: the probability
    /// `1 / (1 + exp(dE / T))` with the same `dE`.
    pub glauber: [u64; 10],
    /// Heat-bath probability that a site takes the value `+1`, by
    /// `field_slot`: `1 / (1 + exp(-2 * (J * S + h) / T))` for a site
    /// whose neighbours sum to `S`.
    pub heatbath: [u64; 5],
    /// Metropolis acceptance of an exchange, by `exchange_slot`: the
    /// probability `min(1, exp(-dE / T))` with `dE = -J * d` for an
    /// exchange that raises the bond sum by `d`.
    pub kawasaki: [u64; 9],
    /// Probability `1 - exp(-2 * |J| / T)` that a Wolff cluster grows
    /// across a bond between two equal spins.
    pub wolff_add: u64,
    /// Probability `1 - exp(-2 * |h| / T)` that a site aligned with the
    /// field ties a Wolff cluster to the ghost spin.
    pub wolff_ghost: u64,
    /// Probability `1 - exp(-2 * J / T)` that Swendsen-Wang activates a
    /// bond between two equal spins.
    pub bond: u64,
    /// Whether `J` is negative.
    pub antiferromagnetic: bool,
    /// Whether `h` is zero or positive.
    pub field_up: bool,
}

/// The slot of the flip tables for a spin `s` whose neighbours sum to
/// `nsum`: twice the rank of `s * nsum` among `-4, -2, 0, 2, 4`, plus one
/// when `s` is `+1`.
pub open spec fn flip_slot(s: int, nsum: int) -> int {
    (s * nsum + 4) / 2 * 2 + (s + 1) / 2
}

/// The slot of the heat-bath table for a site whose neighbours sum to
/// `nsum`: the rank of `nsum` among `-4, -2, 0, 2, 4`.
pub open spec fn field_slot(nsum: int) -> int {
    (nsum + 4) / 2
}

/// The slot of the exchange table for an exchange that raises the bond sum
/// by `d`: the rank of `d` among the multiples of four from `-16` to `16`.
pub open spec fn exchange_slot(d: int) -> int {
    (d + 16) / 4
}

/// Whether a draw falls below a threshold.
pub open spec fn fires(draw: u64, threshold: u64) -> bool {
    draw < threshold
}

/// The slots of the three tables are in range, and each slot stands for
/// one value of what it is looked up by: slot `2 * p + q` of a flip table
/// for the product `s * nsum == 2 * p - 4` and the spin `s == 2 * q - 1`;
/// slot `p` of the heat-bath table for the sum `nsum == 2 * p - 4`; slot
/// `p` of the exchange table for the rise `d == 4 * p - 16`.
pub proof fn lemma_slots(s: int, nsum: int, d: int)
    requires
        s == 1 || s == -1,
        -4 <= nsum <= 4,
        nsum % 2 == 0,
        -16 <= d <= 16,
        d % 4 == 0,
    ensures
        0 <= flip_slot(s, nsum) < 10,
        2 * (flip_slot(s, nsum) / 2) - 4 == s * nsum,
        2 * (flip_slot(s, nsum) % 2) - 1 == s,
        0 <= field_slot(nsum) < 5,
        2 * field_slot(nsum) - 4 == nsum,
        0 <= exchange_slot(d) < 9,
        4 * exchange_slot(d) - 16 == d,
{
    assert(s * nsum == (if s == 1 { nsum } else { -nsum })) by (nonlinear_arith)
        requires
            s == 1 || s == -1,
    ;
}

} // verus!
