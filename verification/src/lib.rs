//! Monte Carlo kernel for the two-dimensional Ising model on a periodic
//! square lattice.
//!
//! The kernel works on integers only. A configuration is a row-major grid of
//! spins, each `+1` or `-1`; its energy is the exact linear form
//! `-J * bond_sum - h * spin_sum`, of which the kernel tracks the two integer
//! coefficients; and every probability enters as a threshold on a uniform
//! integer draw.
//!
//! - `sums`: finite sums, and their change when one term changes.
//! - `lattice`: the periodic grid, its neighbours, and the two sums.
//! - `flips`: what a flip and an exchange do to the two sums.
//! - `union_find`: disjoint sets over the sites.
//! - `clusters`: the partition that a set of activated bonds induces.
//! - `wolff`: growth of a single cluster from a seed.
//! - `rates`: probabilities as thresholds.
//! - `random`: the random source.
//! - `model`: the state of a simulation as a mathematical value, what each
//!   update makes of it, and the laws that hold of the updates.
//! - `ising`: the simulation and its update steps.

pub mod sums;
pub mod lattice;
pub mod flips;
pub mod union_find;
pub mod clusters;
pub mod wolff;
pub mod random;
pub mod rates;
pub mod model;
pub mod ising;
