//! The simulation: a lattice of spins with its thresholds, counters,
//! tracked sums and random source, and the update steps that act on it.

use vstd::prelude::*;
use rand::rngs::SmallRng;
use crate::lattice::{
    site, grid_wf, is_spin, bond_sum, spin_sum, lemma_site, lemma_neighbors, lemma_spin_times,
    site_index, neighbor_sum, neighbor_index, calc_bond_sum, calc_spin_sum, lemma_site_coords,
    next_index, flip_sublattice,
};
use crate::flips::{
    with_flip, with_swap, lemma_swap_bond_sum, lemma_spin_sum_bounds, lemma_bond_sum_bounds,
};
use crate::rates::{Rates, SCALE};
use crate::model::{
    Rule, Trial, IsingView, lemma_trial_valid, lemma_trials_valid,
    lemma_kawasaki_conserves_magnetization, lemma_tracking_exact, lemma_cluster_flips_valid,
    lemma_swendsen_wang_uniform, lemma_may_grow, lemma_wolff_valid, lemma_wolff_single_site,
    lemma_wolff_whole_lattice,
};
use crate::random::{entropy_rng, random_below};
use crate::union_find::{UnionFind, labels_wf};
use crate::clusters::{
    bond_of, clusters, with_cluster_flips, uniform, active_bonds, lemma_bond_ends,
    lemma_clusters_range, lemma_active_bonds,
};
use crate::wolff::{
    Script, Chance, chance_of, position, on_lattice, grow_cluster, negate_sites, lemma_staggered,
    lemma_staggered_grid, lemma_negate_staggered,
};

verus! {

/// Why a simulation could not be set up.
#[derive(Clone, Copy, Debug, PartialEq, Eq, Structural)]
pub enum IsingError {
    /// The side length is zero, or so large that the number of sites does
    /// not fit the machine.
    Configuration,
    /// A buffer has the wrong length, a spin buffer holds a value other
    /// than `+1` and `-1`, or a site lies off the lattice.
    InvariantViolation,
    /// The operating system supplied no seed for the random source.
    Entropy,
}

/// The energy of a configuration in exact form: it is
/// `-J * bond_sum - h * spin_sum`.
#[derive(Clone, Copy, Debug, PartialEq, Eq, Structural)]
pub struct Energy {
    pub bond_sum: i128,
    pub spin_sum: i128,
}

/// A fraction with a positive denominator.
#[derive(Clone, Copy, Debug, PartialEq, Eq, Structural)]
pub struct Ratio {
    pub numerator: usize,
    pub denominator: usize,
}

/// A two-dimensional Ising model on a periodic square lattice.
pub struct Ising {
    n: usize,
    spins: Vec<i8>,
    rates: Rates,
    accepted: usize,
    attempted: usize,
    rng: SmallRng,
    bond_sum: i128,
    spin_sum: i128,
}

impl View for Ising {
    type V = IsingView;

    closed spec fn view(&self) -> IsingView {
        IsingView {
            n: self.n as int,
            spins: self.spins@,
            rates: self.rates,
            accepted: self.accepted as int,
            attempted: self.attempted as int,
            bond_sum: self.bond_sum as int,
            spin_sum: self.spin_sum as int,
        }
    }
}

/// The number of sites of a lattice of side `n`, where that is positive and
/// fits the machine.
pub fn site_count(n: usize) -> (r: Option<usize>)
    ensures
        r is Some <==> n >= 1 && n * n <= usize::MAX,
        r matches Some(count) ==> count == n * n,
{
    if n == 0 {
        None
    } else {
        n.checked_mul(n)
    }
}

/// Whether every value of the buffer is a spin.
pub fn all_spins(spins: &[i8]) -> (r: bool)
    ensures
        r <==> forall|k: int| 0 <= k < spins@.len() ==> is_spin(#[trigger] spins@[k]),
{
    let mut k: usize = 0;
    while k < spins.len()
        invariant
            k <= spins@.len(),
            forall|q: int| 0 <= q < k ==> is_spin(#[trigger] spins@[q]),
        decreases spins@.len() - k,
    {
        if spins[k] != 1 && spins[k] != -1 {
            return false;
        }
        k = k + 1;
    }
    true
}

/// Whether the buffer is a grid of side `n`; if not, what is wrong: the
/// side, where it is zero or its square does not fit the machine, and else
/// the buffer.
pub fn check_grid(n: usize, spins: &[i8]) -> (r: Result<(), IsingError>)
    ensures
        r is Ok <==> grid_wf(spins@, n as int),
        r is Ok ==> n * n <= usize::MAX,
        r is Err ==> r == Err::<(), IsingError>(
            if n >= 1 && n * n <= usize::MAX {
                IsingError::InvariantViolation
            } else {
                IsingError::Configuration
            },
        ),
{
    let len = spins.len();
    match site_count(n) {
        None => Err(IsingError::Configuration),
        Some(count) => if len == count && all_spins(spins) {
            Ok(())
        } else {
            Err(IsingError::InvariantViolation)
        },
    }
}

impl Ising {
    /// A lattice of side `n` whose spins are drawn independently, each
    /// `+1` or `-1` on the toss of a fair coin, with counters at zero and
    /// a random source seeded by the operating system. A side of zero, or
    /// one whose square does not fit the machine, is refused; beyond that
    /// the call fails only where the operating system supplies no seed.
    pub fn new(n: usize, rates: Rates) -> (r: Result<Ising, IsingError>)
        ensures
            r == Err::<Ising, IsingError>(IsingError::Configuration) <==> !(n >= 1 && n * n
                <= usize::MAX),
            r is Err ==> r == Err::<Ising, IsingError>(IsingError::Configuration) || r == Err::<
                Ising,
                IsingError,
            >(IsingError::Entropy),
            r matches Ok(model) ==> {
                &&& model@.wf()
                &&& model@.in_sync()
                &&& model@.n == n
                &&& grid_wf(model@.spins, n as int)
                &&& model@.rates == rates
                &&& model@.accepted == 0
                &&& model@.attempted == 0
            },
    {
        let count = match site_count(n) {
            Some(count) => count,
            None => {
                return Err(IsingError::Configuration);
            },
        };
        let mut rng = match entropy_rng() {
            Some(rng) => rng,
            None => {
                return Err(IsingError::Entropy);
            },
        };
        let mut spins: Vec<i8> = Vec::new();
        let mut k: usize = 0;
        while k < count
            invariant
                k <= count,
                spins@.len() == k,
                forall|q: int| 0 <= q < k ==> is_spin(#[trigger] spins@[q]),
            decreases count - k,
        {
            let coin = random_below(&mut rng, 2);
            spins.push(if coin == 1 { 1 } else { -1 });
            k = k + 1;
        }
        Ok(Self::assemble(n, spins, rates, rng))
    }

    /// A lattice of side `n` that holds the given spins, row by row, with
    /// counters at zero and a random source seeded by the operating
    /// system. A side of zero, or one whose square does not fit the
    /// machine, is refused, and so is a buffer of another length than the
    /// square of the side or with a value that is no spin; beyond that the
    /// call fails only where the operating system supplies no seed.
    pub fn from_spins(n: usize, spins: Vec<i8>, rates: Rates) -> (r: Result<Ising, IsingError>)
        ensures
            r == Err::<Ising, IsingError>(IsingError::Configuration) <==> !(n >= 1 && n * n
                <= usize::MAX),
            r == Err::<Ising, IsingError>(IsingError::InvariantViolation) <==> n >= 1 && n * n
                <= usize::MAX && !grid_wf(spins@, n as int),
            r is Err ==> r == Err::<Ising, IsingError>(IsingError::Configuration) || r == Err::<
                Ising,
                IsingError,
            >(IsingError::InvariantViolation) || r == Err::<Ising, IsingError>(
                IsingError::Entropy,
            ),
            r matches Ok(model) ==> {
                &&& model@.wf()
                &&& model@.in_sync()
                &&& model@.n == n
                &&& model@.spins == spins@
                &&& model@.rates == rates
                &&& model@.accepted == 0
                &&& model@.attempted == 0
            },
    {
        match check_grid(n, spins.as_slice()) {
            Err(e) => Err(e),
            Ok(()) => match entropy_rng() {
                Some(rng) => Ok(Self::assemble(n, spins, rates, rng)),
                None => Err(IsingError::Entropy),
            },
        }
    }

    /// A lattice of side `n` that holds the given spins, row by row, with
    /// counters at zero and the given random source. A side of zero, or
    /// one whose square does not fit the machine, is refused, and so is a
    /// buffer of another length than the square of the side or with a
    /// value that is no spin.
    pub fn with_rng(n: usize, spins: Vec<i8>, rates: Rates, rng: SmallRng) -> (r: Result<
        Ising,
        IsingError,
    >)
        ensures
            r is Ok <==> grid_wf(spins@, n as int),
            r is Err ==> r == Err::<Ising, IsingError>(
                if n >= 1 && n * n <= usize::MAX {
                    IsingError::InvariantViolation
                } else {
                    IsingError::Configuration
                },
            ),
            r matches Ok(model) ==> {
                &&& model@.wf()
                &&& model@.in_sync()
                &&& model@.n == n
                &&& model@.spins == spins@
                &&& model@.rates == rates
                &&& model@.accepted == 0
                &&& model@.attempted == 0
            },
    {
        match check_grid(n, spins.as_slice()) {
            Err(e) => Err(e),
            Ok(()) => Ok(Self::assemble(n, spins, rates, rng)),
        }
    }

    fn assemble(n: usize, spins: Vec<i8>, rates: Rates, rng: SmallRng) -> (model: Ising)
        requires
            grid_wf(spins@, n as int),
        ensures
            model@.wf(),
            model@.in_sync(),
            model@.n == n,
            model@.spins == spins@,
            model@.rates == rates,
            model@.accepted == 0,
            model@.attempted == 0,
    {
        let len = spins.len();
        let bond_sum = calc_bond_sum(spins.as_slice(), n);
        let spin_sum = calc_spin_sum(spins.as_slice());
        Ising { n, spins, rates, accepted: 0, attempted: 0, rng, bond_sum, spin_sum }
    }

    /// The side length of the lattice.
    pub fn n(&self) -> (r: usize)
        ensures
            r == self@.n,
    {
        self.n
    }

    /// The spins, row by row.
    pub fn spins(&self) -> (r: &[i8])
        ensures
            r@ == self@.spins,
    {
        self.spins.as_slice()
    }

    /// The thresholds in force.
    pub fn rates(&self) -> (r: Rates)
        ensures
            r == self@.rates,
    {
        self.rates
    }

    /// The number of trials that changed the configuration.
    pub fn accepted(&self) -> (r: usize)
        ensures
            r == self@.accepted,
    {
        self.accepted
    }

    /// The number of trials made.
    pub fn attempted(&self) -> (r: usize)
        ensures
            r == self@.attempted,
    {
        self.attempted
    }

    /// The tracked energy, in exact form.
    pub fn energy(&self) -> (r: Energy)
        ensures
            r.bond_sum == self@.bond_sum,
            r.spin_sum == self@.spin_sum,
    {
        Energy { bond_sum: self.bond_sum, spin_sum: self.spin_sum }
    }

    /// The tracked total magnetization: the sum of all spins. The
    /// magnetization per site is this over the number of sites.
    pub fn magnetization(&self) -> (r: i128)
        ensures
            r == self@.spin_sum,
    {
        self.spin_sum
    }

    /// The fraction of the trials made that were accepted; zero where none
    /// was made.
    pub fn acceptance_ratio(&self) -> (r: Ratio)
        ensures
            self@.attempted == 0 ==> r.numerator == 0 && r.denominator == 1,
            self@.attempted > 0 ==> r.numerator == self@.accepted && r.denominator
                == self@.attempted,
    {
        if self.attempted == 0 {
            Ratio { numerator: 0, denominator: 1 }
        } else {
            Ratio { numerator: self.accepted, denominator: self.attempted }
        }
    }

    /// Puts new thresholds in force, and computes the tracked sums afresh.
    pub fn set_rates(&mut self, rates: Rates)
        requires
            old(self)@.wf(),
        ensures
            final(self)@ == (IsingView { rates, ..old(self)@.resynced() }),
            final(self)@.wf(),
    {
        self.rates = rates;
        self.bond_sum = calc_bond_sum(self.spins.as_slice(), self.n);
        self.spin_sum = calc_spin_sum(self.spins.as_slice());
    }

    /// Sets both counters to zero, and computes the tracked sums afresh.
    pub fn reset_data(&mut self)
        requires
            old(self)@.wf(),
        ensures
            final(self)@ == (IsingView { accepted: 0, attempted: 0, ..old(self)@.resynced() }),
            final(self)@.wf(),
    {
        self.accepted = 0;
        self.attempted = 0;
        self.bond_sum = calc_bond_sum(self.spins.as_slice(), self.n);
        self.spin_sum = calc_spin_sum(self.spins.as_slice());
    }
}

impl Ising {
    /// One trial under `rule`, on the site and with the draws that `t`
    /// names. Under the Metropolis and the Glauber rule the spin is
    /// negated if the draw is below the threshold that the rule's table
    /// holds for the spin and the sum of its neighbours. Under the
    /// heat-bath rule the spin is set to `+1` if the draw is below the
    /// threshold for the sum of its neighbours, and else to `-1`. Under
    /// the Kawasaki rule the spin trades places with its neighbour in the
    /// trial's direction, and trades back unless the draw is below the
    /// threshold for the rise of the bonds around the two. The trial
    /// counts as made, and as accepted if the grid has changed or an
    /// exchange has stood; the tracked sums follow the change.
    pub fn trial(&mut self, rule: Rule, t: Trial)
        requires
            old(self)@.wf(),
            old(self)@.admits(t),
            old(self)@.attempted < usize::MAX,
        ensures
            final(self)@ == old(self)@.after_trial(rule, t),
            final(self)@.wf(),
            old(self)@.n >= 2 ==> final(self)@.in_sync(),
            rule == Rule::Kawasaki ==> spin_sum(final(self)@.spins) == spin_sum(old(self)@.spins),
            rule == Rule::Kawasaki && old(self)@.in_sync() ==> final(self)@.in_sync(),
    {
        proof {
            lemma_trial_valid(self@, rule, t);
            if rule == Rule::Kawasaki {
                let one = Seq::<Trial>::empty().push(t);
                assert(one.drop_last() =~= Seq::<Trial>::empty());
                assert(self@.after_trials(rule, one.drop_last()) == self@);
                assert(self@.after_trials(rule, one) == self@.after_trial(rule, t));
                lemma_kawasaki_conserves_magnetization(self@, one);
                if self@.in_sync() {
                    lemma_tracking_exact(self@, rule, one);
                }
            }
        }
        match rule {
            Rule::Kawasaki => self.exchange_trial(t),
            _ => self.flip_trial(rule, t),
        }
    }

    fn flip_trial(&mut self, rule: Rule, t: Trial)
        requires
            old(self)@.wf(),
            old(self)@.admits(t),
            old(self)@.attempted < usize::MAX,
            rule != Rule::Kawasaki,
        ensures
            final(self)@ == old(self)@.after_flip_trial(rule, t),
    {
        let n = self.n;
        let idx = site_index(n, t.i, t.j);
        let s: i8 = self.spins[idx];
        let nsum: i8 = neighbor_sum(self.spins.as_slice(), n, t.i, t.j);
        proof {
            lemma_neighbors(self.spins@, n as int, t.i as int, t.j as int);
            lemma_spin_times(s as int, nsum as int);
            lemma_bond_sum_bounds(self.spins@, n as int);
            lemma_spin_sum_bounds(self.spins@);
        }
        let aligned: i8 = s * nsum;
        let flip = match rule {
            Rule::Metropolis => {
                let slot = (aligned + 4) as usize / 2 * 2 + (s + 1) as usize / 2;
                t.draw < self.rates.metropolis[slot]
            },
            Rule::Glauber => {
                let slot = (aligned + 4) as usize / 2 * 2 + (s + 1) as usize / 2;
                t.draw < self.rates.glauber[slot]
            },
            _ => {
                let up = t.draw < self.rates.heatbath[(nsum + 4) as usize / 2];
                up != (s == 1)
            },
        };
        self.attempted = self.attempted + 1;
        if flip {
            self.spins[idx] = -s;
            self.accepted = self.accepted + 1;
            self.bond_sum = self.bond_sum - 2 * (aligned as i128);
            self.spin_sum = self.spin_sum - 2 * (s as i128);
        }
        proof {
            assert(self@.spins =~= old(self)@.after_flip_trial(rule, t).spins);
        }
    }

    fn exchange_trial(&mut self, t: Trial)
        requires
            old(self)@.wf(),
            old(self)@.admits(t),
            old(self)@.attempted < usize::MAX,
        ensures
            final(self)@ == old(self)@.after_exchange_trial(t),
    {
        let n = self.n;
        let (c, d) = neighbor_index(n, t.i, t.j, t.dir);
        let k1 = site_index(n, t.i, t.j);
        let k2 = site_index(n, c, d);
        let s1: i8 = self.spins[k1];
        let s2: i8 = self.spins[k2];
        let nsum1: i8 = neighbor_sum(self.spins.as_slice(), n, t.i, t.j);
        let nsum2: i8 = neighbor_sum(self.spins.as_slice(), n, c, d);
        proof {
            lemma_neighbors(self.spins@, n as int, t.i as int, t.j as int);
            lemma_neighbors(self.spins@, n as int, c as int, d as int);
            lemma_spin_times(s1 as int, nsum1 as int);
            lemma_spin_times(s2 as int, nsum2 as int);
            lemma_swap_bond_sum(self.spins@, n as int, t.i as int, t.j as int, c as int, d as int);
            lemma_bond_sum_bounds(self.spins@, n as int);
        }
        let before: i8 = s1 * nsum1 + s2 * nsum2;
        self.spins[k1] = s2;
        self.spins[k2] = s1;
        assert(self.spins@ =~= with_swap(old(self).spins@, k1 as int, k2 as int));
        let swapped1: i8 = neighbor_sum(self.spins.as_slice(), n, t.i, t.j);
        let swapped2: i8 = neighbor_sum(self.spins.as_slice(), n, c, d);
        proof {
            lemma_neighbors(self.spins@, n as int, t.i as int, t.j as int);
            lemma_neighbors(self.spins@, n as int, c as int, d as int);
            lemma_spin_times(self.spins@[k1 as int] as int, swapped1 as int);
            lemma_spin_times(self.spins@[k2 as int] as int, swapped2 as int);
        }
        let after: i8 = self.spins[k1] * swapped1 + self.spins[k2] * swapped2;
        let rise: i8 = after - before;
        let slot = (rise + 16) as usize / 4;
        self.attempted = self.attempted + 1;
        if t.draw < self.rates.kawasaki[slot] {
            self.accepted = self.accepted + 1;
            self.bond_sum = self.bond_sum + rise as i128;
        } else {
            self.spins[k1] = s1;
            self.spins[k2] = s2;
            assert(self.spins@ =~= old(self).spins@);
        }
    }

    /// Makes as many trials under `rule` as the lattice has sites, each on
    /// a site drawn afresh.
    fn sweep(&mut self, rule: Rule) -> (trials: Ghost<Seq<Trial>>)
        requires
            old(self)@.wf(),
            old(self)@.attempted + old(self)@.n * old(self)@.n <= usize::MAX,
        ensures
            old(self)@.is_sweep(trials@),
            final(self)@ == old(self)@.after_trials(rule, trials@),
            final(self)@.wf(),
    {
        let n = self.n;
        let count = n * n;
        let ghost mut trials: Seq<Trial> = Seq::empty();
        let mut k: usize = 0;
        while k < count
            invariant
                old(self)@.wf(),
                old(self)@.attempted + count <= usize::MAX,
                n == old(self)@.n,
                count == n * n,
                k <= count,
                trials.len() == k,
                forall|q: int|
                    0 <= q < trials.len() ==> old(self)@.admits(#[trigger] trials[q])
                        && trials[q].draw < SCALE,
                self@ == old(self)@.after_trials(rule, trials),
                self@.wf(),
            decreases count - k,
        {
            proof {
                lemma_trials_valid(old(self)@, rule, trials);
            }
            let i = random_below(&mut self.rng, n as u64) as usize;
            let j = random_below(&mut self.rng, n as u64) as usize;
            let dir = match rule {
                Rule::Kawasaki => random_below(&mut self.rng, 4) as u8,
                _ => 0,
            };
            let draw = random_below(&mut self.rng, SCALE);
            let t = Trial { i, j, dir, draw };
            self.trial(rule, t);
            proof {
                assert(trials.push(t).drop_last() =~= trials);
                trials = trials.push(t);
            }
            k = k + 1;
        }
        Ghost(trials)
    }

    /// One sweep under `rule` with the trials given: they are made in
    /// order, and after them, under the heat-bath rule, the tracked sums
    /// are computed afresh. If one of the trials names a site off the
    /// lattice, or a direction that is none of the four, the sweep is
    /// refused, and nothing changes.
    pub fn sweep_with(&mut self, rule: Rule, trials: &[Trial]) -> (r: Result<(), IsingError>)
        requires
            old(self)@.wf(),
            old(self)@.attempted + trials@.len() <= usize::MAX,
        ensures
            r is Ok <==> forall|k: int|
                0 <= k < trials@.len() ==> old(self)@.admits(#[trigger] trials@[k]),
            r is Ok ==> final(self)@ == old(self)@.after_sweep(rule, trials@),
            r is Err ==> r == Err::<(), IsingError>(IsingError::InvariantViolation),
            r is Err ==> final(self)@ == old(self)@,
            final(self)@.wf(),
    {
        let mut k: usize = 0;
        while k < trials.len()
            invariant
                self@ == old(self)@,
                self@.wf(),
                k <= trials@.len(),
                forall|q: int| 0 <= q < k ==> self@.admits(#[trigger] trials@[q]),
            decreases trials@.len() - k,
        {
            let t = trials[k];
            if t.i >= self.n || t.j >= self.n || t.dir >= 4 {
                return Err(IsingError::InvariantViolation);
            }
            k = k + 1;
        }
        let mut k: usize = 0;
        while k < trials.len()
            invariant
                old(self)@.wf(),
                old(self)@.attempted + trials@.len() <= usize::MAX,
                k <= trials@.len(),
                forall|q: int|
                    0 <= q < trials@.len() ==> old(self)@.admits(#[trigger] trials@[q]),
                self@ == old(self)@.after_trials(rule, trials@.take(k as int)),
                self@.wf(),
            decreases trials@.len() - k,
        {
            proof {
                lemma_trials_valid(old(self)@, rule, trials@.take(k as int));
                assert(trials@.take(k + 1).drop_last() =~= trials@.take(k as int));
            }
            self.trial(rule, trials[k]);
            k = k + 1;
        }
        proof {
            assert(trials@.take(trials@.len() as int) =~= trials@);
        }
        match rule {
            Rule::HeatBath => {
                self.bond_sum = calc_bond_sum(self.spins.as_slice(), self.n);
                self.spin_sum = calc_spin_sum(self.spins.as_slice());
            },
            _ => {},
        }
        Ok(())
    }

    /// One Metropolis sweep: as many flip trials as the lattice has sites,
    /// each on a site drawn afresh.
    pub fn metropolis_step(&mut self)
        requires
            old(self)@.wf(),
            old(self)@.attempted + old(self)@.n * old(self)@.n <= usize::MAX,
        ensures
            final(self)@.wf(),
            exists|trials: Seq<Trial>|
                old(self)@.is_sweep(trials) && final(self)@ == old(self)@.after_sweep(
                    Rule::Metropolis,
                    trials,
                ),
            final(self)@.n == old(self)@.n,
            final(self)@.rates == old(self)@.rates,
            final(self)@.attempted == old(self)@.attempted + old(self)@.n * old(self)@.n,
            old(self)@.accepted <= final(self)@.accepted <= old(self)@.accepted + old(self)@.n
                * old(self)@.n,
            old(self)@.n >= 2 ==> final(self)@.in_sync(),
    {
        let trials = self.sweep(Rule::Metropolis);
        proof {
            lemma_trials_valid(old(self)@, Rule::Metropolis, trials@);
        }
    }

    /// One Glauber sweep: as many flip trials as the lattice has sites,
    /// each on a site drawn afresh.
    pub fn glauber_step(&mut self)
        requires
            old(self)@.wf(),
            old(self)@.attempted + old(self)@.n * old(self)@.n <= usize::MAX,
        ensures
            final(self)@.wf(),
            exists|trials: Seq<Trial>|
                old(self)@.is_sweep(trials) && final(self)@ == old(self)@.after_sweep(
                    Rule::Glauber,
                    trials,
                ),
            final(self)@.n == old(self)@.n,
            final(self)@.rates == old(self)@.rates,
            final(self)@.attempted == old(self)@.attempted + old(self)@.n * old(self)@.n,
            old(self)@.accepted <= final(self)@.accepted <= old(self)@.accepted + old(self)@.n
                * old(self)@.n,
            old(self)@.n >= 2 ==> final(self)@.in_sync(),
    {
        let trials = self.sweep(Rule::Glauber);
        proof {
            lemma_trials_valid(old(self)@, Rule::Glauber, trials@);
        }
    }

    /// One heat-bath sweep: as many trials as the lattice has sites, each
    /// on a site drawn afresh; then the tracked sums are computed afresh.
    pub fn heatbath_step(&mut self)
        requires
            old(self)@.wf(),
            old(self)@.attempted + old(self)@.n * old(self)@.n <= usize::MAX,
        ensures
            final(self)@.wf(),
            final(self)@.in_sync(),
            exists|trials: Seq<Trial>|
                old(self)@.is_sweep(trials) && final(self)@ == old(self)@.after_sweep(
                    Rule::HeatBath,
                    trials,
                ),
            final(self)@.n == old(self)@.n,
            final(self)@.rates == old(self)@.rates,
            final(self)@.attempted == old(self)@.attempted + old(self)@.n * old(self)@.n,
            old(self)@.accepted <= final(self)@.accepted <= old(self)@.accepted + old(self)@.n
                * old(self)@.n,
    {
        let trials = self.sweep(Rule::HeatBath);
        proof {
            lemma_trials_valid(old(self)@, Rule::HeatBath, trials@);
        }
        self.bond_sum = calc_bond_sum(self.spins.as_slice(), self.n);
        self.spin_sum = calc_spin_sum(self.spins.as_slice());
    }

    /// One Kawasaki sweep: as many exchange trials as the lattice has
    /// sites, each on a site and in a direction drawn afresh. The sum of
    /// all spins is left as it was.
    pub fn kawasaki_step(&mut self)
        requires
            old(self)@.wf(),
            old(self)@.attempted + old(self)@.n * old(self)@.n <= usize::MAX,
        ensures
            final(self)@.wf(),
            exists|trials: Seq<Trial>|
                old(self)@.is_sweep(trials) && final(self)@ == old(self)@.after_sweep(
                    Rule::Kawasaki,
                    trials,
                ),
            final(self)@.n == old(self)@.n,
            final(self)@.rates == old(self)@.rates,
            final(self)@.attempted == old(self)@.attempted + old(self)@.n * old(self)@.n,
            old(self)@.accepted <= final(self)@.accepted <= old(self)@.accepted + old(self)@.n
                * old(self)@.n,
            spin_sum(final(self)@.spins) == spin_sum(old(self)@.spins),
            final(self)@.spin_sum == old(self)@.spin_sum,
            old(self)@.in_sync() ==> final(self)@.in_sync(),
    {
        let trials = self.sweep(Rule::Kawasaki);
        proof {
            lemma_trials_valid(old(self)@, Rule::Kawasaki, trials@);
            lemma_kawasaki_conserves_magnetization(old(self)@, trials@);
            if old(self)@.in_sync() {
                lemma_tracking_exact(old(self)@, Rule::Kawasaki, trials@);
            }
        }
    }
}

impl Ising {
    /// Decides on every bond of the lattice, through the site that owns
    /// it: a bond between two equal spins is opened on a draw below the
    /// bond threshold, and no other. Returns the decisions on the bonds
    /// downwards and on the bonds to the right, by the owner's position.
    fn draw_bonds(&mut self) -> (r: (Vec<bool>, Vec<bool>))
        requires
            old(self)@.wf(),
        ensures
            final(self)@ == old(self)@,
            old(self)@.may_open(r.0@, r.1@),
    {
        let n = self.n;
        let mut down: Vec<bool> = Vec::new();
        let mut right: Vec<bool> = Vec::new();
        let mut i: usize = 0;
        while i < n
            invariant
                self@ == old(self)@,
                self@.wf(),
                n == self@.n,
                i <= n,
                down@.len() == i * n,
                right@.len() == i * n,
                self@.rates.bond == 0 ==> forall|k: int| 0 <= k < down@.len() ==> !#[trigger] down@[k],
                self@.rates.bond == 0 ==> forall|k: int|
                    0 <= k < right@.len() ==> !#[trigger] right@[k],
                self@.rates.bond >= SCALE ==> forall|k: int|
                    0 <= k < down@.len() && bond_of(k / n as int, k % n as int, true).joins_equal(
                        self@.spins,
                        n as int,
                    ) ==> #[trigger] down@[k],
                self@.rates.bond >= SCALE ==> forall|k: int|
                    0 <= k < right@.len() && bond_of(k / n as int, k % n as int, false).joins_equal(
                        self@.spins,
                        n as int,
                    ) ==> #[trigger] right@[k],
            decreases n - i,
        {
            let mut j: usize = 0;
            while j < n
                invariant
                    self@ == old(self)@,
                    self@.wf(),
                    n == self@.n,
                    i < n,
                    j <= n,
                    down@.len() == i * n + j,
                    right@.len() == i * n + j,
                    self@.rates.bond == 0 ==> forall|k: int|
                        0 <= k < down@.len() ==> !#[trigger] down@[k],
                    self@.rates.bond == 0 ==> forall|k: int|
                        0 <= k < right@.len() ==> !#[trigger] right@[k],
                    self@.rates.bond >= SCALE ==> forall|k: int|
                        0 <= k < down@.len() && bond_of(
                            k / n as int,
                            k % n as int,
                            true,
                        ).joins_equal(self@.spins, n as int) ==> #[trigger] down@[k],
                    self@.rates.bond >= SCALE ==> forall|k: int|
                        0 <= k < right@.len() && bond_of(
                            k / n as int,
                            k % n as int,
                            false,
                        ).joins_equal(self@.spins, n as int) ==> #[trigger] right@[k],
                decreases n - j,
            {
                proof {
                    lemma_bond_ends(n as int, bond_of(i as int, j as int, true));
                    lemma_bond_ends(n as int, bond_of(i as int, j as int, false));
                    lemma_site_coords(n as int, i as int, j as int);
                }
                let here = site_index(n, i, j);
                let below = site_index(n, next_index(i, n), j);
                let beside = site_index(n, i, next_index(j, n));
                let open_down = self.spins[here] == self.spins[below] && random_below(
                    &mut self.rng,
                    SCALE,
                ) < self.rates.bond;
                let open_right = self.spins[here] == self.spins[beside] && random_below(
                    &mut self.rng,
                    SCALE,
                ) < self.rates.bond;
                down.push(open_down);
                right.push(open_right);
                j = j + 1;
            }
            proof {
                assert(i * n + n == (i + 1) * n) by (nonlinear_arith);
            }
            i = i + 1;
        }
        (down, right)
    }

    /// The partition of the lattice into clusters that the decisions on
    /// the bonds induce.
    fn label_clusters(&self, down: &[bool], right: &[bool]) -> (uf: UnionFind)
        requires
            self@.wf(),
            down@.len() == self@.n * self@.n,
            right@.len() == self@.n * self@.n,
        ensures
            uf.wf(),
            uf@ == clusters(self@.n, self@.activated(down@, right@)),
    {
        let n = self.n;
        let count = n * n;
        let mut uf = UnionFind::new(count);
        let mut i: usize = 0;
        while i < n
            invariant
                self@.wf(),
                n == self@.n,
                count == n * n,
                down@.len() == count,
                right@.len() == count,
                i <= n,
                uf.wf(),
                uf@ == clusters(
                    n as int,
                    active_bonds(self@.spins, n as int, down@, right@, i * n),
                ),
            decreases n - i,
        {
            let mut j: usize = 0;
            while j < n
                invariant
                    self@.wf(),
                    n == self@.n,
                    count == n * n,
                    down@.len() == count,
                    right@.len() == count,
                    i < n,
                    j <= n,
                    uf.wf(),
                    uf@ == clusters(
                        n as int,
                        active_bonds(self@.spins, n as int, down@, right@, i * n + j),
                    ),
                decreases n - j,
            {
                let ghost before = active_bonds(self@.spins, n as int, down@, right@, i * n + j);
                let ghost after = active_bonds(
                    self@.spins,
                    n as int,
                    down@,
                    right@,
                    i * n + j + 1,
                );
                proof {
                    lemma_site(n as int, i as int, j as int);
                    lemma_active_bonds(self@.spins, n as int, down@, right@, i * n + j);
                    lemma_clusters_range(n as int, before);
                    lemma_bond_ends(n as int, bond_of(i as int, j as int, true));
                    lemma_bond_ends(n as int, bond_of(i as int, j as int, false));
                    lemma_site_coords(n as int, i as int, j as int);
                    lemma_site(n as int, i as int, j as int);
                }
                let here = site_index(n, i, j);
                let below = site_index(n, next_index(i, n), j);
                let beside = site_index(n, i, next_index(j, n));
                let ghost first = if down@[here as int] && bond_of(
                    i as int,
                    j as int,
                    true,
                ).joins_equal(self@.spins, n as int) {
                    before.push(bond_of(i as int, j as int, true))
                } else {
                    before
                };
                if down[here] && self.spins[here] == self.spins[below] {
                    uf.union(here, below);
                    proof {
                        assert(first.drop_last() =~= before);
                    }
                }
                assert(uf@ == clusters(n as int, first));
                if right[here] && self.spins[here] == self.spins[beside] {
                    uf.union(here, beside);
                    proof {
                        assert(after.drop_last() =~= first);
                    }
                }
                assert(uf@ == clusters(n as int, after));
                j = j + 1;
            }
            proof {
                assert(i * n + n == (i + 1) * n) by (nonlinear_arith);
            }
            i = i + 1;
        }
        uf
    }

    /// Tosses one fair coin for each cluster. Returns the coins by the
    /// position of the cluster's representative.
    fn draw_coins(&mut self, uf: &mut UnionFind) -> (coins: Vec<bool>)
        requires
            old(uf).wf(),
        ensures
            final(self)@ == old(self)@,
            final(uf).wf(),
            final(uf)@ == old(uf)@,
            coins@.len() == old(uf)@.len(),
    {
        let count = uf.len();
        let mut coins: Vec<bool> = Vec::new();
        let mut k: usize = 0;
        while k < count
            invariant
                self@ == old(self)@,
                uf.wf(),
                uf@ == old(uf)@,
                count == uf@.len(),
                k <= count,
                coins@.len() == k,
            decreases count - k,
        {
            let root = uf.find(k);
            let coin = root == k && random_below(&mut self.rng, 2) == 1;
            coins.push(coin);
            k = k + 1;
        }
        coins
    }

    /// Negates every spin of a cluster whose coin came up.
    fn flip_clusters(&mut self, uf: &mut UnionFind, coins: &[bool])
        requires
            old(self)@.wf(),
            old(uf).wf(),
            old(uf)@.len() == old(self)@.spins.len(),
            coins@.len() == old(self)@.spins.len(),
        ensures
            final(self)@ == (IsingView {
                spins: with_cluster_flips(old(self)@.spins, old(uf)@, coins@),
                ..old(self)@
            }),
    {
        let count = self.spins.len();
        let ghost labels = uf@;
        let mut k: usize = 0;
        proof {
            uf.lemma_labels();
        }
        while k < count
            invariant
                k <= count,
                count == self.spins@.len(),
                count == old(self).spins@.len(),
                coins@.len() == count,
                old(self)@.wf(),
                self.n == old(self).n,
                self.rates == old(self).rates,
                self.accepted == old(self).accepted,
                self.attempted == old(self).attempted,
                self.bond_sum == old(self).bond_sum,
                self.spin_sum == old(self).spin_sum,
                uf.wf(),
                uf@ == labels,
                labels.len() == count,
                labels_wf(labels),
                forall|q: int|
                    0 <= q < k ==> (#[trigger] self.spins@[q]) == (if coins@[labels[q]] {
                        (-old(self).spins@[q]) as i8
                    } else {
                        old(self).spins@[q]
                    }),
                forall|q: int| k <= q < count ==> #[trigger] self.spins@[q] == old(self).spins@[q],
            decreases count - k,
        {
            let ghost spins_before = self.spins@;
            let root = uf.find(k);
            proof {
                assert(is_spin(old(self).spins@[k as int]));
                assert(0 <= labels[k as int] < count);
            }
            if coins[root] {
                let s: i8 = self.spins[k];
                self.spins[k] = -s;
            }
            proof {
                assert forall|q: int| 0 <= q < k + 1 implies (#[trigger] self.spins@[q]) == (
                if coins@[labels[q]] {
                    (-old(self).spins@[q]) as i8
                } else {
                    old(self).spins@[q]
                }) by {
                    if q < k {
                        assert(spins_before[q] == (if coins@[labels[q]] {
                            (-old(self).spins@[q]) as i8
                        } else {
                            old(self).spins@[q]
                        }));
                    } else {
                        assert(spins_before[q] == old(self).spins@[q]);
                    }
                }
            }
            k = k + 1;
        }
        proof {
            assert(self.spins@ =~= with_cluster_flips(old(self)@.spins, labels, coins@));
        }
    }

    /// The Swendsen-Wang update with the decisions given: `down` and
    /// `right` say, by the owner's position, which bonds are opened, and
    /// `coins` says, by the position of a cluster's representative, which
    /// clusters are negated. The bonds opened between two equal spins part
    /// the lattice into clusters; every spin of a cluster whose coin came
    /// up is negated. The update counts as one trial made and accepted,
    /// and the tracked sums are computed afresh. Tables of another length
    /// than the number of sites are refused, and nothing changes.
    pub fn swendsen_wang_update(&mut self, down: &[bool], right: &[bool], coins: &[bool]) -> (r:
        Result<(), IsingError>)
        requires
            old(self)@.wf(),
            old(self)@.attempted < usize::MAX,
        ensures
            r is Ok <==> down@.len() == old(self)@.spins.len() && right@.len()
                == old(self)@.spins.len() && coins@.len() == old(self)@.spins.len(),
            r is Ok ==> final(self)@ == old(self)@.after_swendsen_wang(down@, right@, coins@),
            r is Err ==> r == Err::<(), IsingError>(IsingError::InvariantViolation),
            r is Err ==> final(self)@ == old(self)@,
            final(self)@.wf(),
            r is Ok ==> final(self)@.in_sync(),
    {
        let count = self.spins.len();
        if down.len() != count || right.len() != count || coins.len() != count {
            return Err(IsingError::InvariantViolation);
        }
        let mut uf = self.label_clusters(down, right);
        proof {
            lemma_active_bonds(self@.spins, self@.n, down@, right@, self@.n * self@.n);
            lemma_clusters_range(self@.n, self@.activated(down@, right@));
            lemma_cluster_flips_valid(self@, self@.activated(down@, right@), coins@);
        }
        self.flip_clusters(&mut uf, coins);
        self.attempted = self.attempted + 1;
        self.accepted = self.accepted + 1;
        self.bond_sum = calc_bond_sum(self.spins.as_slice(), self.n);
        self.spin_sum = calc_spin_sum(self.spins.as_slice());
        Ok(())
    }

    /// One Swendsen-Wang step: every bond between two equal spins is
    /// opened on a draw below the bond threshold; the opened bonds part
    /// the lattice into clusters; and each cluster is negated, or left, on
    /// the toss of a fair coin. The step counts as one trial made and
    /// accepted, and the tracked sums are computed afresh. The field plays
    /// no part in it.
    pub fn swendsen_wang_step(&mut self)
        requires
            old(self)@.wf(),
            old(self)@.attempted < usize::MAX,
        ensures
            final(self)@.wf(),
            final(self)@.in_sync(),
            exists|down: Seq<bool>, right: Seq<bool>, coins: Seq<bool>|
                old(self)@.may_open(down, right) && coins.len() == old(self)@.spins.len()
                    && final(self)@ == old(self)@.after_swendsen_wang(down, right, coins),
            uniform(old(self)@.spins) && old(self)@.rates.bond >= SCALE ==> uniform(
                final(self)@.spins,
            ),
    {
        let (down, right) = self.draw_bonds();
        let mut uf = self.label_clusters(down.as_slice(), right.as_slice());
        proof {
            lemma_active_bonds(self@.spins, self@.n, down@, right@, self@.n * self@.n);
            lemma_clusters_range(self@.n, self@.activated(down@, right@));
        }
        let coins = self.draw_coins(&mut uf);
        self.flip_clusters(&mut uf, coins.as_slice());
        self.attempted = self.attempted + 1;
        self.accepted = self.accepted + 1;
        proof {
            lemma_cluster_flips_valid(old(self)@, old(self)@.activated(down@, right@), coins@);
            if uniform(old(self)@.spins) && old(self)@.rates.bond >= SCALE {
                lemma_swendsen_wang_uniform(old(self)@, down@, right@, coins@);
            }
        }
        self.bond_sum = calc_bond_sum(self.spins.as_slice(), self.n);
        self.spin_sum = calc_spin_sum(self.spins.as_slice());
        assert(old(self)@.may_open(down@, right@) && coins@.len() == old(self)@.spins.len()
            && self@ == old(self)@.after_swendsen_wang(down@, right@, coins@));
    }
}

impl Ising {
    /// The Wolff update from `seed`, with the decisions read from `script`
    /// or, where there is none, drawn.
    fn grow_and_flip(&mut self, seed: (usize, usize), script: Option<&Script>) -> (r: Ghost<
        (Seq<(usize, usize)>, bool),
    >)
        requires
            old(self)@.wf(),
            old(self)@.attempted < usize::MAX,
            on_lattice(old(self)@.n, seed),
            script matches Some(s) ==> s.add@.len() == old(self)@.spins.len() && s.tie@.len()
                == old(self)@.spins.len(),
        ensures
            r@.0[0] == seed,
            old(self)@.may_grow(chance_of(script), r@.0, r@.1),
            final(self)@ == old(self)@.after_wolff(r@.0, r@.1),
            final(self)@.wf(),
            final(self)@.in_sync(),
    {
        let n = self.n;
        let antiferromagnetic = self.rates.antiferromagnetic;
        proof {
            lemma_staggered_grid(self.spins@, n as int);
        }
        if antiferromagnetic {
            flip_sublattice(self.spins.as_mut_slice(), n);
            proof {
                lemma_staggered(old(self).spins@, self.spins@, n as int);
            }
        }
        assert(self.spins@ == old(self)@.working());
        let (cluster, tied) = grow_cluster(
            self.spins.as_slice(),
            n,
            &self.rates,
            &mut self.rng,
            script,
            seed,
        );
        proof {
            lemma_may_grow(old(self)@, chance_of(script), cluster@, tied);
            lemma_wolff_valid(old(self)@, cluster@, tied);
        }
        if !tied {
            negate_sites(self.spins.as_mut_slice(), n, &cluster);
        }
        if antiferromagnetic {
            let ghost before = self.spins@;
            flip_sublattice(self.spins.as_mut_slice(), n);
            proof {
                lemma_staggered(before, self.spins@, n as int);
                lemma_negate_staggered(old(self).spins@, n as int, cluster@);
            }
        }
        assert(self.spins@ == old(self)@.after_wolff(cluster@, tied).spins);
        self.attempted = self.attempted + 1;
        self.accepted = self.accepted + 1;
        self.bond_sum = calc_bond_sum(self.spins.as_slice(), self.n);
        self.spin_sum = calc_spin_sum(self.spins.as_slice());
        Ghost((cluster@, tied))
    }

    /// The Wolff update with the seed and the decisions given. For an
    /// antiferromagnet the even sublattice is negated first, and again at
    /// the end. The cluster grows, breadth first, from `seed`: a site
    /// adds a neighbour of the seed's spin where `script.add` says so at
    /// the site's position and the neighbour's direction. The cluster is
    /// tied to the ghost spin where `script.tie` says so at the position
    /// of one of its sites that points along the field. Unless it is
    /// tied, each of its spins is negated. The update counts as one trial
    /// made and accepted, and the tracked sums are computed afresh. A
    /// seed off the lattice, or a table of another length than the number
    /// of sites, is refused, and nothing changes.
    pub fn wolff_update(&mut self, seed: (usize, usize), script: &Script) -> (r: Result<
        (),
        IsingError,
    >)
        requires
            old(self)@.wf(),
            old(self)@.attempted < usize::MAX,
        ensures
            r is Ok <==> on_lattice(old(self)@.n, seed) && script.add@.len()
                == old(self)@.spins.len() && script.tie@.len() == old(self)@.spins.len(),
            r is Ok ==> exists|cluster: Seq<(usize, usize)>, tied: bool|
                cluster[0] == seed && old(self)@.may_grow(
                    (Chance::Given { add: script.add@, tie: script.tie@ }),
                    cluster,
                    tied,
                ) && final(self)@ == old(self)@.after_wolff(cluster, tied),
            r is Err ==> r == Err::<(), IsingError>(IsingError::InvariantViolation),
            r is Err ==> final(self)@ == old(self)@,
            final(self)@.wf(),
            r is Ok ==> final(self)@.in_sync(),
    {
        let count = self.spins.len();
        if seed.0 >= self.n || seed.1 >= self.n || script.add.len() != count || script.tie.len()
            != count {
            return Err(IsingError::InvariantViolation);
        }
        let outcome = self.grow_and_flip(seed, Some(script));
        assert(outcome@.0[0] == seed && old(self)@.may_grow(
            (Chance::Given { add: script.add@, tie: script.tie@ }),
            outcome@.0,
            outcome@.1,
        ) && self@ == old(self)@.after_wolff(outcome@.0, outcome@.1));
        Ok(())
    }

    /// One Wolff step. For an antiferromagnet the even sublattice is
    /// negated first, and again at the end, so that in between the growth
    /// rule of the ferromagnet applies. A cluster grows, breadth first,
    /// from a site drawn afresh: a site adds a neighbour of the seed's
    /// spin on a draw below the growth threshold. While the cluster is not
    /// tied to the ghost spin that stands for the field, a site that
    /// points along the field ties it on a draw below the ghost threshold.
    /// Unless it came to be tied, each of its spins is negated. The step
    /// counts as one trial made and accepted, and the tracked sums are
    /// computed afresh.
    pub fn wolff_step(&mut self)
        requires
            old(self)@.wf(),
            old(self)@.attempted < usize::MAX,
        ensures
            final(self)@.wf(),
            final(self)@.in_sync(),
            exists|cluster: Seq<(usize, usize)>, tied: bool|
                old(self)@.may_grow(Chance::Drawn, cluster, tied) && final(self)@ == old(
                    self,
                )@.after_wolff(cluster, tied),
            old(self)@.rates.wolff_add == 0 && old(self)@.rates.wolff_ghost == 0 ==> exists|k: int|
                0 <= k < old(self)@.spins.len() && final(self)@.spins == with_flip(
                    old(self)@.spins,
                    k,
                ),
            uniform(old(self)@.spins) && old(self)@.rates.wolff_add >= SCALE && !old(
                self,
            )@.rates.antiferromagnetic ==> uniform(final(self)@.spins),
    {
        let n = self.n;
        let i = random_below(&mut self.rng, n as u64) as usize;
        let j = random_below(&mut self.rng, n as u64) as usize;
        let outcome = self.grow_and_flip((i, j), None);
        proof {
            let cluster = outcome@.0;
            let tied = outcome@.1;
            assert(old(self)@.may_grow(Chance::Drawn, cluster, tied) && self@ == old(
                self,
            )@.after_wolff(cluster, tied));
            if old(self)@.rates.wolff_add == 0 && old(self)@.rates.wolff_ghost == 0 {
                lemma_wolff_single_site(old(self)@, cluster, tied);
                lemma_site(n as int, cluster[0].0 as int, cluster[0].1 as int);
                let k = position(n as int, cluster[0]);
                assert(0 <= k < old(self)@.spins.len() && self@.spins == with_flip(
                    old(self)@.spins,
                    k,
                ));
            }
            if uniform(old(self)@.spins) && old(self)@.rates.wolff_add >= SCALE && !old(
                self,
            )@.rates.antiferromagnetic {
                lemma_wolff_whole_lattice(old(self)@, cluster, tied);
            }
        }
    }
}

} // verus!
