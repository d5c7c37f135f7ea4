//! The state of a simulation as a mathematical value; what a trial of each
//! single-spin rule, a Swendsen-Wang update and a Wolff update make of it;
//! and the laws that hold of these updates.

use vstd::prelude::*;
use crate::lattice::{
    site, grid_wf, spin_at, neighbor_sum_of, bond_sum, spin_sum, neighbor, lemma_site,
    lemma_neighbors, lemma_spin_times, lemma_wrap, is_spin, lemma_site_covers, lemma_site_coords,
};
use crate::flips::{
    with_flip, with_swap, exchange_rise, lemma_flip_wf, lemma_flip_spin_sum, lemma_flip_bond_sum,
    lemma_swap_spin_sum, lemma_swap_bond_sum, lemma_bond_sum_single,
};
use crate::rates::{Rates, SCALE, flip_slot, field_slot, exchange_slot, fires};
use crate::clusters::{
    Bond, bond_of, clusters, with_cluster_flips, uniform, active_bonds, is_open,
    lemma_clusters_range, lemma_all_bonds_one_cluster, lemma_active_bonds, lemma_bond_ends,
};
use crate::wolff::{
    Chance, position, on_lattice, steps_to, toward, staggered, grew_by, is_grown, absorbs,
    is_complete_upto, aligned, could_tie, would_tie, tie_allowed, holds_position,
    with_sites_negated, lemma_staggered_grid,
};

verus! {

/// The single-spin update rules.
#[derive(Clone, Copy, Debug, PartialEq, Eq, Structural)]
pub enum Rule {
    /// Flip when the energy does not rise, else with the Boltzmann factor.
    Metropolis,
    /// Flip with the logistic probability of the energy change.
    Glauber,
    /// Redraw the spin from its conditional distribution.
    HeatBath,
    /// Exchange the spin with a neighbour, accepted as in Metropolis.
    Kawasaki,
}

/// What one trial consumes of the random source: the site's row and
/// column, a direction among four (read by the Kawasaki rule only), and a
/// draw from `0..SCALE` that decides acceptance.
#[derive(Clone, Copy, Debug)]
pub struct Trial {
    pub i: usize,
    pub j: usize,
    pub dir: u8,
    pub draw: u64,
}

/// The state of a simulation.
pub struct IsingView {
    /// The side length of the lattice.
    pub n: int,
    /// The spins, row by row.
    pub spins: Seq<i8>,
    /// The thresholds in force.
    pub rates: Rates,
    /// The number of trials that changed the configuration.
    pub accepted: int,
    /// The number of trials made.
    pub attempted: int,
    /// The tracked bond sum: the energy's coefficient of `-J`.
    pub bond_sum: int,
    /// The tracked sum of spins: the total magnetization, and the energy's
    /// coefficient of `-h`.
    pub spin_sum: int,
}

impl IsingView {
    /// A valid state: a grid of spins; counters that fit the machine, with
    /// no more trials accepted than made; a tracked sum of spins that is
    /// the grid's; and a tracked bond sum that is the grid's on every
    /// lattice but the one of a single site, where it may be off by up to
    /// eight for each accepted trial.
    pub open spec fn wf(self) -> bool {
        &&& grid_wf(self.spins, self.n)
        &&& self.n * self.n <= usize::MAX
        &&& 0 <= self.accepted <= self.attempted <= usize::MAX
        &&& self.spin_sum == spin_sum(self.spins)
        &&& self.n >= 2 ==> self.bond_sum == bond_sum(self.spins, self.n)
        &&& -8 * self.accepted <= self.bond_sum - bond_sum(self.spins, self.n) <= 8
            * self.accepted
    }

    /// The tracked sums are those of the grid.
    pub open spec fn in_sync(self) -> bool {
        &&& self.spin_sum == spin_sum(self.spins)
        &&& self.bond_sum == bond_sum(self.spins, self.n)
    }

    /// The state with both sums computed afresh from the grid.
    pub open spec fn resynced(self) -> IsingView {
        IsingView {
            bond_sum: bond_sum(self.spins, self.n),
            spin_sum: spin_sum(self.spins),
            ..self
        }
    }

    /// The trial names a site of the lattice and one of the four
    /// directions.
    pub open spec fn admits(self, t: Trial) -> bool {
        &&& t.i < self.n
        &&& t.j < self.n
        &&& t.dir < 4
    }

    /// The trials of one sweep: as many as the lattice has sites, each on a
    /// site of the lattice, with a direction among four and a draw from
    /// `0..SCALE`.
    pub open spec fn is_sweep(self, trials: Seq<Trial>) -> bool {
        &&& trials.len() == self.n * self.n
        &&& forall|k: int|
            0 <= k < trials.len() ==> self.admits(#[trigger] trials[k]) && trials[k].draw
                < SCALE
    }

    /// Whether a flip trial under `rule` changes the spin.
    pub open spec fn flips(self, rule: Rule, t: Trial) -> bool {
        let s = spin_at(self.spins, self.n, t.i as int, t.j as int);
        let nsum = neighbor_sum_of(self.spins, self.n, t.i as int, t.j as int);
        match rule {
            Rule::Metropolis => fires(t.draw, self.rates.metropolis[flip_slot(s, nsum)]),
            Rule::Glauber => fires(t.draw, self.rates.glauber[flip_slot(s, nsum)]),
            _ => fires(t.draw, self.rates.heatbath[field_slot(nsum)]) != (s == 1),
        }
    }

    /// The state after a flip trial under `rule`: one more trial made; and,
    /// where it changes the spin `s` of a site whose neighbours sum to `S`,
    /// one more accepted, the spin negated, the bond sum lowered by
    /// `2 * s * S` and the sum of spins by `2 * s`.
    pub open spec fn after_flip_trial(self, rule: Rule, t: Trial) -> IsingView {
        let s = spin_at(self.spins, self.n, t.i as int, t.j as int);
        let nsum = neighbor_sum_of(self.spins, self.n, t.i as int, t.j as int);
        if self.flips(rule, t) {
            IsingView {
                spins: with_flip(self.spins, site(self.n, t.i as int, t.j as int)),
                accepted: self.accepted + 1,
                attempted: self.attempted + 1,
                bond_sum: self.bond_sum - 2 * (s * nsum),
                spin_sum: self.spin_sum - 2 * s,
                ..self
            }
        } else {
            IsingView { attempted: self.attempted + 1, ..self }
        }
    }

    /// The state after an exchange trial: one more trial made; and, where
    /// it is accepted, one more accepted, the site's spin and that of its
    /// neighbour in the trial's direction exchanged, and the bond sum
    /// raised by the rise of the bonds around the two.
    pub open spec fn after_exchange_trial(self, t: Trial) -> IsingView {
        let (c, d) = neighbor(self.n, t.i as int, t.j as int, t.dir as int);
        let rise = exchange_rise(self.spins, self.n, t.i as int, t.j as int, c, d);
        if fires(t.draw, self.rates.kawasaki[exchange_slot(rise)]) {
            IsingView {
                spins: with_swap(
                    self.spins,
                    site(self.n, t.i as int, t.j as int),
                    site(self.n, c, d),
                ),
                accepted: self.accepted + 1,
                attempted: self.attempted + 1,
                bond_sum: self.bond_sum + rise,
                ..self
            }
        } else {
            IsingView { attempted: self.attempted + 1, ..self }
        }
    }

    /// The state after one trial under `rule`.
    pub open spec fn after_trial(self, rule: Rule, t: Trial) -> IsingView {
        match rule {
            Rule::Kawasaki => self.after_exchange_trial(t),
            _ => self.after_flip_trial(rule, t),
        }
    }

    /// The state after one sweep of `trials` under `rule`: the state after
    /// the trials; under the heat-bath rule with both sums computed afresh.
    pub open spec fn after_sweep(self, rule: Rule, trials: Seq<Trial>) -> IsingView {
        if rule == Rule::HeatBath {
            self.after_trials(rule, trials).resynced()
        } else {
            self.after_trials(rule, trials)
        }
    }

    /// The state after the trials of `trials`, made in order.
    pub open spec fn after_trials(self, rule: Rule, trials: Seq<Trial>) -> IsingView
        decreases trials.len(),
    {
        if trials.len() == 0 {
            self
        } else {
            self.after_trials(rule, trials.drop_last()).after_trial(rule, trials.last())
        }
    }
}

/// A trial on a site of the lattice takes a valid state to a valid state of
/// the same lattice under the same thresholds, with one more trial made and
/// at most one more accepted.
pub proof fn lemma_trial_valid(v: IsingView, rule: Rule, t: Trial)
    requires
        v.wf(),
        v.admits(t),
        v.attempted < usize::MAX,
    ensures
        v.after_trial(rule, t).wf(),
        v.after_trial(rule, t).n == v.n,
        v.after_trial(rule, t).rates == v.rates,
        v.after_trial(rule, t).attempted == v.attempted + 1,
        v.accepted <= v.after_trial(rule, t).accepted <= v.accepted + 1,
        v.after_trial(rule, t).spins.len() == v.spins.len(),
{
    let i = t.i as int;
    let j = t.j as int;
    let n = v.n;
    let after = v.after_trial(rule, t);
    lemma_site(n, i, j);
    lemma_neighbors(v.spins, n, i, j);
    if rule == Rule::Kawasaki {
        let (c, d) = neighbor(n, i, j, t.dir as int);
        lemma_wrap(i, n);
        lemma_wrap(j, n);
        lemma_site(n, c, d);
        lemma_swap_bond_sum(v.spins, n, i, j, c, d);
        lemma_swap_spin_sum(v.spins, site(n, i, j), site(n, c, d));
    } else {
        let s = spin_at(v.spins, n, i, j);
        let nsum = neighbor_sum_of(v.spins, n, i, j);
        lemma_spin_times(s, nsum);
        if v.flips(rule, t) {
            let k = site(n, i, j);
            lemma_flip_wf(v.spins, n, k);
            lemma_flip_spin_sum(v.spins, k);
            if n >= 2 {
                lemma_flip_bond_sum(v.spins, n, i, j);
            } else {
                lemma_bond_sum_single(v.spins);
                lemma_bond_sum_single(after.spins);
            }
        }
    }
}

/// A run of trials, each on a site of the lattice, takes a valid state to a
/// valid state of the same lattice under the same thresholds, with as many
/// more trials made as the run is long.
pub proof fn lemma_trials_valid(v: IsingView, rule: Rule, trials: Seq<Trial>)
    requires
        v.wf(),
        forall|k: int| 0 <= k < trials.len() ==> v.admits(#[trigger] trials[k]),
        v.attempted + trials.len() <= usize::MAX,
    ensures
        v.after_trials(rule, trials).wf(),
        v.after_trials(rule, trials).n == v.n,
        v.after_trials(rule, trials).rates == v.rates,
        v.after_trials(rule, trials).attempted == v.attempted + trials.len(),
        v.accepted <= v.after_trials(rule, trials).accepted <= v.accepted + trials.len(),
        v.after_trials(rule, trials).spins.len() == v.spins.len(),
    decreases trials.len(),
{
    if trials.len() > 0 {
        lemma_trials_valid(v, rule, trials.drop_last());
        lemma_trial_valid(v.after_trials(rule, trials.drop_last()), rule, trials.last());
    }
}

/// Exchange dynamics conserve the magnetization: whatever the trials, the
/// sum of all spins after a run of Kawasaki trials is the sum before it.
pub proof fn lemma_kawasaki_conserves_magnetization(v: IsingView, trials: Seq<Trial>)
    requires
        v.wf(),
        forall|k: int| 0 <= k < trials.len() ==> v.admits(#[trigger] trials[k]),
        v.attempted + trials.len() <= usize::MAX,
    ensures
        spin_sum(v.after_trials(Rule::Kawasaki, trials).spins) == spin_sum(v.spins),
        v.after_trials(Rule::Kawasaki, trials).spin_sum == v.spin_sum,
    decreases trials.len(),
{
    if trials.len() > 0 {
        let before = v.after_trials(Rule::Kawasaki, trials.drop_last());
        lemma_kawasaki_conserves_magnetization(v, trials.drop_last());
        lemma_trials_valid(v, Rule::Kawasaki, trials.drop_last());
        lemma_trial_valid(before, Rule::Kawasaki, trials.last());
    }
}

/// Incremental tracking is exact: on a lattice of side two or more, after
/// any run of trials under any rule, the tracked sums are the sums that a
/// fresh computation over the grid gives. Under the Kawasaki rule the same
/// holds on the lattice of a single site, once the sums are in step.
pub proof fn lemma_tracking_exact(v: IsingView, rule: Rule, trials: Seq<Trial>)
    requires
        v.wf(),
        forall|k: int| 0 <= k < trials.len() ==> v.admits(#[trigger] trials[k]),
        v.attempted + trials.len() <= usize::MAX,
        v.n >= 2 || (rule == Rule::Kawasaki && v.in_sync()),
    ensures
        v.after_trials(rule, trials).in_sync(),
    decreases trials.len(),
{
    lemma_trials_valid(v, rule, trials);
    if trials.len() > 0 && v.n < 2 {
        let before = v.after_trials(rule, trials.drop_last());
        let t = trials.last();
        lemma_tracking_exact(v, rule, trials.drop_last());
        lemma_trials_valid(v, rule, trials.drop_last());
        let (c, d) = neighbor(before.n, t.i as int, t.j as int, t.dir as int);
        lemma_wrap(t.i as int, before.n);
        lemma_wrap(t.j as int, before.n);
        lemma_swap_bond_sum(before.spins, before.n, t.i as int, t.j as int, c, d);
    }
}

impl IsingView {
    /// The decisions that one Swendsen-Wang step may draw: for each site
    /// one on the bond below it and one on the bond to its right. None
    /// opens a bond where the bond threshold is zero, and each bond
    /// between two equal spins is opened where the threshold always fires.
    pub open spec fn may_open(self, down: Seq<bool>, right: Seq<bool>) -> bool {
        &&& down.len() == self.n * self.n
        &&& right.len() == self.n * self.n
        &&& self.rates.bond == 0 ==> forall|k: int| 0 <= k < down.len() ==> !#[trigger] down[k]
        &&& self.rates.bond == 0 ==> forall|k: int| 0 <= k < right.len() ==> !#[trigger] right[k]
        &&& self.rates.bond >= SCALE ==> forall|k: int|
            0 <= k < down.len() && bond_of(k / self.n, k % self.n, true).joins_equal(
                self.spins,
                self.n,
            ) ==> #[trigger] down[k]
        &&& self.rates.bond >= SCALE ==> forall|k: int|
            0 <= k < right.len() && bond_of(k / self.n, k % self.n, false).joins_equal(
                self.spins,
                self.n,
            ) ==> #[trigger] right[k]
    }

    /// The bonds that the decisions activate: those that they open between
    /// two equal spins.
    pub open spec fn activated(self, down: Seq<bool>, right: Seq<bool>) -> Seq<Bond> {
        active_bonds(self.spins, self.n, down, right, self.n * self.n)
    }

    /// The state after activating `bonds` and tossing `coins[r]` for the
    /// cluster with representative `r`: every spin of a cluster whose coin
    /// came up is negated, one more trial is made and accepted, and the
    /// sums are computed afresh.
    pub open spec fn after_cluster_flips(self, bonds: Seq<Bond>, coins: Seq<bool>) -> IsingView {
        IsingView {
            spins: with_cluster_flips(self.spins, clusters(self.n, bonds), coins),
            accepted: self.accepted + 1,
            attempted: self.attempted + 1,
            ..self
        }.resynced()
    }

    /// The state after a Swendsen-Wang step with the given decisions on
    /// the bonds and coins for the clusters.
    pub open spec fn after_swendsen_wang(
        self,
        down: Seq<bool>,
        right: Seq<bool>,
        coins: Seq<bool>,
    ) -> IsingView {
        self.after_cluster_flips(self.activated(down, right), coins)
    }
}

/// A Swendsen-Wang step takes a valid state to a valid state whose tracked
/// sums are those of the grid.
pub proof fn lemma_cluster_flips_valid(v: IsingView, bonds: Seq<Bond>, coins: Seq<bool>)
    requires
        v.wf(),
        v.attempted < usize::MAX,
    ensures
        v.after_cluster_flips(bonds, coins).wf(),
        v.after_cluster_flips(bonds, coins).in_sync(),
{
    let after = v.after_cluster_flips(bonds, coins);
    assert forall|k: int| 0 <= k < after.spins.len() implies is_spin(#[trigger] after.spins[k]) by {
        assert(is_spin(v.spins[k]));
    }
}

/// With every bond between two equal spins opened, a Swendsen-Wang step on
/// a uniform grid moves the whole lattice as one cluster: the grid is
/// uniform afterwards too.
pub proof fn lemma_swendsen_wang_uniform(
    v: IsingView,
    down: Seq<bool>,
    right: Seq<bool>,
    coins: Seq<bool>,
)
    requires
        v.wf(),
        v.may_open(down, right),
        v.rates.bond >= SCALE,
        uniform(v.spins),
    ensures
        uniform(v.after_swendsen_wang(down, right, coins).spins),
{
    let n = v.n;
    let bonds = v.activated(down, right);
    let labels = clusters(n, bonds);
    let after = v.after_swendsen_wang(down, right, coins).spins;
    lemma_active_bonds(v.spins, n, down, right, n * n);
    assert forall|i: int, j: int, d: bool| 0 <= i < n && 0 <= j < n implies #[trigger] bonds.contains(
        bond_of(i, j, d),
    ) by {
        let b = bond_of(i, j, d);
        lemma_bond_ends(n, b);
        lemma_site(n, i, j);
        lemma_site_coords(n, i, j);
        assert(v.spins[b.from(n)] == v.spins[0]);
        assert(v.spins[b.to(n)] == v.spins[0]);
        assert(b.joins_equal(v.spins, n));
        if d {
            assert(down[site(n, i, j)]);
        } else {
            assert(right[site(n, i, j)]);
        }
    }
    lemma_all_bonds_one_cluster(n, bonds);
    lemma_clusters_range(n, bonds);
    assert forall|k: int| 0 <= k < after.len() implies #[trigger] after[k] == after[0] by {
        lemma_site_covers(n, k);
        lemma_site_covers(n, 0);
        assert(labels[site(n, k / n, k % n)] == labels[site(n, 0, 0)]);
        assert(labels[site(n, 0int / n, 0int % n)] == labels[site(n, 0, 0)]);
        assert(v.spins[k] == v.spins[0]);
    }
}

/// With no bond opened every site is a cluster of its own: a
/// Swendsen-Wang step negates each spin whose own coin came up, and no
/// other.
pub proof fn lemma_swendsen_wang_loose(
    v: IsingView,
    down: Seq<bool>,
    right: Seq<bool>,
    coins: Seq<bool>,
)
    requires
        v.wf(),
        v.may_open(down, right),
        v.rates.bond == 0,
    ensures
        v.after_swendsen_wang(down, right, coins).spins == Seq::new(
            v.spins.len(),
            |k: int|
                if coins[k] {
                    (-v.spins[k]) as i8
                } else {
                    v.spins[k]
                },
        ),
{
    let bonds = v.activated(down, right);
    lemma_active_bonds(v.spins, v.n, down, right, v.n * v.n);
    if bonds.len() > 0 {
        let b = bonds[0];
        lemma_bond_ends(v.n, b);
        assert(is_open(v.n, down, right, b));
    }
    assert(v.after_swendsen_wang(down, right, coins).spins =~= Seq::new(
        v.spins.len(),
        |k: int|
            if coins[k] {
                (-v.spins[k]) as i8
            } else {
                v.spins[k]
            },
    ));
}

impl IsingView {
    /// The grid on which a Wolff cluster grows: the staggered one for an
    /// antiferromagnet, on which the growth rule of the ferromagnet
    /// applies; else the grid itself.
    pub open spec fn working(self) -> Seq<i8> {
        if self.rates.antiferromagnetic {
            staggered(self.spins, self.n)
        } else {
            self.spins
        }
    }

    /// Whether the spin of the site points along the field.
    pub open spec fn along_field(self, c: (usize, usize)) -> bool {
        self.spins[position(self.n, c)] == (if self.rates.field_up { 1i8 } else { -1i8 })
    }

    /// The site points along the field and can come to tie the cluster to
    /// the ghost spin.
    pub open spec fn can_tie(self, chance: Chance, c: (usize, usize)) -> bool {
        self.along_field(c) && chance.may_tie(self.rates, position(self.n, c))
    }

    /// The site points along the field and is bound to tie the cluster to
    /// the ghost spin.
    pub open spec fn will_tie(self, chance: Chance, c: (usize, usize)) -> bool {
        self.along_field(c) && chance.must_tie(self.rates, position(self.n, c))
    }

    /// What one Wolff step may come to under `chance`: `cluster` grew from
    /// its first site on the working grid, every site but the first added
    /// by an earlier one that could add it, and no site left out that a
    /// site of the cluster was bound to add. It is tied to the ghost spin
    /// only if one of its sites could tie it, and certainly if one was
    /// bound to.
    pub open spec fn may_grow(
        self,
        chance: Chance,
        cluster: Seq<(usize, usize)>,
        tied: bool,
    ) -> bool {
        &&& is_grown(self.working(), self.n, self.rates, chance, cluster)
        &&& is_complete_upto(
            self.working(),
            self.n,
            self.rates,
            chance,
            cluster,
            cluster.len() as int,
        )
        &&& tied ==> exists|m: int|
            0 <= m < cluster.len() && self.can_tie(chance, #[trigger] cluster[m])
        &&& forall|m: int|
            0 <= m < cluster.len() && self.will_tie(chance, #[trigger] cluster[m]) ==> tied
    }

    /// The state after a Wolff step that grew `cluster`: unless the
    /// cluster is tied to the ghost spin, each of its spins is negated;
    /// one more trial is made and accepted; and the sums are computed
    /// afresh.
    pub open spec fn after_wolff(self, cluster: Seq<(usize, usize)>, tied: bool) -> IsingView {
        IsingView {
            spins: if tied {
                self.spins
            } else {
                with_sites_negated(self.spins, self.n, cluster)
            },
            accepted: self.accepted + 1,
            attempted: self.attempted + 1,
            ..self
        }.resynced()
    }
}

/// On the working grid a site is read as pointing along the field exactly
/// when its spin does.
pub proof fn lemma_aligned(v: IsingView, c: (usize, usize))
    requires
        v.wf(),
        on_lattice(v.n, c),
    ensures
        aligned(v.working(), v.n, v.rates, c) == v.along_field(c),
{
    lemma_staggered_grid(v.spins, v.n);
    lemma_site(v.n, c.0 as int, c.1 as int);
    assert(is_spin(v.spins[position(v.n, c)]));
}

/// A cluster that grew on the working grid and may be tied there is one
/// that the Wolff step may come to.
pub proof fn lemma_may_grow(v: IsingView, chance: Chance, cluster: Seq<(usize, usize)>, tied: bool)
    requires
        v.wf(),
        is_grown(v.working(), v.n, v.rates, chance, cluster),
        is_complete_upto(v.working(), v.n, v.rates, chance, cluster, cluster.len() as int),
        tie_allowed(v.working(), v.n, v.rates, chance, cluster, cluster.len() as int, tied),
    ensures
        v.may_grow(chance, cluster, tied),
{
    assert forall|m: int| 0 <= m < cluster.len() implies aligned(
        v.working(),
        v.n,
        v.rates,
        #[trigger] cluster[m],
    ) == v.along_field(cluster[m]) by {
        lemma_aligned(v, cluster[m]);
    }
    if tied {
        let m = choose|m: int|
            0 <= m < cluster.len() && could_tie(
                v.working(),
                v.n,
                v.rates,
                chance,
                #[trigger] cluster[m],
            );
        assert(v.can_tie(chance, cluster[m]));
    }
    assert forall|m: int|
        0 <= m < cluster.len() && v.will_tie(chance, #[trigger] cluster[m]) implies tied by {
        assert(would_tie(v.working(), v.n, v.rates, chance, cluster[m]));
    }
}

/// A Wolff step takes a valid state to a valid state whose tracked sums
/// are those of the grid.
pub proof fn lemma_wolff_valid(v: IsingView, cluster: Seq<(usize, usize)>, tied: bool)
    requires
        v.wf(),
        v.attempted < usize::MAX,
    ensures
        v.after_wolff(cluster, tied).wf(),
        v.after_wolff(cluster, tied).in_sync(),
{
    let after = v.after_wolff(cluster, tied);
    assert forall|k: int| 0 <= k < after.spins.len() implies is_spin(#[trigger] after.spins[k]) by {
        assert(is_spin(v.spins[k]));
    }
}

/// With a growth threshold and a ghost threshold of zero, a Wolff step
/// negates the spin of one site, and leaves every other spin as it was.
pub proof fn lemma_wolff_single_site(v: IsingView, cluster: Seq<(usize, usize)>, tied: bool)
    requires
        v.wf(),
        v.may_grow(Chance::Drawn, cluster, tied),
        v.rates.wolff_add == 0,
        v.rates.wolff_ghost == 0,
    ensures
        on_lattice(v.n, cluster[0]),
        v.after_wolff(cluster, tied).spins == with_flip(v.spins, position(v.n, cluster[0])),
{
    let after = v.after_wolff(cluster, tied).spins;
    let k0 = position(v.n, cluster[0]);
    lemma_site(v.n, cluster[0].0 as int, cluster[0].1 as int);
    if cluster.len() > 1 {
        assert(grew_by(v.n, v.rates, Chance::Drawn, cluster, 1));
    }
    if tied {
        let m = choose|m: int|
            0 <= m < cluster.len() && v.can_tie(Chance::Drawn, #[trigger] cluster[m]);
        assert(v.can_tie(Chance::Drawn, cluster[m]));
    }
    assert forall|k: int| 0 <= k < after.len() implies after[k] == with_flip(v.spins, k0)[k] by {
        if k == k0 {
            assert(holds_position(v.n, cluster, 1, k));
        }
    }
    assert(after =~= with_flip(v.spins, k0));
}

/// A site of the lattice that the cluster holds by its position is one of
/// the sites that it lists.
proof fn lemma_held(
    working: Seq<i8>,
    n: int,
    rates: Rates,
    chance: Chance,
    cluster: Seq<(usize, usize)>,
    c: (usize, usize),
)
    requires
        is_grown(working, n, rates, chance, cluster),
        on_lattice(n, c),
        holds_position(n, cluster, cluster.len() as int, position(n, c)),
    ensures
        cluster.contains(c),
{
    let m = choose|m: int|
        0 <= m < cluster.len() && position(n, #[trigger] cluster[m]) == position(n, c);
    assert(on_lattice(n, cluster[m]));
    lemma_site(n, c.0 as int, c.1 as int);
    assert(cluster[m] == c);
}

/// In a cluster whose sites were bound to add every neighbour, on a
/// uniform grid, every site of the seed's row is present.
proof fn lemma_closed_row(
    working: Seq<i8>,
    n: int,
    rates: Rates,
    cluster: Seq<(usize, usize)>,
    j: usize,
)
    requires
        grid_wf(working, n),
        uniform(working),
        rates.wolff_add >= SCALE,
        is_grown(working, n, rates, Chance::Drawn, cluster),
        is_complete_upto(working, n, rates, Chance::Drawn, cluster, cluster.len() as int),
        j < n,
    ensures
        cluster.contains((cluster[0].0, j)),
    decreases
            (if j >= cluster[0].1 {
                j - cluster[0].1
            } else {
                cluster[0].1 - j
            }),
{
    let a = cluster[0].0;
    let b = cluster[0].1;
    assert(on_lattice(n, cluster[0]));
    if j == b {
        assert(cluster[0] == (a, j));
    } else {
        let from: usize = if j > b { (j - 1) as usize } else { (j + 1) as usize };
        let d: int = if j > b { 2 } else { 3 };
        lemma_closed_row(working, n, rates, cluster, from);
        let m = choose|m: int| 0 <= m < cluster.len() && cluster[m] == (a, from);
        lemma_wrap(from as int, n);
        lemma_site(n, a as int, j as int);
        lemma_site(n, a as int, b as int);
        assert(toward(n, cluster[m], d) == position(n, (a, j)));
        assert(absorbs(working, n, cluster, m, d));
        assert(working[position(n, (a, j))] == working[0]);
        assert(working[position(n, cluster[0])] == working[0]);
        lemma_held(working, n, rates, Chance::Drawn, cluster, (a, j));
    }
}

/// In a cluster whose sites were bound to add every neighbour, on a
/// uniform grid, every site of the lattice is present.
proof fn lemma_closed_whole(
    working: Seq<i8>,
    n: int,
    rates: Rates,
    cluster: Seq<(usize, usize)>,
    i: usize,
    j: usize,
)
    requires
        grid_wf(working, n),
        uniform(working),
        rates.wolff_add >= SCALE,
        is_grown(working, n, rates, Chance::Drawn, cluster),
        is_complete_upto(working, n, rates, Chance::Drawn, cluster, cluster.len() as int),
        i < n,
        j < n,
    ensures
        cluster.contains((i, j)),
    decreases
            (if i >= cluster[0].0 {
                i - cluster[0].0
            } else {
                cluster[0].0 - i
            }),
{
    let a = cluster[0].0;
    assert(on_lattice(n, cluster[0]));
    if i == a {
        lemma_closed_row(working, n, rates, cluster, j);
    } else {
        let from: usize = if i > a { (i - 1) as usize } else { (i + 1) as usize };
        let d: int = if i > a { 0 } else { 1 };
        lemma_closed_whole(working, n, rates, cluster, from, j);
        let m = choose|m: int| 0 <= m < cluster.len() && cluster[m] == (from, j);
        lemma_wrap(from as int, n);
        lemma_site(n, i as int, j as int);
        lemma_site(n, cluster[0].0 as int, cluster[0].1 as int);
        assert(toward(n, cluster[m], d) == position(n, (i, j)));
        assert(absorbs(working, n, cluster, m, d));
        assert(working[position(n, (i, j))] == working[0]);
        assert(working[position(n, cluster[0])] == working[0]);
        lemma_held(working, n, rates, Chance::Drawn, cluster, (i, j));
    }
}

/// With a growth threshold that always fires, a Wolff step on a uniform
/// grid of a ferromagnet moves the whole lattice as one cluster: it
/// negates every spin, or, where the cluster is tied to the ghost spin,
/// none.
pub proof fn lemma_wolff_whole_lattice(v: IsingView, cluster: Seq<(usize, usize)>, tied: bool)
    requires
        v.wf(),
        v.may_grow(Chance::Drawn, cluster, tied),
        v.rates.wolff_add >= SCALE,
        !v.rates.antiferromagnetic,
        uniform(v.spins),
    ensures
        uniform(v.after_wolff(cluster, tied).spins),
        tied ==> v.after_wolff(cluster, tied).spins == v.spins,
        !tied ==> forall|k: int|
            0 <= k < v.spins.len() ==> #[trigger] v.after_wolff(cluster, tied).spins[k]
                == -v.spins[k],
{
    let n = v.n;
    let after = v.after_wolff(cluster, tied).spins;
    if !tied {
        assert forall|k: int| 0 <= k < after.len() implies #[trigger] after[k] == -v.spins[k] by {
            lemma_site_covers(n, k);
            let c = ((k / n) as usize, (k % n) as usize);
            lemma_closed_whole(v.spins, n, v.rates, cluster, c.0, c.1);
            let m = choose|m: int| 0 <= m < cluster.len() && cluster[m] == c;
            assert(position(n, cluster[m]) == k);
            assert(holds_position(n, cluster, cluster.len() as int, k));
        }
        assert forall|k: int| 0 <= k < after.len() implies #[trigger] after[k] == after[0] by {
            assert(v.spins[k] == v.spins[0]);
            assert(after[0] == -v.spins[0]);
        }
    }
}

/// Of two clusters that grew from one seed under the same given
/// decisions, each holds the sites of the other.
proof fn lemma_given_holds(
    working: Seq<i8>,
    n: int,
    rates: Rates,
    chance: Chance,
    one: Seq<(usize, usize)>,
    other: Seq<(usize, usize)>,
    m: int,
)
    requires
        chance is Given,
        is_grown(working, n, rates, chance, one),
        is_grown(working, n, rates, chance, other),
        is_complete_upto(working, n, rates, chance, other, other.len() as int),
        one[0] == other[0],
        0 <= m < one.len(),
    ensures
        other.contains(one[m]),
    decreases m,
{
    if m == 0 {
        assert(other[0] == one[0]);
    } else {
        assert(grew_by(n, rates, chance, one, m));
        let (p, d) = choose|p: int, d: int|
            0 <= p < m && 0 <= d < 4 && #[trigger] steps_to(n, one[p], d, one[m])
                && chance.may_add(rates, position(n, one[p]), d);
        lemma_given_holds(working, n, rates, chance, one, other, p);
        let q = choose|q: int| 0 <= q < other.len() && other[q] == one[p];
        assert(on_lattice(n, one[m]));
        assert(toward(n, other[q], d) == position(n, one[m]));
        assert(absorbs(working, n, other, q, d));
        assert(working[position(n, one[m])] == working[position(n, one[0])]);
        lemma_held(working, n, rates, chance, other, one[m]);
    }
}

/// Given decisions settle the outcome: two clusters that grew from one
/// seed under the same given decisions hold the same sites and are tied
/// alike, so that the Wolff step comes to one state.
pub proof fn lemma_wolff_given_settles(
    v: IsingView,
    chance: Chance,
    one: Seq<(usize, usize)>,
    one_tied: bool,
    other: Seq<(usize, usize)>,
    other_tied: bool,
)
    requires
        v.wf(),
        chance is Given,
        v.may_grow(chance, one, one_tied),
        v.may_grow(chance, other, other_tied),
        one[0] == other[0],
    ensures
        one_tied == other_tied,
        v.after_wolff(one, one_tied) == v.after_wolff(other, other_tied),
{
    let w = v.working();
    let n = v.n;
    assert forall|m: int| 0 <= m < one.len() implies other.contains(#[trigger] one[m]) by {
        lemma_given_holds(w, n, v.rates, chance, one, other, m);
    }
    assert forall|m: int| 0 <= m < other.len() implies one.contains(#[trigger] other[m]) by {
        lemma_given_holds(w, n, v.rates, chance, other, one, m);
    }
    if one_tied {
        let m = choose|m: int| 0 <= m < one.len() && v.can_tie(chance, #[trigger] one[m]);
        assert(other.contains(one[m]));
        let q = choose|q: int| 0 <= q < other.len() && other[q] == one[m];
        assert(v.will_tie(chance, other[q]));
    }
    if other_tied {
        let m = choose|m: int| 0 <= m < other.len() && v.can_tie(chance, #[trigger] other[m]);
        assert(one.contains(other[m]));
        let q = choose|q: int| 0 <= q < one.len() && one[q] == other[m];
        assert(v.will_tie(chance, one[q]));
    }
    let a = with_sites_negated(v.spins, n, one);
    let b = with_sites_negated(v.spins, n, other);
    assert forall|k: int| 0 <= k < v.spins.len() implies a[k] == b[k] by {
        if holds_position(n, one, one.len() as int, k) {
            let m = choose|m: int| 0 <= m < one.len() && position(n, #[trigger] one[m]) == k;
            assert(other.contains(one[m]));
            let q = choose|q: int| 0 <= q < other.len() && other[q] == one[m];
            assert(position(n, other[q]) == k);
        }
        if holds_position(n, other, other.len() as int, k) {
            let m = choose|m: int|
                0 <= m < other.len() && position(n, #[trigger] other[m]) == k;
            assert(one.contains(other[m]));
            let q = choose|q: int| 0 <= q < one.len() && one[q] == other[m];
            assert(position(n, one[q]) == k);
        }
    }
    assert(a =~= b);
}

} // verus!
