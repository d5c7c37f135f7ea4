//! Clusters of a bond configuration: the partition of the lattice that a
//! set of activated bonds induces.

use vstd::prelude::*;
use crate::lattice::{
    wrap_next, site, grid_wf, lemma_wrap, lemma_site, lemma_site_covers, lemma_site_coords,
};
use crate::union_find::merged;

verus! {

/// The bond that the site in row `i` and column `j` owns downwards, or
/// else to the right.
pub struct Bond {
    pub i: int,
    pub j: int,
    pub down: bool,
}

/// The bond that the site in row `i` and column `j` owns downwards, or
/// else to the right.
pub open spec fn bond_of(i: int, j: int, down: bool) -> Bond {
    Bond { i, j, down }
}

impl Bond {
    /// The position of the site that owns the bond.
    pub open spec fn from(self, n: int) -> int {
        site(n, self.i, self.j)
    }

    /// The position of the site at the other end.
    pub open spec fn to(self, n: int) -> int {
        if self.down {
            site(n, wrap_next(self.i, n), self.j)
        } else {
            site(n, self.i, wrap_next(self.j, n))
        }
    }

    /// The bond lies on the lattice of side `n`.
    pub open spec fn on_lattice(self, n: int) -> bool {
        0 <= self.i < n && 0 <= self.j < n
    }

    /// The bond lies on the lattice and joins two equal spins.
    pub open spec fn joins_equal(self, spins: Seq<i8>, n: int) -> bool {
        self.on_lattice(n) && spins[self.from(n)] == spins[self.to(n)]
    }
}

/// For each position, the representative of its cluster, when the given
/// bonds are activated one after the other on a lattice of isolated sites:
/// each bond merges the cluster of its owner into that of its other end.
pub open spec fn clusters(n: int, bonds: Seq<Bond>) -> Seq<int>
    decreases bonds.len(),
{
    if bonds.len() == 0 {
        Seq::new((n * n) as nat, |x: int| x)
    } else {
        merged(clusters(n, bonds.drop_last()), bonds.last().from(n), bonds.last().to(n))
    }
}

/// The grid in which each spin is negated where the coin of its cluster's
/// representative says so.
pub open spec fn with_cluster_flips(spins: Seq<i8>, labels: Seq<int>, coins: Seq<bool>) -> Seq<
    i8,
> {
    Seq::new(
        spins.len(),
        |k: int|
            if coins[labels[k]] {
                (-spins[k]) as i8
            } else {
                spins[k]
            },
    )
}

/// Every spin of the grid is the same.
pub open spec fn uniform(spins: Seq<i8>) -> bool {
    forall|k: int| 0 <= k < spins.len() ==> #[trigger] spins[k] == spins[0]
}

/// Both ends of a bond on the lattice are positions of the grid.
pub proof fn lemma_bond_ends(n: int, b: Bond)
    requires
        n >= 1,
        b.on_lattice(n),
    ensures
        0 <= b.from(n) < n * n,
        0 <= b.to(n) < n * n,
{
    lemma_wrap(b.i, n);
    lemma_wrap(b.j, n);
    lemma_site(n, b.i, b.j);
    lemma_site(n, wrap_next(b.i, n), b.j);
    lemma_site(n, b.i, wrap_next(b.j, n));
}

/// The representatives are positions of the grid, as many as it has sites.
pub proof fn lemma_clusters_range(n: int, bonds: Seq<Bond>)
    requires
        n >= 1,
        forall|q: int| 0 <= q < bonds.len() ==> (#[trigger] bonds[q]).on_lattice(n),
    ensures
        clusters(n, bonds).len() == n * n,
        forall|x: int|
            0 <= x < n * n ==> 0 <= (#[trigger] clusters(n, bonds)[x]) < n * n,
    decreases bonds.len(),
{
    assert(n * n >= 0) by (nonlinear_arith);
    if bonds.len() > 0 {
        lemma_clusters_range(n, bonds.drop_last());
        lemma_bond_ends(n, bonds.last());
    }
}

/// Clusters hold equal spins: where every activated bond joins two equal
/// spins, two sites with one representative have one spin, and every site
/// has the spin of its representative.
pub proof fn lemma_clusters_equal_spins(spins: Seq<i8>, n: int, bonds: Seq<Bond>)
    requires
        grid_wf(spins, n),
        forall|q: int| 0 <= q < bonds.len() ==> (#[trigger] bonds[q]).joins_equal(spins, n),
    ensures
        forall|x: int|
            0 <= x < n * n ==> spins[#[trigger] clusters(n, bonds)[x]] == spins[x],
    decreases bonds.len(),
{
    if bonds.len() > 0 {
        let rest = bonds.drop_last();
        let b = bonds.last();
        lemma_clusters_equal_spins(spins, n, rest);
        lemma_clusters_range(n, rest);
        lemma_bond_ends(n, b);
        let before = clusters(n, rest);
        assert forall|x: int| 0 <= x < n * n implies spins[#[trigger] clusters(n, bonds)[x]]
            == spins[x] by {
            assert(spins[before[x]] == spins[x]);
            assert(spins[before[b.from(n)]] == spins[b.from(n)]);
            assert(spins[before[b.to(n)]] == spins[b.to(n)]);
        }
    }
}

/// The two ends of an activated bond share a representative.
pub proof fn lemma_bond_joins(n: int, bonds: Seq<Bond>, q: int)
    requires
        n >= 1,
        forall|p: int| 0 <= p < bonds.len() ==> (#[trigger] bonds[p]).on_lattice(n),
        0 <= q < bonds.len(),
    ensures
        clusters(n, bonds)[bonds[q].from(n)] == clusters(n, bonds)[bonds[q].to(n)],
    decreases bonds.len(),
{
    let rest = bonds.drop_last();
    lemma_clusters_range(n, rest);
    lemma_bond_ends(n, bonds.last());
    lemma_bond_ends(n, bonds[q]);
    if q < bonds.len() - 1 {
        lemma_bond_joins(n, rest, q);
    }
}

/// With every bond of a uniform grid activated, the whole lattice is one
/// cluster.
pub proof fn lemma_all_bonds_one_cluster(n: int, bonds: Seq<Bond>)
    requires
        n >= 1,
        forall|p: int| 0 <= p < bonds.len() ==> (#[trigger] bonds[p]).on_lattice(n),
        forall|i: int, j: int, down: bool|
            0 <= i < n && 0 <= j < n ==> #[trigger] bonds.contains(bond_of(i, j, down)),
    ensures
        forall|i: int, j: int|
            0 <= i < n && 0 <= j < n ==> clusters(n, bonds)[#[trigger] site(n, i, j)]
                == clusters(n, bonds)[site(n, 0, 0)],
{
    assert forall|i: int, j: int| 0 <= i < n && 0 <= j < n implies clusters(
        n,
        bonds,
    )[#[trigger] site(n, i, j)] == clusters(n, bonds)[site(n, 0, 0)] by {
        lemma_one_cluster_upto(n, bonds, i, j);
    }
}

proof fn lemma_one_cluster_upto(n: int, bonds: Seq<Bond>, i: int, j: int)
    requires
        n >= 1,
        forall|p: int| 0 <= p < bonds.len() ==> (#[trigger] bonds[p]).on_lattice(n),
        forall|i: int, j: int, down: bool|
            0 <= i < n && 0 <= j < n ==> #[trigger] bonds.contains(bond_of(i, j, down)),
        0 <= i < n,
        0 <= j < n,
    ensures
        clusters(n, bonds)[site(n, i, j)] == clusters(n, bonds)[site(n, 0, 0)],
    decreases i + j,
{
    if j > 0 {
        lemma_one_cluster_upto(n, bonds, i, j - 1);
        let b = bond_of(i, j - 1, false);
        assert(bonds.contains(b));
        let q = choose|q: int| 0 <= q < bonds.len() && bonds[q] == b;
        lemma_bond_joins(n, bonds, q);
        lemma_wrap(j - 1, n);
    } else if i > 0 {
        lemma_one_cluster_upto(n, bonds, i - 1, j);
        let b = bond_of(i - 1, j, true);
        assert(bonds.contains(b));
        let q = choose|q: int| 0 <= q < bonds.len() && bonds[q] == b;
        lemma_bond_joins(n, bonds, q);
        lemma_wrap(i - 1, n);
    }
}

/// The bonds that are activated among those owned by the first `upto`
/// sites, in row-major order of their owners, downward before rightward:
/// a bond is activated where its entry in `down` or in `right`, at the
/// position of its owner, says so and it joins two equal spins.
pub open spec fn active_bonds(
    spins: Seq<i8>,
    n: int,
    down: Seq<bool>,
    right: Seq<bool>,
    upto: int,
) -> Seq<Bond>
    decreases upto,
{
    if upto <= 0 {
        Seq::empty()
    } else {
        let k = upto - 1;
        let below = bond_of(k / n, k % n, true);
        let beside = bond_of(k / n, k % n, false);
        let rest = active_bonds(spins, n, down, right, k);
        let first = if down[k] && below.joins_equal(spins, n) {
            rest.push(below)
        } else {
            rest
        };
        if right[k] && beside.joins_equal(spins, n) {
            first.push(beside)
        } else {
            first
        }
    }
}

/// Whether the table entry of a bond says that it is activated.
pub open spec fn is_open(n: int, down: Seq<bool>, right: Seq<bool>, b: Bond) -> bool {
    if b.down {
        down[b.from(n)]
    } else {
        right[b.from(n)]
    }
}

/// The activated bonds are exactly the bonds, owned by one of the first
/// `upto` sites, that join two equal spins and that the tables open.
pub proof fn lemma_active_bonds(
    spins: Seq<i8>,
    n: int,
    down: Seq<bool>,
    right: Seq<bool>,
    upto: int,
)
    requires
        n >= 1,
        0 <= upto <= n * n,
    ensures
        forall|q: int|
            0 <= q < active_bonds(spins, n, down, right, upto).len() ==> {
                let b = #[trigger] active_bonds(spins, n, down, right, upto)[q];
                b.joins_equal(spins, n) && is_open(n, down, right, b) && b.from(n) < upto
            },
        forall|i: int, j: int, d: bool|
            0 <= i < n && 0 <= j < n && site(n, i, j) < upto && bond_of(i, j, d).joins_equal(
                spins,
                n,
            ) && is_open(n, down, right, bond_of(i, j, d)) ==> #[trigger] active_bonds(
                spins,
                n,
                down,
                right,
                upto,
            ).contains(bond_of(i, j, d)),
    decreases upto,
{
    if upto > 0 {
        let k = upto - 1;
        let below = bond_of(k / n, k % n, true);
        let beside = bond_of(k / n, k % n, false);
        let rest = active_bonds(spins, n, down, right, k);
        let first = if down[k] && below.joins_equal(spins, n) {
            rest.push(below)
        } else {
            rest
        };
        let all = active_bonds(spins, n, down, right, upto);
        lemma_active_bonds(spins, n, down, right, k);
        lemma_site_covers(n, k);
        assert forall|q: int| 0 <= q < all.len() implies {
            let b = #[trigger] all[q];
            b.joins_equal(spins, n) && is_open(n, down, right, b) && b.from(n) < upto
        } by {
            if q < rest.len() {
                assert(all[q] == rest[q]);
            }
        }
        assert forall|i: int, j: int, d: bool|
            0 <= i < n && 0 <= j < n && site(n, i, j) < upto && bond_of(i, j, d).joins_equal(
                spins,
                n,
            ) && is_open(n, down, right, bond_of(i, j, d)) implies #[trigger] all.contains(
            bond_of(i, j, d),
        ) by {
            let b = bond_of(i, j, d);
            if site(n, i, j) < k {
                assert(rest.contains(b));
                let q = choose|q: int| 0 <= q < rest.len() && rest[q] == b;
                assert(first[q] == b);
                assert(all[q] == b);
            } else {
                lemma_site_coords(n, i, j);
                if d {
                    assert(first[rest.len() as int] == b);
                    assert(all[rest.len() as int] == b);
                } else {
                    assert(all[all.len() - 1] == b);
                }
            }
        }
    }
}

} // verus!
