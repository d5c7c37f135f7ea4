//! Growth of a single Wolff cluster from a seed site.

use vstd::prelude::*;
use rand::rngs::SmallRng;
use crate::lattice::{
    site, grid_wf, is_spin, neighbor, on_even_sublattice, sublattice_flipped, lemma_site,
    lemma_site_covers, site_index, neighbor_index,
};
use crate::rates::{Rates, SCALE};
use crate::random::random_below;

verus! {

/// The decisions of one cluster's growth, made beforehand: `add[k][d]`
/// says whether the site at position `k` adds its neighbour in direction
/// `d`, and `tie[k]` whether the site at position `k` ties the cluster
/// to the ghost spin.
pub struct Script {
    pub add: Vec<[bool; 4]>,
    pub tie: Vec<bool>,
}

/// Where the decisions of a cluster's growth come from.
pub enum Chance {
    /// Each is drawn afresh when it is needed, against its threshold.
    Drawn,
    /// Each is read from a table.
    Given { add: Seq<[bool; 4]>, tie: Seq<bool> },
}

impl Chance {
    /// Whether the site at position `k` can come to add its neighbour in
    /// direction `d`.
    pub open spec fn may_add(self, rates: Rates, k: int, d: int) -> bool {
        match self {
            Chance::Drawn => rates.wolff_add > 0,
            Chance::Given { add, tie } => add[k][d],
        }
    }

    /// Whether the site at position `k` is bound to add its neighbour in
    /// direction `d`.
    pub open spec fn must_add(self, rates: Rates, k: int, d: int) -> bool {
        match self {
            Chance::Drawn => rates.wolff_add >= SCALE,
            Chance::Given { add, tie } => add[k][d],
        }
    }

    /// Whether the site at position `k` can come to tie the cluster to the
    /// ghost spin.
    pub open spec fn may_tie(self, rates: Rates, k: int) -> bool {
        match self {
            Chance::Drawn => rates.wolff_ghost > 0,
            Chance::Given { add, tie } => tie[k],
        }
    }

    /// Whether the site at position `k` is bound to tie the cluster to the
    /// ghost spin.
    pub open spec fn must_tie(self, rates: Rates, k: int) -> bool {
        match self {
            Chance::Drawn => rates.wolff_ghost >= SCALE,
            Chance::Given { add, tie } => tie[k],
        }
    }
}

/// The decisions that growth takes from `script`, or draws where there is
/// none.
pub open spec fn chance_of(script: Option<&Script>) -> Chance {
    match script {
        Some(s) => Chance::Given { add: s.add@, tie: s.tie@ },
        None => Chance::Drawn,
    }
}

/// The position of the site with the given row and column.
pub open spec fn position(n: int, c: (usize, usize)) -> int {
    site(n, c.0 as int, c.1 as int)
}

/// The site lies on the lattice of side `n`.
pub open spec fn on_lattice(n: int, c: (usize, usize)) -> bool {
    c.0 < n && c.1 < n
}

/// The site `to` is the neighbour of the site `from` in direction `d`.
pub open spec fn steps_to(n: int, from: (usize, usize), d: int, to: (usize, usize)) -> bool {
    (to.0 as int, to.1 as int) == neighbor(n, from.0 as int, from.1 as int, d)
}

/// The position of the neighbour of the site `from` in direction `d`.
pub open spec fn toward(n: int, from: (usize, usize), d: int) -> int {
    let to = neighbor(n, from.0 as int, from.1 as int, d);
    site(n, to.0, to.1)
}

/// The grid with every spin of the even sublattice negated. An
/// antiferromagnet on the one is a ferromagnet on the other.
pub open spec fn staggered(spins: Seq<i8>, n: int) -> Seq<i8> {
    Seq::new(
        spins.len(),
        |k: int|
            if on_even_sublattice(k / n, k % n) {
                (-spins[k]) as i8
            } else {
                spins[k]
            },
    )
}

/// The site at place `m` of `cluster` is the neighbour, in some
/// direction, of a site at an earlier place that could add it.
pub open spec fn grew_by(
    n: int,
    rates: Rates,
    chance: Chance,
    cluster: Seq<(usize, usize)>,
    m: int,
) -> bool {
    exists|p: int, d: int|
        0 <= p < m && 0 <= d < 4 && #[trigger] steps_to(n, cluster[p], d, cluster[m])
            && chance.may_add(rates, position(n, cluster[p]), d)
}

/// `cluster` lists the sites of a cluster in the order in which it grew:
/// sites of the lattice, no site twice, all with the spin of the first,
/// and each but the first added by one that comes before it.
pub open spec fn is_grown(
    working: Seq<i8>,
    n: int,
    rates: Rates,
    chance: Chance,
    cluster: Seq<(usize, usize)>,
) -> bool {
    &&& cluster.len() >= 1
    &&& forall|m: int| 0 <= m < cluster.len() ==> on_lattice(n, #[trigger] cluster[m])
    &&& forall|m: int|
        0 <= m < cluster.len() ==> working[position(n, #[trigger] cluster[m])]
            == working[position(n, cluster[0])]
    &&& forall|m: int, p: int|
        0 <= m < p < cluster.len() ==> #[trigger] cluster[m] != #[trigger] cluster[p]
    &&& forall|m: int|
        1 <= m < cluster.len() ==> #[trigger] grew_by(n, rates, chance, cluster, m)
}

/// Whether one of the first `done` sites of `cluster` lies at position
/// `k`.
pub open spec fn holds_position(n: int, cluster: Seq<(usize, usize)>, done: int, k: int) -> bool {
    exists|m: int| 0 <= m < done && position(n, #[trigger] cluster[m]) == k
}

/// The neighbour in direction `d` of the site at place `m` of `cluster`
/// belongs to the cluster, if it has the spin of the cluster.
pub open spec fn absorbs(
    working: Seq<i8>,
    n: int,
    cluster: Seq<(usize, usize)>,
    m: int,
    d: int,
) -> bool {
    working[toward(n, cluster[m], d)] == working[position(n, cluster[0])] ==> holds_position(
        n,
        cluster,
        cluster.len() as int,
        toward(n, cluster[m], d),
    )
}

/// Each of the first `done` sites of `cluster` has added every neighbour
/// of the cluster's spin that it was bound to add.
pub open spec fn is_complete_upto(
    working: Seq<i8>,
    n: int,
    rates: Rates,
    chance: Chance,
    cluster: Seq<(usize, usize)>,
    done: int,
) -> bool {
    forall|m: int, d: int|
        0 <= m < done && 0 <= d < 4 && chance.must_add(rates, position(n, cluster[m]), d)
            ==> #[trigger] absorbs(working, n, cluster, m, d)
}

/// Whether the site's spin points along the field. `working` is the grid
/// on which the cluster grows: the staggered one for an antiferromagnet,
/// so that there the spin on the even sublattice is read negated.
pub open spec fn aligned(working: Seq<i8>, n: int, rates: Rates, c: (usize, usize)) -> bool {
    let s = working[position(n, c)];
    let spin = if rates.antiferromagnetic && on_even_sublattice(c.0 as int, c.1 as int) {
        -s
    } else {
        s as int
    };
    spin == (if rates.field_up { 1int } else { -1int })
}

/// The site points along the field and can come to tie the cluster.
pub open spec fn could_tie(
    working: Seq<i8>,
    n: int,
    rates: Rates,
    chance: Chance,
    c: (usize, usize),
) -> bool {
    aligned(working, n, rates, c) && chance.may_tie(rates, position(n, c))
}

/// The site points along the field and is bound to tie the cluster.
pub open spec fn would_tie(
    working: Seq<i8>,
    n: int,
    rates: Rates,
    chance: Chance,
    c: (usize, usize),
) -> bool {
    aligned(working, n, rates, c) && chance.must_tie(rates, position(n, c))
}

/// Whether a cluster of which the first `done` sites have been visited may
/// be tied to the ghost spin: only through a visited site that could tie
/// it, and certainly if a visited site was bound to.
pub open spec fn tie_allowed(
    working: Seq<i8>,
    n: int,
    rates: Rates,
    chance: Chance,
    cluster: Seq<(usize, usize)>,
    done: int,
    tied: bool,
) -> bool {
    &&& tied ==> exists|m: int|
        0 <= m < done && could_tie(working, n, rates, chance, #[trigger] cluster[m])
    &&& forall|m: int|
        0 <= m < done && would_tie(working, n, rates, chance, #[trigger] cluster[m]) ==> tied
}

/// The grid with the spin of each of the first `done` sites of `cluster`
/// negated.
pub open spec fn negated_upto(spins: Seq<i8>, n: int, cluster: Seq<(usize, usize)>, done: int) -> Seq<
    i8,
> {
    Seq::new(
        spins.len(),
        |k: int|
            if holds_position(n, cluster, done, k) {
                (-spins[k]) as i8
            } else {
                spins[k]
            },
    )
}

/// The grid with the spin of every site of `cluster` negated.
pub open spec fn with_sites_negated(spins: Seq<i8>, n: int, cluster: Seq<(usize, usize)>) -> Seq<
    i8,
> {
    negated_upto(spins, n, cluster, cluster.len() as int)
}

/// Negating the even sublattice gives the staggered grid.
pub proof fn lemma_staggered(before: Seq<i8>, after: Seq<i8>, n: int)
    requires
        grid_wf(before, n),
        sublattice_flipped(before, after, n),
    ensures
        after == staggered(before, n),
{
    assert forall|k: int| 0 <= k < after.len() implies after[k] == staggered(before, n)[k] by {
        lemma_site_covers(n, k);
        assert(after[site(n, k / n, k % n)] == after[k]);
    }
    assert(after =~= staggered(before, n));
}

/// The staggered grid is a grid; staggering it again gives the grid back;
/// and at a pair of coordinates it holds the spin, negated on the even
/// sublattice.
pub proof fn lemma_staggered_grid(spins: Seq<i8>, n: int)
    requires
        grid_wf(spins, n),
    ensures
        grid_wf(staggered(spins, n), n),
        staggered(staggered(spins, n), n) == spins,
        forall|i: int, j: int|
            0 <= i < n && 0 <= j < n ==> staggered(spins, n)[#[trigger] site(n, i, j)] == (
            if on_even_sublattice(i, j) {
                (-spins[site(n, i, j)]) as i8
            } else {
                spins[site(n, i, j)]
            }),
{
    let once = staggered(spins, n);
    assert forall|k: int| 0 <= k < once.len() implies is_spin(#[trigger] once[k]) by {
        assert(is_spin(spins[k]));
    }
    assert forall|k: int| 0 <= k < spins.len() implies staggered(once, n)[k] == spins[k] by {
        assert(is_spin(spins[k]));
    }
    assert(staggered(once, n) =~= spins);
    assert forall|i: int, j: int| 0 <= i < n && 0 <= j < n implies once[#[trigger] site(n, i, j)]
        == (if on_even_sublattice(i, j) {
        (-spins[site(n, i, j)]) as i8
    } else {
        spins[site(n, i, j)]
    }) by {
        lemma_site(n, i, j);
        let k = site(n, i, j);
        lemma_site_covers(n, k);
        assert(site(n, k / n, k % n) == site(n, i, j));
    }
}

/// The bookkeeping of a growing cluster: the marks and the set of
/// positions name exactly the sites of the cluster.
spec fn growing(
    working: Seq<i8>,
    n: int,
    rates: Rates,
    chance: Chance,
    cluster: Seq<(usize, usize)>,
    visited: Seq<bool>,
    members: Set<int>,
) -> bool {
    &&& grid_wf(working, n)
    &&& is_grown(working, n, rates, chance, cluster)
    &&& visited.len() == n * n
    &&& members.finite()
    &&& members.len() == cluster.len()
    &&& forall|k: int| #[trigger] members.contains(k) ==> 0 <= k < n * n
    &&& forall|k: int| 0 <= k < n * n ==> (#[trigger] visited[k] <==> members.contains(k))
    &&& forall|m: int|
        0 <= m < cluster.len() ==> members.contains(position(n, #[trigger] cluster[m]))
    &&& forall|k: int| #[trigger]
        members.contains(k) ==> holds_position(n, cluster, cluster.len() as int, k)
}

/// A growing cluster has no more sites than the lattice.
proof fn lemma_growing_bound(
    working: Seq<i8>,
    n: int,
    rates: Rates,
    chance: Chance,
    cluster: Seq<(usize, usize)>,
    visited: Seq<bool>,
    members: Set<int>,
)
    requires
        growing(working, n, rates, chance, cluster, visited, members),
    ensures
        cluster.len() <= n * n,
{
    vstd::set_lib::lemma_int_range(0, n * n);
    assert(members.subset_of(vstd::set_lib::set_int_range(0, n * n)));
    vstd::set_lib::lemma_len_subset(members, vstd::set_lib::set_int_range(0, n * n));
}

/// Adding an unmarked neighbour of equal spin, which a site of the cluster
/// could add, leaves a growing cluster.
proof fn lemma_growing_push(
    working: Seq<i8>,
    n: int,
    rates: Rates,
    chance: Chance,
    cluster: Seq<(usize, usize)>,
    visited: Seq<bool>,
    members: Set<int>,
    from: int,
    d: int,
    c: (usize, usize),
)
    requires
        growing(working, n, rates, chance, cluster, visited, members),
        0 <= from < cluster.len(),
        0 <= d < 4,
        on_lattice(n, c),
        steps_to(n, cluster[from], d, c),
        chance.may_add(rates, position(n, cluster[from]), d),
        working[position(n, c)] == working[position(n, cluster[0])],
        !visited[position(n, c)],
    ensures
        growing(
            working,
            n,
            rates,
            chance,
            cluster.push(c),
            visited.update(position(n, c), true),
            members.insert(position(n, c)),
        ),
{
    let k = position(n, c);
    let grown = cluster.push(c);
    let marks = visited.update(k, true);
    let set = members.insert(k);
    lemma_site(n, c.0 as int, c.1 as int);
    assert(!members.contains(k));
    assert forall|m: int| 0 <= m < grown.len() implies on_lattice(n, #[trigger] grown[m]) by {
        if m < cluster.len() {
            assert(grown[m] == cluster[m]);
        }
    }
    assert forall|m: int| 0 <= m < grown.len() implies working[position(n, #[trigger] grown[m])]
        == working[position(n, grown[0])] by {
        if m < cluster.len() {
            assert(grown[m] == cluster[m]);
        }
    }
    assert forall|m: int, p: int| 0 <= m < p < grown.len() implies #[trigger] grown[m]
        != #[trigger] grown[p] by {
        assert(grown[m] == cluster[m]);
        if p < cluster.len() {
            assert(grown[p] == cluster[p]);
        } else {
            assert(members.contains(position(n, cluster[m])));
        }
    }
    assert forall|m: int| 1 <= m < grown.len() implies #[trigger] grew_by(
        n,
        rates,
        chance,
        grown,
        m,
    ) by {
        if m < cluster.len() {
            assert(grew_by(n, rates, chance, cluster, m));
            let (p, e) = choose|p: int, e: int|
                0 <= p < m && 0 <= e < 4 && #[trigger] steps_to(n, cluster[p], e, cluster[m])
                    && chance.may_add(rates, position(n, cluster[p]), e);
            assert(grown[p] == cluster[p] && grown[m] == cluster[m]);
            assert(steps_to(n, grown[p], e, grown[m]));
        } else {
            assert(grown[from] == cluster[from] && grown[m] == c);
            assert(steps_to(n, grown[from], d, grown[m]));
        }
    }
    assert forall|m: int| 0 <= m < grown.len() implies set.contains(
        position(n, #[trigger] grown[m]),
    ) by {
        if m < cluster.len() {
            assert(grown[m] == cluster[m]);
        }
    }
    assert forall|q: int| #[trigger] set.contains(q) implies holds_position(
        n,
        grown,
        grown.len() as int,
        q,
    ) by {
        if q == k {
            assert(position(n, grown[cluster.len() as int]) == q);
        } else {
            assert(holds_position(n, cluster, cluster.len() as int, q));
            let m = choose|m: int|
                0 <= m < cluster.len() && position(n, #[trigger] cluster[m]) == q;
            assert(position(n, grown[m]) == q);
        }
    }
}

/// What holds of a longer cluster held of the shorter one: the sites that
/// it had are still there, in their places.
proof fn lemma_push_keeps(
    working: Seq<i8>,
    n: int,
    rates: Rates,
    chance: Chance,
    cluster: Seq<(usize, usize)>,
    done: int,
    tied: bool,
    c: (usize, usize),
)
    requires
        0 <= done <= cluster.len(),
        cluster.len() >= 1,
    ensures
        is_complete_upto(working, n, rates, chance, cluster, done) ==> is_complete_upto(
            working,
            n,
            rates,
            chance,
            cluster.push(c),
            done,
        ),
        tie_allowed(working, n, rates, chance, cluster, done, tied) ==> tie_allowed(
            working,
            n,
            rates,
            chance,
            cluster.push(c),
            done,
            tied,
        ),
        forall|k: int|
            holds_position(n, cluster, cluster.len() as int, k) ==> #[trigger] holds_position(
                n,
                cluster.push(c),
                cluster.push(c).len() as int,
                k,
            ),
{
    let grown = cluster.push(c);
    assert forall|k: int| holds_position(n, cluster, cluster.len() as int, k) implies #[trigger] holds_position(
        n,
        grown,
        grown.len() as int,
        k,
    ) by {
        let m = choose|m: int| 0 <= m < cluster.len() && position(n, #[trigger] cluster[m]) == k;
        assert(position(n, grown[m]) == k);
    }
    if is_complete_upto(working, n, rates, chance, cluster, done) {
        assert forall|m: int, d: int|
            0 <= m < done && 0 <= d < 4 && chance.must_add(
                rates,
                position(n, grown[m]),
                d,
            ) implies #[trigger] absorbs(working, n, grown, m, d) by {
            assert(grown[m] == cluster[m] && grown[0] == cluster[0]);
            assert(absorbs(working, n, cluster, m, d));
        }
    }
    if tie_allowed(working, n, rates, chance, cluster, done, tied) {
        if tied {
            let m = choose|m: int|
                0 <= m < done && could_tie(working, n, rates, chance, #[trigger] cluster[m]);
            assert(grown[m] == cluster[m]);
        }
        assert forall|m: int|
            0 <= m < done && would_tie(
                working,
                n,
                rates,
                chance,
                #[trigger] grown[m],
            ) implies tied by {
            assert(grown[m] == cluster[m]);
        }
    }
}

/// Grows one cluster from `seed` on the grid `working`, breadth first. A
/// visited site adds each neighbour of the seed's spin that the cluster
/// does not hold yet if the decision on it says so; and, while the
/// cluster is not tied to the ghost spin, a visited site that points along
/// the field ties it if the decision on it says so. A decision is read
/// from `script`, or else drawn: growth on a draw below the growth
/// threshold, a tie on a draw below the ghost threshold. Returns the
/// cluster in the order in which it grew, and whether it is tied.
pub(crate) fn grow_cluster(
    working: &[i8],
    n: usize,
    rates: &Rates,
    rng: &mut SmallRng,
    script: Option<&Script>,
    seed: (usize, usize),
) -> (r: (Vec<(usize, usize)>, bool))
    requires
        grid_wf(working@, n as int),
        on_lattice(n as int, seed),
        script matches Some(s) ==> s.add@.len() == n * n && s.tie@.len() == n * n,
    ensures
        is_grown(working@, n as int, *rates, chance_of(script), r.0@),
        r.0@[0] == seed,
        is_complete_upto(
            working@,
            n as int,
            *rates,
            chance_of(script),
            r.0@,
            r.0@.len() as int,
        ),
        tie_allowed(working@, n as int, *rates, chance_of(script), r.0@, r.0@.len() as int, r.1),
{
    let ghost chance = chance_of(script);
    let count = working.len();
    let seed_index = site_index(n, seed.0, seed.1);
    let seed_spin: i8 = working[seed_index];
    let ghost_spin: i8 = if rates.field_up { 1 } else { -1 };
    let mut visited: Vec<bool> = vec![false; count];
    visited[seed_index] = true;
    let mut cluster: Vec<(usize, usize)> = Vec::new();
    cluster.push(seed);
    let ghost mut members: Set<int> = Set::empty().insert(seed_index as int);
    let mut tied = false;
    let mut head: usize = 0;
    proof {
        lemma_site(n as int, seed.0 as int, seed.1 as int);
        assert(position(n as int, cluster@[0]) == seed_index);
        assert forall|k: int| #[trigger] members.contains(k) implies holds_position(
            n as int,
            cluster@,
            cluster@.len() as int,
            k,
        ) by {
            assert(position(n as int, cluster@[0]) == k);
        }
    }
    while head < cluster.len()
        invariant
            growing(working@, n as int, *rates, chance, cluster@, visited@, members),
            chance == chance_of(script),
            script matches Some(s) ==> s.add@.len() == n * n && s.tie@.len() == n * n,
            count == n * n,
            head <= cluster@.len(),
            cluster@[0] == seed,
            seed_spin == working@[position(n as int, seed)],
            ghost_spin == (if rates.field_up { 1i8 } else { -1i8 }),
            is_complete_upto(working@, n as int, *rates, chance, cluster@, head as int),
            tie_allowed(working@, n as int, *rates, chance, cluster@, head as int, tied),
        decreases count - head,
    {
        proof {
            lemma_growing_bound(working@, n as int, *rates, chance, cluster@, visited@, members);
        }
        let here: (usize, usize) = cluster[head];
        let i = here.0;
        let j = here.1;
        proof {
            assert(on_lattice(n as int, cluster@[head as int]));
            lemma_site(n as int, i as int, j as int);
            assert(i + j <= n * n) by (nonlinear_arith)
                requires
                    0 <= i < n,
                    0 <= j < n,
            ;
        }
        let here_index = site_index(n, i, j);
        let s: i8 = working[here_index];
        let spin: i8 = if rates.antiferromagnetic && (i + j) % 2 == 0 {
            -s
        } else {
            s
        };
        let ghost tied_before = tied;
        if !tied && spin == ghost_spin {
            let fire = match script {
                Some(s) => s.tie[here_index],
                None => random_below(rng, SCALE) < rates.wolff_ghost,
            };
            if fire {
                tied = true;
            }
        }
        proof {
            assert(aligned(working@, n as int, *rates, cluster@[head as int]) <==> spin
                == ghost_spin);
            assert(tie_allowed(working@, n as int, *rates, chance, cluster@, head + 1, tied)) by {
                if tied_before {
                    let m = choose|m: int|
                        0 <= m < head && could_tie(
                            working@,
                            n as int,
                            *rates,
                            chance,
                            #[trigger] cluster@[m],
                        );
                    assert(could_tie(working@, n as int, *rates, chance, cluster@[m]));
                } else if tied {
                    assert(could_tie(working@, n as int, *rates, chance, cluster@[head as int]));
                }
            }
        }
        let mut dir: u8 = 0;
        while dir < 4
            invariant
                growing(working@, n as int, *rates, chance, cluster@, visited@, members),
                chance == chance_of(script),
                script matches Some(s) ==> s.add@.len() == n * n && s.tie@.len() == n * n,
                count == n * n,
                dir <= 4,
                head < cluster@.len(),
                cluster@[head as int] == here,
                here == (i, j),
                here_index == position(n as int, here),
                i < n,
                j < n,
                cluster@[0] == seed,
                seed_spin == working@[position(n as int, seed)],
                is_complete_upto(working@, n as int, *rates, chance, cluster@, head as int),
                forall|d: int|
                    0 <= d < dir && chance.must_add(*rates, here_index as int, d) && working@[(
                    #[trigger] toward(n as int, here, d))] == seed_spin ==> members.contains(
                        toward(n as int, here, d),
                    ),
                tie_allowed(working@, n as int, *rates, chance, cluster@, head + 1, tied),
            decreases 4 - dir,
        {
            let next = neighbor_index(n, i, j, dir);
            let k = site_index(n, next.0, next.1);
            proof {
                lemma_site(n as int, next.0 as int, next.1 as int);
                assert(k == toward(n as int, here, dir as int));
            }
            if !visited[k] && working[k] == seed_spin {
                let fire = match script {
                    Some(s) => s.add[here_index][dir as usize],
                    None => random_below(rng, SCALE) < rates.wolff_add,
                };
                if fire {
                    proof {
                        assert(steps_to(n as int, cluster@[head as int], dir as int, next));
                        lemma_growing_push(
                            working@,
                            n as int,
                            *rates,
                            chance,
                            cluster@,
                            visited@,
                            members,
                            head as int,
                            dir as int,
                            next,
                        );
                        lemma_push_keeps(
                            working@,
                            n as int,
                            *rates,
                            chance,
                            cluster@,
                            head as int,
                            tied,
                            next,
                        );
                        lemma_push_keeps(
                            working@,
                            n as int,
                            *rates,
                            chance,
                            cluster@,
                            head + 1,
                            tied,
                            next,
                        );
                        members = members.insert(k as int);
                    }
                    visited[k] = true;
                    cluster.push(next);
                }
            }
            dir = dir + 1;
        }
        proof {
            assert forall|m: int, d: int|
                0 <= m < head + 1 && 0 <= d < 4 && chance.must_add(
                    *rates,
                    position(n as int, cluster@[m]),
                    d,
                ) implies #[trigger] absorbs(working@, n as int, cluster@, m, d) by {
                if m == head {
                    if working@[toward(n as int, here, d)] == seed_spin {
                        assert(members.contains(toward(n as int, here, d)));
                    }
                } else {
                    assert(absorbs(working@, n as int, cluster@, m, d));
                }
            }
        }
        head = head + 1;
    }
    (cluster, tied)
}

/// Negating a cluster on the staggered grid, and staggering the result,
/// negates the cluster on the grid itself.
pub proof fn lemma_negate_staggered(spins: Seq<i8>, n: int, cluster: Seq<(usize, usize)>)
    requires
        grid_wf(spins, n),
    ensures
        staggered(with_sites_negated(staggered(spins, n), n, cluster), n) == with_sites_negated(
            spins,
            n,
            cluster,
        ),
{
    let left = staggered(with_sites_negated(staggered(spins, n), n, cluster), n);
    let right = with_sites_negated(spins, n, cluster);
    assert forall|k: int| 0 <= k < spins.len() implies left[k] == right[k] by {
        assert(is_spin(spins[k]));
    }
    assert(left =~= right);
}

/// Negates the spin of every site of `cluster`.
pub(crate) fn negate_sites(spins: &mut [i8], n: usize, cluster: &Vec<(usize, usize)>)
    requires
        grid_wf(old(spins)@, n as int),
        forall|m: int| 0 <= m < cluster@.len() ==> on_lattice(n as int, #[trigger] cluster@[m]),
        forall|m: int, p: int|
            0 <= m < p < cluster@.len() ==> #[trigger] cluster@[m] != #[trigger] cluster@[p],
    ensures
        final(spins)@ == with_sites_negated(old(spins)@, n as int, cluster@),
        grid_wf(final(spins)@, n as int),
{
    let len = spins.len();
    let mut m: usize = 0;
    while m < cluster.len()
        invariant
            m <= cluster@.len(),
            grid_wf(old(spins)@, n as int),
            n * n <= usize::MAX,
            forall|q: int| 0 <= q < cluster@.len() ==> on_lattice(n as int, #[trigger] cluster@[q]),
            forall|q: int, p: int|
                0 <= q < p < cluster@.len() ==> #[trigger] cluster@[q] != #[trigger] cluster@[p],
            spins@ == negated_upto(old(spins)@, n as int, cluster@, m as int),
        decreases cluster@.len() - m,
    {
        let here: (usize, usize) = cluster[m];
        proof {
            assert(on_lattice(n as int, cluster@[m as int]));
            lemma_site(n as int, here.0 as int, here.1 as int);
        }
        let k = site_index(n, here.0, here.1);
        let ghost before = spins@;
        proof {
            if holds_position(n as int, cluster@, m as int, k as int) {
                let q = choose|q: int|
                    0 <= q < m && position(n as int, #[trigger] cluster@[q]) == k;
                assert(on_lattice(n as int, cluster@[q]));
                assert(cluster@[q] == cluster@[m as int]);
            }
            assert(is_spin(old(spins)@[k as int]));
        }
        let s: i8 = spins[k];
        spins[k] = -s;
        proof {
            assert forall|x: int| 0 <= x < spins@.len() implies spins@[x] == negated_upto(
                old(spins)@,
                n as int,
                cluster@,
                m + 1,
            )[x] by {
                if holds_position(n as int, cluster@, m + 1, x) {
                    let q = choose|q: int|
                        0 <= q < m + 1 && position(n as int, #[trigger] cluster@[q]) == x;
                    if q < m {
                        assert(holds_position(n as int, cluster@, m as int, x));
                    }
                } else {
                    if holds_position(n as int, cluster@, m as int, x) {
                        let q = choose|q: int|
                            0 <= q < m && position(n as int, #[trigger] cluster@[q]) == x;
                        assert(position(n as int, cluster@[q]) == x);
                    }
                    assert(position(n as int, cluster@[m as int]) == k);
                }
            }
            assert(spins@ =~= negated_upto(old(spins)@, n as int, cluster@, m + 1));
        }
        m = m + 1;
    }
    proof {
        assert forall|x: int| 0 <= x < spins@.len() implies is_spin(#[trigger] spins@[x]) by {
            assert(is_spin(old(spins)@[x]));
        }
    }
}

} // verus!
