//! How the two sums that make up the energy respond when one spin is
//! negated, or when two adjacent spins trade places.

use vstd::prelude::*;
use crate::sums::{sum_to, lemma_sum_agree, lemma_sum_point, lemma_sum_bounds};
use crate::lattice::{
    wrap_next, wrap_prev, site, lemma_wrap, lemma_site, is_spin, grid_wf, spin_at, neighbor_sum_of,
    site_bonds, row_terms, grid_terms, bond_sum, spin_terms, spin_sum, lemma_spin_times,
    lemma_neighbors,
};

verus! {

/// The grid with the spin at position `k` negated.
pub open spec fn with_flip(spins: Seq<i8>, k: int) -> Seq<i8> {
    spins.update(k, (-spins[k]) as i8)
}

/// The grid with the spins at positions `k` and `m` exchanged.
pub open spec fn with_swap(spins: Seq<i8>, k: int, m: int) -> Seq<i8> {
    spins.update(k, spins[m]).update(m, spins[k])
}

/// Negating a spin gives a grid again.
pub proof fn lemma_flip_wf(spins: Seq<i8>, n: int, k: int)
    requires
        grid_wf(spins, n),
        0 <= k < spins.len(),
    ensures
        grid_wf(with_flip(spins, k), n),
{
    let t = with_flip(spins, k);
    assert forall|q: int| 0 <= q < t.len() implies is_spin(#[trigger] t[q]) by {
        assert(is_spin(spins[q]));
    }
}

/// The sum of the spins of a grid lies between minus and plus the number of
/// its sites.
pub proof fn lemma_spin_sum_bounds(spins: Seq<i8>)
    requires
        forall|k: int| 0 <= k < spins.len() ==> is_spin(#[trigger] spins[k]),
    ensures
        -spins.len() <= spin_sum(spins) <= spins.len(),
{
    let f = spin_terms(spins);
    assert forall|k: int| 0 <= k < spins.len() implies -1 <= #[trigger] f(k) <= 1 by {
        assert(is_spin(spins[k]));
    }
    lemma_sum_bounds(f, spins.len() as int, -1, 1);
}

/// The bond sum of a grid of side `n` lies between `-2 * n * n` and
/// `2 * n * n`.
pub proof fn lemma_bond_sum_bounds(spins: Seq<i8>, n: int)
    requires
        grid_wf(spins, n),
    ensures
        -2 * (n * n) <= bond_sum(spins, n) <= 2 * (n * n),
{
    let g = grid_terms(spins, n);
    assert forall|i: int| 0 <= i < n implies -2 * n <= #[trigger] g(i) <= 2 * n by {
        let f = row_terms(spins, n, i);
        assert forall|j: int| 0 <= j < n implies -2 <= #[trigger] f(j) <= 2 by {
            lemma_neighbors(spins, n, i, j);
        }
        lemma_sum_bounds(f, n, -2, 2);
    }
    lemma_sum_bounds(g, n, -2 * n, 2 * n);
    assert(n * (-2 * n) == -2 * (n * n) && n * (2 * n) == 2 * (n * n)) by (nonlinear_arith);
}

/// Negating the spin `s` at one position lowers the sum of the spins by
/// `2 * s`.
pub proof fn lemma_flip_spin_sum(spins: Seq<i8>, k: int)
    requires
        0 <= k < spins.len(),
        is_spin(spins[k]),
    ensures
        spin_sum(with_flip(spins, k)) == spin_sum(spins) - 2 * spins[k],
{
    lemma_sum_point(spin_terms(spins), spin_terms(with_flip(spins, k)), spins.len() as int, k);
}

/// Exchanging two spins leaves the sum of the spins as it was.
pub proof fn lemma_swap_spin_sum(spins: Seq<i8>, k: int, m: int)
    requires
        0 <= k < spins.len(),
        0 <= m < spins.len(),
    ensures
        spin_sum(with_swap(spins, k, m)) == spin_sum(spins),
{
    let mid = spins.update(k, spins[m]);
    let len = spins.len() as int;
    lemma_sum_point(spin_terms(spins), spin_terms(mid), len, k);
    lemma_sum_point(spin_terms(mid), spin_terms(with_swap(spins, k, m)), len, m);
}

/// On a lattice of side two or more, negating the spin `s` of a site whose
/// four neighbours sum to `S` lowers the bond sum by `2 * s * S`.
pub proof fn lemma_flip_bond_sum(spins: Seq<i8>, n: int, a: int, b: int)
    requires
        grid_wf(spins, n),
        n >= 2,
        0 <= a < n,
        0 <= b < n,
    ensures
        bond_sum(with_flip(spins, site(n, a, b)), n) == bond_sum(spins, n) - 2 * (spin_at(
            spins,
            n,
            a,
            b,
        ) * neighbor_sum_of(spins, n, a, b)),
{
    let k = site(n, a, b);
    let t = with_flip(spins, k);
    let u = wrap_prev(a, n);
    let l = wrap_prev(b, n);
    let d = wrap_next(a, n);
    let r = wrap_next(b, n);
    let s = spin_at(spins, n, a, b);
    lemma_wrap(a, n);
    lemma_wrap(b, n);
    lemma_wrap(u, n);
    lemma_wrap(l, n);
    lemma_site(n, a, b);
    lemma_neighbors(spins, n, a, b);
    lemma_flip_wf(spins, n, k);
    // What the flipped grid holds, site by site.
    assert forall|i: int, j: int| 0 <= i < n && 0 <= j < n implies #[trigger] spin_at(t, n, i, j)
        == (if i == a && j == b {
        -s
    } else {
        spin_at(spins, n, i, j)
    }) by {
        lemma_site(n, i, j);
    }
    // The bonds owned by a site change only at the site itself, at the one
    // above it and at the one to its left.
    assert forall|i: int, j: int| 0 <= i < n && 0 <= j < n implies #[trigger] site_bonds(
        t,
        n,
        i,
        j,
    ) == site_bonds(spins, n, i, j) + (if i == a && j == b {
        -2 * (s * (spin_at(spins, n, d, b) + spin_at(spins, n, a, r)))
    } else if i == a && j == l {
        -2 * (s * spin_at(spins, n, a, l))
    } else if i == u && j == b {
        -2 * (s * spin_at(spins, n, u, b))
    } else {
        0
    }) by {
        lemma_wrap(i, n);
        lemma_wrap(j, n);
        lemma_neighbors(spins, n, i, j);
        let x = spin_at(spins, n, i, j);
        let xt = spin_at(t, n, i, j);
        let y = spin_at(spins, n, wrap_next(i, n), j) + spin_at(spins, n, i, wrap_next(j, n));
        let yt = spin_at(t, n, wrap_next(i, n), j) + spin_at(t, n, i, wrap_next(j, n));
        lemma_spin_times(x, y);
        lemma_spin_times(xt, yt);
        lemma_spin_times(s, spin_at(spins, n, d, b) + spin_at(spins, n, a, r));
        lemma_spin_times(s, spin_at(spins, n, a, l));
        lemma_spin_times(s, spin_at(spins, n, u, b));
    }
    // Row by row.
    let fa = row_terms(spins, n, a);
    let ga = row_terms(t, n, a);
    let ha = |j: int| if j == b { ga(j) } else { fa(j) };
    lemma_sum_point(fa, ha, n, b);
    lemma_sum_point(ha, ga, n, l);
    let fu = row_terms(spins, n, u);
    let gu = row_terms(t, n, u);
    lemma_sum_point(fu, gu, n, b);
    let f = grid_terms(spins, n);
    let g = grid_terms(t, n);
    assert forall|i: int| 0 <= i < n && i != a && i != u implies #[trigger] f(i) == g(i) by {
        lemma_sum_agree(row_terms(spins, n, i), row_terms(t, n, i), n);
    }
    let h = |i: int| if i == a { g(i) } else { f(i) };
    lemma_sum_point(f, h, n, a);
    lemma_sum_point(h, g, n, u);
    lemma_spin_times(s, neighbor_sum_of(spins, n, a, b));
    lemma_spin_times(s, spin_at(spins, n, d, b) + spin_at(spins, n, a, r));
    lemma_spin_times(s, spin_at(spins, n, a, l));
    lemma_spin_times(s, spin_at(spins, n, u, b));
}

/// On a lattice of side two or more no site is its own neighbour, so the
/// sum of a site's neighbours is the same before and after its own flip.
pub proof fn lemma_neighbor_sum_ignores_self(spins: Seq<i8>, n: int, a: int, b: int)
    requires
        grid_wf(spins, n),
        n >= 2,
        0 <= a < n,
        0 <= b < n,
    ensures
        neighbor_sum_of(with_flip(spins, site(n, a, b)), n, a, b) == neighbor_sum_of(
            spins,
            n,
            a,
            b,
        ),
{
    lemma_wrap(a, n);
    lemma_wrap(b, n);
    lemma_site(n, a, b);
    lemma_site(n, wrap_prev(a, n), b);
    lemma_site(n, wrap_next(a, n), b);
    lemma_site(n, a, wrap_prev(b, n));
    lemma_site(n, a, wrap_next(b, n));
}

/// The bonds around two sites: for each of the two, its spin times the sum
/// of its four neighbours.
pub open spec fn pair_bonds(spins: Seq<i8>, n: int, a: int, b: int, c: int, d: int) -> int {
    spin_at(spins, n, a, b) * neighbor_sum_of(spins, n, a, b) + spin_at(spins, n, c, d)
        * neighbor_sum_of(spins, n, c, d)
}

/// The rise of the bonds around two sites when their spins trade places.
pub open spec fn exchange_rise(spins: Seq<i8>, n: int, a: int, b: int, c: int, d: int) -> int {
    pair_bonds(with_swap(spins, site(n, a, b), site(n, c, d)), n, a, b, c, d) - pair_bonds(
        spins,
        n,
        a,
        b,
        c,
        d,
    )
}

/// Negating the spins of two different sites, one after the other, on a
/// lattice of side two or more: what each flip does to the bond sum, and
/// what the second site then sees.
proof fn lemma_flip_twice(spins: Seq<i8>, n: int, a: int, b: int, c: int, d: int)
    requires
        grid_wf(spins, n),
        n >= 2,
        0 <= a < n,
        0 <= b < n,
        0 <= c < n,
        0 <= d < n,
        site(n, a, b) != site(n, c, d),
    ensures
        ({
            let once = with_flip(spins, site(n, a, b));
            let twice = with_flip(once, site(n, c, d));
            &&& grid_wf(twice, n)
            &&& bond_sum(twice, n) == bond_sum(spins, n) - 2 * (spin_at(spins, n, a, b)
                * neighbor_sum_of(spins, n, a, b)) - 2 * (spin_at(spins, n, c, d)
                * neighbor_sum_of(twice, n, c, d))
            &&& spin_at(twice, n, a, b) == -spin_at(spins, n, a, b)
            &&& spin_at(twice, n, c, d) == -spin_at(spins, n, c, d)
        }),
{
    let once = with_flip(spins, site(n, a, b));
    lemma_site(n, a, b);
    lemma_site(n, c, d);
    lemma_flip_wf(spins, n, site(n, a, b));
    lemma_flip_wf(once, n, site(n, c, d));
    lemma_flip_bond_sum(spins, n, a, b);
    lemma_flip_bond_sum(once, n, c, d);
    lemma_neighbor_sum_ignores_self(once, n, c, d);
}

/// When two spins trade places, the bond sum of the grid rises by as much
/// as the bonds around the two sites do, a multiple of four between `-16`
/// and `16`.
pub proof fn lemma_swap_bond_sum(spins: Seq<i8>, n: int, a: int, b: int, c: int, d: int)
    requires
        grid_wf(spins, n),
        0 <= a < n,
        0 <= b < n,
        0 <= c < n,
        0 <= d < n,
    ensures
        grid_wf(with_swap(spins, site(n, a, b), site(n, c, d)), n),
        bond_sum(with_swap(spins, site(n, a, b), site(n, c, d)), n) == bond_sum(spins, n)
            + exchange_rise(spins, n, a, b, c, d),
        -16 <= exchange_rise(spins, n, a, b, c, d) <= 16,
        exchange_rise(spins, n, a, b, c, d) % 4 == 0,
{
    let k1 = site(n, a, b);
    let k2 = site(n, c, d);
    let t = with_swap(spins, k1, k2);
    let s1 = spin_at(spins, n, a, b);
    let s2 = spin_at(spins, n, c, d);
    lemma_site(n, a, b);
    lemma_site(n, c, d);
    assert(is_spin(spins[k1]) && is_spin(spins[k2]));
    if s1 == s2 {
        assert(t =~= spins);
    } else {
        assert(k1 != k2);
        assert(n >= 2);
        assert(t =~= with_flip(with_flip(spins, k1), k2));
        assert(t =~= with_flip(with_flip(spins, k2), k1));
        lemma_flip_twice(spins, n, a, b, c, d);
        lemma_flip_twice(spins, n, c, d, a, b);
        let near_a = neighbor_sum_of(spins, n, a, b);
        let near_c = neighbor_sum_of(spins, n, c, d);
        let then_a = neighbor_sum_of(t, n, a, b);
        let then_c = neighbor_sum_of(t, n, c, d);
        assert(-4 <= near_a <= 4 && near_a % 2 == 0 && -4 <= near_c <= 4 && near_c % 2 == 0) by {
            lemma_neighbors(spins, n, a, b);
            lemma_neighbors(spins, n, c, d);
        }
        assert(-4 <= then_a <= 4 && then_a % 2 == 0 && -4 <= then_c <= 4 && then_c % 2 == 0) by {
            lemma_neighbors(t, n, a, b);
            lemma_neighbors(t, n, c, d);
        }
        lemma_spin_times(s1, near_a);
        lemma_spin_times(s2, near_c);
        lemma_spin_times(s1, then_a);
        lemma_spin_times(s2, then_c);
        lemma_spin_times(-s1, then_a);
        lemma_spin_times(-s2, then_c);
    }
}

/// On the lattice of a single site the bond sum is two.
pub proof fn lemma_bond_sum_single(spins: Seq<i8>)
    requires
        grid_wf(spins, 1),
    ensures
        bond_sum(spins, 1) == 2,
{
    lemma_wrap(0, 1);
    lemma_neighbors(spins, 1, 0, 0);
    lemma_spin_times(spin_at(spins, 1, 0, 0), spin_at(spins, 1, 0, 0) + spin_at(spins, 1, 0, 0));
    assert(sum_to(row_terms(spins, 1, 0), 1) == sum_to(row_terms(spins, 1, 0), 0) + row_terms(
        spins,
        1,
        0,
    )(0));
    assert(sum_to(grid_terms(spins, 1), 1) == sum_to(grid_terms(spins, 1), 0) + grid_terms(
        spins,
        1,
    )(0));
}

} // verus!
