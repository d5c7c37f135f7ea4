//! Geometry of the periodic square lattice.

use vstd::prelude::*;
use crate::sums::sum_to;

verus! {

/// The coordinate after `i` on a ring of `n` sites.
pub open spec fn wrap_next(i: int, n: int) -> int {
    (i + 1) % n
}

/// The coordinate before `i` on a ring of `n` sites.
pub open spec fn wrap_prev(i: int, n: int) -> int {
    (i + n - 1) % n
}

/// Row-major position of the site in row `i` and column `j`.
pub open spec fn site(n: int, i: int, j: int) -> int {
    i * n + j
}

/// On a ring the successor and predecessor are the plain ones, but for the
/// two ends, which are joined.
pub proof fn lemma_wrap(i: int, n: int)
    requires
        0 <= i < n,
    ensures
        wrap_next(i, n) == (if i + 1 == n { 0 } else { i + 1 }),
        wrap_prev(i, n) == (if i == 0 { n - 1 } else { i - 1 }),
        0 <= wrap_next(i, n) < n,
        0 <= wrap_prev(i, n) < n,
        wrap_prev(wrap_next(i, n), n) == i,
        wrap_next(wrap_prev(i, n), n) == i,
        n >= 2 ==> wrap_next(i, n) != i && wrap_prev(i, n) != i,
{
    vstd::arithmetic::div_mod::lemma_small_mod(0, n as nat);
    if i + 1 < n {
        vstd::arithmetic::div_mod::lemma_small_mod((i + 1) as nat, n as nat);
    } else {
        vstd::arithmetic::div_mod::lemma_mod_self_0(n);
    }
    if i == 0 {
        vstd::arithmetic::div_mod::lemma_small_mod((n - 1) as nat, n as nat);
    } else {
        vstd::arithmetic::div_mod::lemma_mod_add_multiples_vanish(i - 1, n);
        vstd::arithmetic::div_mod::lemma_small_mod((i - 1) as nat, n as nat);
    }
    let a = if i + 1 == n { 0 } else { i + 1 };
    let b = if i == 0 { n - 1 } else { i - 1 };
    if a + 1 < n {
        vstd::arithmetic::div_mod::lemma_small_mod((a + 1) as nat, n as nat);
    } else {
        vstd::arithmetic::div_mod::lemma_mod_self_0(n);
    }
    if a == 0 {
        vstd::arithmetic::div_mod::lemma_small_mod((n - 1) as nat, n as nat);
    } else {
        vstd::arithmetic::div_mod::lemma_mod_add_multiples_vanish(a - 1, n);
        vstd::arithmetic::div_mod::lemma_small_mod((a - 1) as nat, n as nat);
    }
    if b + 1 < n {
        vstd::arithmetic::div_mod::lemma_small_mod((b + 1) as nat, n as nat);
    } else {
        vstd::arithmetic::div_mod::lemma_mod_self_0(n);
    }
}

/// Every pair of coordinates names a position of the grid, and distinct
/// pairs name distinct positions.
pub proof fn lemma_site(n: int, i: int, j: int)
    requires
        0 <= i < n,
        0 <= j < n,
    ensures
        0 <= site(n, i, j) < n * n,
        forall|i2: int, j2: int|
            0 <= i2 < n && 0 <= j2 < n && #[trigger] site(n, i2, j2) == site(n, i, j) ==> i2 == i
                && j2 == j,
{
    assert(0 <= i * n && i * n + n <= n * n) by (nonlinear_arith)
        requires
            0 <= i < n,
    ;
    assert forall|i2: int, j2: int|
        0 <= i2 < n && 0 <= j2 < n && #[trigger] site(n, i2, j2) == site(n, i, j) implies i2 == i
        && j2 == j by {
        assert(i2 == i) by (nonlinear_arith)
            requires
                i2 * n + j2 == i * n + j,
                0 <= j < n,
                0 <= j2 < n,
        ;
    }
}

/// Every position of the grid is that of a pair of coordinates: its row is
/// the quotient, and its column the remainder, of its division by `n`.
pub proof fn lemma_site_covers(n: int, k: int)
    requires
        n >= 1,
        0 <= k < n * n,
    ensures
        0 <= k / n < n,
        0 <= k % n < n,
        site(n, k / n, k % n) == k,
{
    vstd::arithmetic::div_mod::lemma_fundamental_div_mod(k, n);
    vstd::arithmetic::div_mod::lemma_mod_bound(k, n);
    assert(0 <= k / n < n) by (nonlinear_arith)
        requires
            k == n * (k / n) + (k % n),
            0 <= k % n < n,
            0 <= k < n * n,
            n >= 1,
    ;
    assert(n * (k / n) == (k / n) * n) by (nonlinear_arith);
}

/// The row and column of a site are the quotient and the remainder of its
/// position's division by `n`.
pub proof fn lemma_site_coords(n: int, i: int, j: int)
    requires
        0 <= i < n,
        0 <= j < n,
    ensures
        site(n, i, j) / n == i,
        site(n, i, j) % n == j,
{
    lemma_site(n, i, j);
    lemma_site_covers(n, site(n, i, j));
    let k = site(n, i, j);
    assert(site(n, k / n, k % n) == site(n, i, j));
}

/// A spin is `+1` or `-1`.
pub open spec fn is_spin(s: i8) -> bool {
    s == 1 || s == -1
}

/// A grid of side `n`: `n * n` spins in row-major order.
pub open spec fn grid_wf(spins: Seq<i8>, n: int) -> bool {
    &&& n >= 1
    &&& spins.len() == n * n
    &&& forall|k: int| 0 <= k < spins.len() ==> is_spin(#[trigger] spins[k])
}

/// The spin in row `i` and column `j`.
pub open spec fn spin_at(spins: Seq<i8>, n: int, i: int, j: int) -> int {
    spins[site(n, i, j)] as int
}

/// The sum of the four spins next to the site in row `i` and column `j`.
pub open spec fn neighbor_sum_of(spins: Seq<i8>, n: int, i: int, j: int) -> int {
    spin_at(spins, n, wrap_prev(i, n), j) + spin_at(spins, n, wrap_next(i, n), j) + spin_at(
        spins,
        n,
        i,
        wrap_prev(j, n),
    ) + spin_at(spins, n, i, wrap_next(j, n))
}

/// The two bonds that a site owns: the products of its spin with the spin
/// below it and with the spin to its right.
pub open spec fn site_bonds(spins: Seq<i8>, n: int, i: int, j: int) -> int {
    spin_at(spins, n, i, j) * (spin_at(spins, n, wrap_next(i, n), j) + spin_at(
        spins,
        n,
        i,
        wrap_next(j, n),
    ))
}

/// The bonds owned by the sites of row `i`, as a function of the column.
pub open spec fn row_terms(spins: Seq<i8>, n: int, i: int) -> spec_fn(int) -> int {
    |j: int| site_bonds(spins, n, i, j)
}

/// The sum of the bonds owned by the sites of row `i`.
pub open spec fn row_bonds(spins: Seq<i8>, n: int, i: int) -> int {
    sum_to(row_terms(spins, n, i), n)
}

/// The sums of the bonds owned by each row, as a function of the row.
pub open spec fn grid_terms(spins: Seq<i8>, n: int) -> spec_fn(int) -> int {
    |i: int| row_bonds(spins, n, i)
}

/// The sum over all bonds of the product of the two spins that the bond
/// joins, each bond counted once. The coupling energy of the grid is `-J`
/// times this.
pub open spec fn bond_sum(spins: Seq<i8>, n: int) -> int {
    sum_to(grid_terms(spins, n), n)
}

/// The spins as a function of the position.
pub open spec fn spin_terms(spins: Seq<i8>) -> spec_fn(int) -> int {
    |k: int| spins[k] as int
}

/// The sum of all spins: the total magnetization. The field energy of the
/// grid is `-h` times this.
pub open spec fn spin_sum(spins: Seq<i8>) -> int {
    sum_to(spin_terms(spins), spins.len() as int)
}

/// Multiplying by a spin keeps or negates.
pub proof fn lemma_spin_times(s: int, x: int)
    requires
        s == 1 || s == -1,
    ensures
        s * x == (if s == 1 { x } else { -x }),
        x * s == s * x,
{
    assert(s * x == (if s == 1 { x } else { -x }) && x * s == s * x) by (nonlinear_arith)
        requires
            s == 1 || s == -1,
    ;
}

/// What a grid holds at a pair of coordinates is a spin, and so are its four
/// neighbours; their sum is one of `-4, -2, 0, 2, 4`.
pub proof fn lemma_neighbors(spins: Seq<i8>, n: int, i: int, j: int)
    requires
        grid_wf(spins, n),
        0 <= i < n,
        0 <= j < n,
    ensures
        0 <= site(n, i, j) < spins.len(),
        is_spin(spins[site(n, i, j)]),
        is_spin(spins[site(n, wrap_prev(i, n), j)]),
        is_spin(spins[site(n, wrap_next(i, n), j)]),
        is_spin(spins[site(n, i, wrap_prev(j, n))]),
        is_spin(spins[site(n, i, wrap_next(j, n))]),
        -4 <= neighbor_sum_of(spins, n, i, j) <= 4,
        neighbor_sum_of(spins, n, i, j) % 2 == 0,
        -2 <= site_bonds(spins, n, i, j) <= 2,
{
    lemma_wrap(i, n);
    lemma_wrap(j, n);
    lemma_site(n, i, j);
    lemma_site(n, wrap_prev(i, n), j);
    lemma_site(n, wrap_next(i, n), j);
    lemma_site(n, i, wrap_prev(j, n));
    lemma_site(n, i, wrap_next(j, n));
    lemma_spin_times(
        spin_at(spins, n, i, j),
        spin_at(spins, n, wrap_next(i, n), j) + spin_at(spins, n, i, wrap_next(j, n)),
    );
}

/// The coordinate after `i` on a ring of `n` sites.
pub fn next_index(i: usize, n: usize) -> (r: usize)
    requires
        i < n,
    ensures
        r == wrap_next(i as int, n as int),
        r < n,
{
    proof {
        lemma_wrap(i as int, n as int);
    }
    if i + 1 == n {
        0
    } else {
        i + 1
    }
}

/// The coordinate before `i` on a ring of `n` sites.
pub fn prev_index(i: usize, n: usize) -> (r: usize)
    requires
        i < n,
    ensures
        r == wrap_prev(i as int, n as int),
        r < n,
{
    proof {
        lemma_wrap(i as int, n as int);
    }
    if i == 0 {
        n - 1
    } else {
        i - 1
    }
}

/// Row-major position of the site in row `i` and column `j`.
pub fn site_index(n: usize, i: usize, j: usize) -> (r: usize)
    requires
        i < n,
        j < n,
        n * n <= usize::MAX,
    ensures
        r == site(n as int, i as int, j as int),
        r < n * n,
{
    proof {
        lemma_site(n as int, i as int, j as int);
        assert(0 <= i * n <= n * n) by (nonlinear_arith)
            requires
                0 <= i < n,
        ;
    }
    i * n + j
}

/// The sum of the four spins next to the site in row `i` and column `j`,
/// with periodic wraparound.
pub fn neighbor_sum(spins: &[i8], n: usize, i: usize, j: usize) -> (r: i8)
    requires
        grid_wf(spins@, n as int),
        i < n,
        j < n,
    ensures
        r == neighbor_sum_of(spins@, n as int, i as int, j as int),
        -4 <= r <= 4,
        r % 2 == 0,
{
    let len = spins.len();
    proof {
        lemma_neighbors(spins@, n as int, i as int, j as int);
        lemma_wrap(i as int, n as int);
        lemma_wrap(j as int, n as int);
        lemma_site(n as int, wrap_prev(i as int, n as int), j as int);
        lemma_site(n as int, wrap_next(i as int, n as int), j as int);
        lemma_site(n as int, i as int, wrap_prev(j as int, n as int));
        lemma_site(n as int, i as int, wrap_next(j as int, n as int));
    }
    let up: i8 = spins[site_index(n, prev_index(i, n), j)];
    let down: i8 = spins[site_index(n, next_index(i, n), j)];
    let left: i8 = spins[site_index(n, i, prev_index(j, n))];
    let right: i8 = spins[site_index(n, i, next_index(j, n))];
    up + down + left + right
}

/// The sum over all bonds of the product of the two spins that the bond
/// joins. Each site contributes its bond downwards and its bond to the
/// right, so that every bond is counted once.
pub fn calc_bond_sum(spins: &[i8], n: usize) -> (r: i128)
    requires
        grid_wf(spins@, n as int),
    ensures
        r == bond_sum(spins@, n as int),
        -2 * (n * n) <= r <= 2 * (n * n),
{
    let len = spins.len();
    let mut e: i128 = 0;
    let mut i: usize = 0;
    while i < n
        invariant
            grid_wf(spins@, n as int),
            i <= n,
            e == sum_to(grid_terms(spins@, n as int), i as int),
            -2 * (n * i) <= e <= 2 * (n * i),
            n * n <= usize::MAX,
        decreases n - i,
    {
        let mut row: i128 = 0;
        let mut j: usize = 0;
        while j < n
            invariant
                grid_wf(spins@, n as int),
                i < n,
                j <= n,
                row == sum_to(row_terms(spins@, n as int, i as int), j as int),
                -2 * j <= row <= 2 * j,
                n * n <= usize::MAX,
            decreases n - j,
        {
            proof {
                lemma_neighbors(spins@, n as int, i as int, j as int);
                lemma_wrap(i as int, n as int);
                lemma_wrap(j as int, n as int);
                lemma_site(n as int, wrap_next(i as int, n as int), j as int);
                lemma_site(n as int, i as int, wrap_next(j as int, n as int));
            }
            let s: i8 = spins[site_index(n, i, j)];
            let down: i8 = spins[site_index(n, next_index(i, n), j)];
            let right: i8 = spins[site_index(n, i, next_index(j, n))];
            proof {
                lemma_spin_times(s as int, down + right);
            }
            let bonds: i8 = s * (down + right);
            row = row + bonds as i128;
            j = j + 1;
        }
        proof {
            assert(n * (i + 1) == n * i + n && n * (i + 1) <= n * n) by (nonlinear_arith)
                requires
                    0 <= i < n,
            ;
        }
        e = e + row;
        i = i + 1;
    }
    e
}

/// The sum of all spins.
pub fn calc_spin_sum(spins: &[i8]) -> (r: i128)
    ensures
        r == spin_sum(spins@),
        -128 * spins@.len() <= r <= 127 * spins@.len(),
{
    let mut sum: i128 = 0;
    let mut k: usize = 0;
    while k < spins.len()
        invariant
            k <= spins@.len(),
            sum == sum_to(spin_terms(spins@), k as int),
            -128 * k <= sum <= 127 * k,
        decreases spins@.len() - k,
    {
        sum = sum + spins[k] as i128;
        k = k + 1;
    }
    sum
}

/// Whether the site in row `i` and column `j` lies on the even one of the
/// two sublattices that interleave like the squares of a chessboard.
pub open spec fn on_even_sublattice(i: int, j: int) -> bool {
    (i + j) % 2 == 0
}

/// The grid `after` is the grid `before` with every spin of the even
/// sublattice, among the rows before `rows` and the first `cols` columns of
/// row `rows`, negated.
pub open spec fn sublattice_flipped_upto(
    before: Seq<i8>,
    after: Seq<i8>,
    n: int,
    rows: int,
    cols: int,
) -> bool {
    &&& after.len() == before.len()
    &&& forall|i: int, j: int|
        0 <= i < n && 0 <= j < n ==> #[trigger] after[site(n, i, j)] == (if on_even_sublattice(
            i,
            j,
        ) && (i < rows || (i == rows && j < cols)) {
            (-before[site(n, i, j)]) as i8
        } else {
            before[site(n, i, j)]
        })
}

/// The grid `after` is the grid `before` with every spin of the even
/// sublattice negated.
pub open spec fn sublattice_flipped(before: Seq<i8>, after: Seq<i8>, n: int) -> bool {
    sublattice_flipped_upto(before, after, n, n, 0)
}

/// Negates every spin of the even sublattice. On a lattice of
/// even side this maps an antiferromagnet onto a ferromagnet.
pub fn flip_sublattice(spins: &mut [i8], n: usize)
    requires
        grid_wf(old(spins)@, n as int),
    ensures
        grid_wf(final(spins)@, n as int),
        sublattice_flipped(old(spins)@, final(spins)@, n as int),
{
    let len = spins.len();
    let mut i: usize = 0;
    while i < n
        invariant
            grid_wf(spins@, n as int),
            i <= n,
            n * n <= usize::MAX,
            sublattice_flipped_upto(old(spins)@, spins@, n as int, i as int, 0),
        decreases n - i,
    {
        let mut j: usize = 0;
        while j < n
            invariant
                grid_wf(spins@, n as int),
                i < n,
                j <= n,
                n * n <= usize::MAX,
                sublattice_flipped_upto(old(spins)@, spins@, n as int, i as int, j as int),
            decreases n - j,
        {
            let ghost prior = spins@;
            proof {
                lemma_site(n as int, i as int, j as int);
                assert(i + j <= n * n) by (nonlinear_arith)
                    requires
                        0 <= i < n,
                        0 <= j < n,
                ;
            }
            if (i + j) % 2 == 0 {
                let idx = site_index(n, i, j);
                let s: i8 = spins[idx];
                spins[idx] = -s;
            }
            proof {
                assert forall|i2: int, j2: int| 0 <= i2 < n && 0 <= j2 < n implies #[trigger] spins@[site(
                    n as int,
                    i2,
                    j2,
                )] == (if on_even_sublattice(i2, j2) && (i2 < i || (i2 == i && j2 < j + 1)) {
                    (-old(spins)@[site(n as int, i2, j2)]) as i8
                } else {
                    old(spins)@[site(n as int, i2, j2)]
                }) by {
                    lemma_site(n as int, i2, j2);
                    assert(prior[site(n as int, i2, j2)] == (if on_even_sublattice(i2, j2) && (i2
                        < i || (i2 == i && j2 < j)) {
                        (-old(spins)@[site(n as int, i2, j2)]) as i8
                    } else {
                        old(spins)@[site(n as int, i2, j2)]
                    }));
                }
            }
            j = j + 1;
        }
        i = i + 1;
    }
}

/// The coordinates of the site next to row `i`, column `j` in direction
/// `dir`: 0 below, 1 above, 2 to the right, and otherwise to the left.
pub open spec fn neighbor(n: int, i: int, j: int, dir: int) -> (int, int) {
    if dir == 0 {
        (wrap_next(i, n), j)
    } else if dir == 1 {
        (wrap_prev(i, n), j)
    } else if dir == 2 {
        (i, wrap_next(j, n))
    } else {
        (i, wrap_prev(j, n))
    }
}

/// The coordinates of the site next to row `i`, column `j` in direction
/// `dir`: 0 below, 1 above, 2 to the right, and otherwise to the left.
pub fn neighbor_index(n: usize, i: usize, j: usize, dir: u8) -> (r: (usize, usize))
    requires
        i < n,
        j < n,
    ensures
        (r.0 as int, r.1 as int) == neighbor(n as int, i as int, j as int, dir as int),
        r.0 < n,
        r.1 < n,
{
    if dir == 0 {
        (next_index(i, n), j)
    } else if dir == 1 {
        (prev_index(i, n), j)
    } else if dir == 2 {
        (i, next_index(j, n))
    } else {
        (i, prev_index(j, n))
    }
}

} // verus!
