use ising::ising::Ising;
use ising::lattice::{calc_bond_sum, calc_spin_sum};
use ising::rates::{Rates, SCALE};
use ising::union_find::UnionFind;

fn rates(add: u64, ghost: u64, bond: u64, antiferromagnetic: bool, field_up: bool) -> Rates {
    Rates {
        metropolis: [0; 10],
        glauber: [0; 10],
        heatbath: [0; 5],
        kawasaki: [0; 9],
        wolff_add: add,
        wolff_ghost: ghost,
        bond,
        antiferromagnetic,
        field_up,
    }
}

fn chessboard(n: usize) -> Vec<i8> {
    let mut grid = Vec::new();
    for i in 0..n {
        for j in 0..n {
            grid.push(if (i + j) % 2 == 0 { 1 } else { -1 });
        }
    }
    grid
}

fn in_sync(model: &Ising) -> bool {
    model.energy().bond_sum == calc_bond_sum(model.spins(), model.n())
        && model.energy().spin_sum == calc_spin_sum(model.spins())
}

#[test]
fn union_find_starts_with_singletons() {
    let mut uf = UnionFind::new(5);
    assert_eq!(uf.len(), 5);
    for x in 0..5 {
        assert_eq!(uf.find(x), x);
    }
    assert_eq!(UnionFind::new(0).len(), 0);
}

#[test]
fn union_merges_into_the_second_set() {
    let mut uf = UnionFind::new(6);
    uf.union(0, 1);
    assert_eq!(uf.find(0), 1);
    assert_eq!(uf.find(1), 1);
    uf.union(1, 2);
    assert_eq!(uf.find(0), 2);
    assert_eq!(uf.find(1), 2);
    assert_eq!(uf.find(2), 2);
    uf.union(4, 3);
    uf.union(3, 0);
    for x in 0..5 {
        assert_eq!(uf.find(x), 2);
    }
    assert_eq!(uf.find(5), 5);
    // Merging a set with itself changes nothing.
    uf.union(4, 0);
    uf.union(2, 2);
    for x in 0..5 {
        assert_eq!(uf.find(x), 2);
    }
    assert_eq!(uf.find(5), 5);
}

#[test]
fn find_keeps_the_partition() {
    let mut uf = UnionFind::new(8);
    for x in 0..7 {
        uf.union(x, x + 1);
    }
    for _ in 0..2 {
        for x in 0..8 {
            assert_eq!(uf.find(x), 7);
        }
    }
}

#[test]
fn wolff_without_growth_flips_one_site() {
    for n in 1..=5usize {
        let mut model = Ising::from_spins(n, vec![1; n * n], rates(0, 0, 0, false, true)).unwrap();
        model.wolff_step();
        let down = model.spins().iter().filter(|&&s| s == -1).count();
        assert_eq!(down, 1);
        assert_eq!(model.spins().len(), n * n);
        assert_eq!((model.accepted(), model.attempted()), (1, 1));
        assert_eq!(model.magnetization(), (n * n) as i128 - 2);
        assert!(in_sync(&model));
    }
}

#[test]
fn wolff_with_sure_growth_flips_a_uniform_lattice() {
    let mut model = Ising::from_spins(4, vec![1; 16], rates(SCALE, 0, 0, false, true)).unwrap();
    model.wolff_step();
    assert_eq!(model.spins(), &[-1; 16]);
    assert_eq!(model.energy().bond_sum, 32);
    assert_eq!(model.magnetization(), -16);
    model.wolff_step();
    assert_eq!(model.spins(), &[1; 16]);
    assert_eq!((model.accepted(), model.attempted()), (2, 2));
}

#[test]
fn wolff_cluster_stops_at_unequal_spins() {
    // Rows 0 and 1 up, rows 2 and 3 down: the seed's domain flips whole.
    let mut grid = vec![1i8; 8];
    grid.extend(vec![-1i8; 8]);
    let mut model = Ising::from_spins(4, grid, rates(SCALE, 0, 0, false, true)).unwrap();
    model.wolff_step();
    let spins = model.spins();
    assert!(spins == &[1i8; 16][..] || spins == &[-1i8; 16][..]);
    assert!(in_sync(&model));
}

#[test]
fn wolff_tied_to_the_ghost_spin_leaves_the_cluster() {
    // Field up, spins up, and a ghost threshold that always fires.
    let mut model = Ising::from_spins(3, vec![1; 9], rates(SCALE, SCALE, 0, false, true)).unwrap();
    model.wolff_step();
    assert_eq!(model.spins(), &[1; 9]);
    assert_eq!((model.accepted(), model.attempted()), (1, 1));
    // Field down: no spin points along it, and the cluster flips.
    let mut model = Ising::from_spins(3, vec![1; 9], rates(SCALE, SCALE, 0, false, false)).unwrap();
    model.wolff_step();
    assert_eq!(model.spins(), &[-1; 9]);
    // Now every spin points along the field.
    model.wolff_step();
    assert_eq!(model.spins(), &[-1; 9]);
}

#[test]
fn wolff_on_an_antiferromagnet_grows_staggered_clusters() {
    // A chessboard is uniform once the even sublattice is negated.
    let grid = chessboard(4);
    let negated: Vec<i8> = grid.iter().map(|&s| -s).collect();
    let mut model = Ising::from_spins(4, grid.clone(), rates(SCALE, 0, 0, true, true)).unwrap();
    model.wolff_step();
    assert_eq!(model.spins(), &negated[..]);
    assert_eq!(model.energy().bond_sum, -32);
    model.wolff_step();
    assert_eq!(model.spins(), &grid[..]);
    // A uniform grid is a chessboard there: the seed stands alone.
    let mut model = Ising::from_spins(4, vec![1; 16], rates(SCALE, 0, 0, true, true)).unwrap();
    model.wolff_step();
    assert_eq!(model.spins().iter().filter(|&&s| s == -1).count(), 1);
}

#[test]
fn wolff_tie_on_an_antiferromagnet_is_a_no_op() {
    let grid = chessboard(4);
    let mut model = Ising::from_spins(4, grid.clone(), rates(SCALE, SCALE, 0, true, true)).unwrap();
    let before = model.energy();
    model.wolff_step();
    assert_eq!(model.spins(), &grid[..]);
    assert_eq!(model.energy(), before);
    assert_eq!((model.accepted(), model.attempted()), (1, 1));
}

#[test]
fn wolff_tie_on_a_uniform_antiferromagnet_is_a_no_op() {
    // Every spin points along the field, and the ghost threshold always
    // fires: whichever site is the seed, it ties the cluster.
    let mut model = Ising::from_spins(4, vec![1; 16], rates(SCALE, SCALE, 0, true, true)).unwrap();
    let before = model.energy();
    for step in 1..=5 {
        model.wolff_step();
        assert_eq!(model.spins(), &[1; 16]);
        assert_eq!(model.energy(), before);
        assert_eq!((model.accepted(), model.attempted()), (step, step));
    }
}

#[test]
fn wolff_keeps_the_sums_in_step() {
    let mut model = Ising::new(8, rates(SCALE / 2, SCALE / 3, 0, false, true)).unwrap();
    for _ in 0..50 {
        model.wolff_step();
        assert!(in_sync(&model));
        assert!(model.spins().iter().all(|&s| s == 1 || s == -1));
    }
    assert_eq!((model.accepted(), model.attempted()), (50, 50));
    let mut model = Ising::new(7, rates(SCALE / 2, SCALE / 3, 0, true, false)).unwrap();
    for _ in 0..50 {
        model.wolff_step();
        assert!(in_sync(&model));
    }
}

#[test]
fn swendsen_wang_with_sure_bonds_moves_a_uniform_lattice_as_one() {
    for n in 1..=5usize {
        let mut model = Ising::from_spins(n, vec![1; n * n], rates(0, 0, SCALE, false, true)).unwrap();
        for step in 1..=10 {
            model.swendsen_wang_step();
            let first = model.spins()[0];
            assert!(model.spins().iter().all(|&s| s == first));
            assert_eq!((model.accepted(), model.attempted()), (step, step));
            assert_eq!(model.energy().bond_sum, 2 * (n * n) as i128);
            assert!(in_sync(&model));
        }
    }
}

#[test]
fn swendsen_wang_moves_each_domain_as_one() {
    let mut grid = vec![1i8; 8];
    grid.extend(vec![-1i8; 8]);
    let mut model = Ising::from_spins(4, grid, rates(0, 0, SCALE, false, true)).unwrap();
    for _ in 0..10 {
        model.swendsen_wang_step();
        let spins = model.spins();
        assert!(spins[..8].iter().all(|&s| s == spins[0]));
        assert!(spins[8..].iter().all(|&s| s == spins[8]));
        assert!(in_sync(&model));
    }
}

#[test]
fn swendsen_wang_without_bonds_keeps_spins_valid() {
    let mut model = Ising::new(6, rates(0, 0, 0, false, true)).unwrap();
    for _ in 0..10 {
        model.swendsen_wang_step();
        assert_eq!(model.spins().len(), 36);
        assert!(model.spins().iter().all(|&s| s == 1 || s == -1));
        assert!(in_sync(&model));
    }
    assert_eq!((model.accepted(), model.attempted()), (10, 10));
}

#[test]
fn swendsen_wang_keeps_the_sums_in_step() {
    let mut model = Ising::new(9, rates(0, 0, SCALE / 2, false, true)).unwrap();
    for _ in 0..30 {
        model.swendsen_wang_step();
        assert!(in_sync(&model));
    }
}
