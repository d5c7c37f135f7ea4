use ising::ising::{Ising, IsingError};
use ising::lattice::{calc_bond_sum, calc_spin_sum};
use ising::rates::Rates;
use ising::wolff::Script;

fn plain(antiferromagnetic: bool, field_up: bool) -> Rates {
    Rates {
        metropolis: [0; 10],
        glauber: [0; 10],
        heatbath: [0; 5],
        kawasaki: [0; 9],
        wolff_add: 0,
        wolff_ghost: 0,
        bond: 0,
        antiferromagnetic,
        field_up,
    }
}

fn script(count: usize, add: &[(usize, usize)], tie: &[usize]) -> Script {
    let mut tables = Script { add: vec![[false; 4]; count], tie: vec![false; count] };
    for &(k, d) in add {
        tables.add[k][d] = true;
    }
    for &k in tie {
        tables.tie[k] = true;
    }
    tables
}

fn flags(count: usize, set: &[usize]) -> Vec<bool> {
    let mut table = vec![false; count];
    for &k in set {
        table[k] = true;
    }
    table
}

fn synced(model: &Ising) -> bool {
    model.energy().bond_sum == calc_bond_sum(model.spins(), model.n())
        && model.energy().spin_sum == calc_spin_sum(model.spins())
}

#[test]
fn scripted_wolff_without_growth_flips_the_seed() {
    let mut model = Ising::from_spins(3, vec![1; 9], plain(false, true)).unwrap();
    assert_eq!(model.wolff_update((1, 1), &script(9, &[], &[])), Ok(()));
    assert_eq!(model.spins(), &[1, 1, 1, 1, -1, 1, 1, 1, 1]);
    assert_eq!((model.accepted(), model.attempted()), (1, 1));
    assert_eq!(model.energy().bond_sum, 18 - 8);
    assert_eq!(model.magnetization(), 7);
}

#[test]
fn scripted_wolff_follows_the_open_directions() {
    // The centre adds the site to its right, which adds the site below it.
    let tables = script(9, &[(4, 2), (5, 0)], &[]);
    let mut model = Ising::from_spins(3, vec![1; 9], plain(false, true)).unwrap();
    assert_eq!(model.wolff_update((1, 1), &tables), Ok(()));
    assert_eq!(model.spins(), &[1, 1, 1, 1, -1, -1, 1, 1, -1]);
    assert!(synced(&model));
    // From another seed the same tables reach nothing.
    let mut model = Ising::from_spins(3, vec![1; 9], plain(false, true)).unwrap();
    assert_eq!(model.wolff_update((0, 0), &tables), Ok(()));
    assert_eq!(model.spins(), &[-1, 1, 1, 1, 1, 1, 1, 1, 1]);
}

#[test]
fn scripted_wolff_wraps_around_the_boundary() {
    // Row 0, column 0 adds the site above it, row 2, and the site to its
    // left, column 2.
    let tables = script(9, &[(0, 1), (0, 3)], &[]);
    let mut model = Ising::from_spins(3, vec![1; 9], plain(false, true)).unwrap();
    assert_eq!(model.wolff_update((0, 0), &tables), Ok(()));
    assert_eq!(model.spins(), &[-1, 1, -1, 1, 1, 1, -1, 1, 1]);
}

#[test]
fn scripted_wolff_adds_equal_spins_only() {
    let grid = vec![1, 1, 1, 1, 1, -1, 1, 1, 1];
    let tables = script(9, &[(4, 0), (4, 1), (4, 2), (4, 3)], &[]);
    let mut model = Ising::from_spins(3, grid, plain(false, true)).unwrap();
    assert_eq!(model.wolff_update((1, 1), &tables), Ok(()));
    assert_eq!(model.spins(), &[1, -1, 1, -1, -1, -1, 1, -1, 1]);
    assert!(synced(&model));
}

#[test]
fn scripted_wolff_with_every_direction_open_takes_the_domain() {
    let mut grid = vec![1i8; 8];
    grid.extend(vec![-1i8; 8]);
    let mut tables = script(16, &[], &[]);
    tables.add = vec![[true; 4]; 16];
    let mut model = Ising::from_spins(4, grid, plain(false, true)).unwrap();
    assert_eq!(model.wolff_update((3, 2), &tables), Ok(()));
    assert_eq!(model.spins(), &[1; 16]);
    assert_eq!(model.wolff_update((0, 0), &tables), Ok(()));
    assert_eq!(model.spins(), &[-1; 16]);
    assert_eq!((model.accepted(), model.attempted()), (2, 2));
}

#[test]
fn scripted_wolff_ties_through_an_aligned_site_of_the_cluster() {
    // The cluster is the centre and the site to its right.
    let grown = [(4, 2)];
    // A tie at a site outside the cluster does nothing.
    let mut model = Ising::from_spins(3, vec![1; 9], plain(false, true)).unwrap();
    assert_eq!(model.wolff_update((1, 1), &script(9, &grown, &[0, 8])), Ok(()));
    assert_eq!(model.spins(), &[1, 1, 1, 1, -1, -1, 1, 1, 1]);
    // A tie at the site that was added holds the cluster.
    let mut model = Ising::from_spins(3, vec![1; 9], plain(false, true)).unwrap();
    assert_eq!(model.wolff_update((1, 1), &script(9, &grown, &[5])), Ok(()));
    assert_eq!(model.spins(), &[1; 9]);
    assert_eq!((model.accepted(), model.attempted()), (1, 1));
    assert_eq!(model.energy().bond_sum, 18);
    // With the field down no site points along it.
    let mut model = Ising::from_spins(3, vec![1; 9], plain(false, false)).unwrap();
    assert_eq!(model.wolff_update((1, 1), &script(9, &grown, &[4, 5])), Ok(()));
    assert_eq!(model.spins(), &[1, 1, 1, 1, -1, -1, 1, 1, 1]);
    // Spins down and the field down: tied again.
    let mut model = Ising::from_spins(3, vec![-1; 9], plain(false, false)).unwrap();
    assert_eq!(model.wolff_update((1, 1), &script(9, &grown, &[4])), Ok(()));
    assert_eq!(model.spins(), &[-1; 9]);
}

#[test]
fn scripted_wolff_on_an_antiferromagnet() {
    // On the staggered grid a chessboard is uniform.
    let grid = vec![1, -1, 1, -1, -1, 1, -1, 1, 1, -1, 1, -1, -1, 1, -1, 1];
    let mut model = Ising::from_spins(4, grid.clone(), plain(true, true)).unwrap();
    // Row 1, column 1 adds the site to its right and the site below it.
    assert_eq!(model.wolff_update((1, 1), &script(16, &[(5, 2), (5, 0)], &[])), Ok(()));
    let mut expected = grid.clone();
    for k in [5, 6, 9] {
        expected[k] = -expected[k];
    }
    assert_eq!(model.spins(), &expected[..]);
    assert!(synced(&model));
    // The true spin decides the tie: row 1, column 1 holds +1, its
    // neighbour to the right holds -1. With the field up only the first
    // can tie.
    let mut model = Ising::from_spins(4, grid.clone(), plain(true, true)).unwrap();
    assert_eq!(model.wolff_update((1, 1), &script(16, &[(5, 2)], &[5])), Ok(()));
    assert_eq!(model.spins(), &grid[..]);
    let mut model = Ising::from_spins(4, grid.clone(), plain(true, true)).unwrap();
    assert_eq!(model.wolff_update((1, 1), &script(16, &[(5, 2)], &[6])), Ok(()));
    let mut expected = grid.clone();
    expected[5] = -1;
    expected[6] = 1;
    assert_eq!(model.spins(), &expected[..]);
    // With the field down it is the other way round.
    let mut model = Ising::from_spins(4, grid.clone(), plain(true, false)).unwrap();
    assert_eq!(model.wolff_update((1, 1), &script(16, &[(5, 2)], &[6])), Ok(()));
    assert_eq!(model.spins(), &grid[..]);
    let mut model = Ising::from_spins(4, grid.clone(), plain(true, false)).unwrap();
    assert_eq!(model.wolff_update((1, 1), &script(16, &[(5, 2)], &[5])), Ok(()));
    assert_eq!(model.spins(), &expected[..]);
    // On a uniform grid the neighbours differ on the staggered grid.
    let mut tables = script(16, &[], &[]);
    tables.add = vec![[true; 4]; 16];
    let mut model = Ising::from_spins(4, vec![1; 16], plain(true, true)).unwrap();
    assert_eq!(model.wolff_update((2, 2), &tables), Ok(()));
    assert_eq!(model.spins().iter().filter(|&&s| s == -1).count(), 1);
    assert_eq!(model.spins()[10], -1);
}

#[test]
fn scripted_wolff_refuses_bad_arguments() {
    let mut model = Ising::from_spins(3, vec![1; 9], plain(false, true)).unwrap();
    let good = script(9, &[], &[]);
    assert_eq!(model.wolff_update((3, 0), &good), Err(IsingError::InvariantViolation));
    assert_eq!(model.wolff_update((0, 3), &good), Err(IsingError::InvariantViolation));
    assert_eq!(
        model.wolff_update((0, 0), &script(8, &[], &[])),
        Err(IsingError::InvariantViolation)
    );
    let mut uneven = script(9, &[], &[]);
    uneven.tie.push(false);
    assert_eq!(model.wolff_update((0, 0), &uneven), Err(IsingError::InvariantViolation));
    assert_eq!(model.spins(), &[1; 9]);
    assert_eq!((model.accepted(), model.attempted()), (0, 0));
}

#[test]
fn scripted_swendsen_wang_flips_whole_clusters() {
    // Two rows of two: the upper pair and the lower pair are clusters,
    // each named by its right-hand site.
    let all = vec![true; 4];
    let mut model = Ising::from_spins(2, vec![1, 1, -1, -1], plain(false, true)).unwrap();
    assert_eq!(model.swendsen_wang_update(&all, &all, &flags(4, &[1])), Ok(()));
    assert_eq!(model.spins(), &[-1, -1, -1, -1]);
    assert_eq!((model.accepted(), model.attempted()), (1, 1));
    assert_eq!(model.energy().bond_sum, 8);
    assert_eq!(model.magnetization(), -4);
    // The coins of sites that name no cluster are not read.
    let mut model = Ising::from_spins(2, vec![1, 1, -1, -1], plain(false, true)).unwrap();
    assert_eq!(model.swendsen_wang_update(&all, &all, &flags(4, &[0, 2])), Ok(()));
    assert_eq!(model.spins(), &[1, 1, -1, -1]);
    let mut model = Ising::from_spins(2, vec![1, 1, -1, -1], plain(false, true)).unwrap();
    assert_eq!(model.swendsen_wang_update(&all, &all, &flags(4, &[1, 3])), Ok(()));
    assert_eq!(model.spins(), &[-1, -1, 1, 1]);
    assert!(synced(&model));
}

#[test]
fn scripted_swendsen_wang_opens_the_given_bonds_only() {
    // On a uniform grid, the bond from site 0 to the right and the bond
    // from site 1 downwards: the cluster of sites 0, 1 and 4, named by 4.
    let down = flags(9, &[1]);
    let right = flags(9, &[0]);
    let mut model = Ising::from_spins(3, vec![1; 9], plain(false, true)).unwrap();
    assert_eq!(model.swendsen_wang_update(&down, &right, &flags(9, &[4])), Ok(()));
    assert_eq!(model.spins(), &[-1, -1, 1, 1, -1, 1, 1, 1, 1]);
    assert!(synced(&model));
    // The coins of sites 0 and 1 are not read; site 8 is a cluster of
    // its own.
    let mut model = Ising::from_spins(3, vec![1; 9], plain(false, true)).unwrap();
    assert_eq!(model.swendsen_wang_update(&down, &right, &flags(9, &[0, 1, 8])), Ok(()));
    assert_eq!(model.spins(), &[1, 1, 1, 1, 1, 1, 1, 1, -1]);
}

#[test]
fn scripted_swendsen_wang_ignores_bonds_between_unequal_spins() {
    let grid = vec![1, -1, 1, -1];
    let all = vec![true; 4];
    // On this grid every vertical bond joins equal spins, no horizontal
    // one does: the columns are the clusters, named by the lower site.
    let mut model = Ising::from_spins(2, grid, plain(false, true)).unwrap();
    assert_eq!(model.swendsen_wang_update(&all, &all, &flags(4, &[2])), Ok(()));
    assert_eq!(model.spins(), &[-1, -1, -1, -1]);
}

#[test]
fn scripted_swendsen_wang_without_bonds_reads_each_coin() {
    let none = vec![false; 9];
    let grid = vec![1, -1, 1, 1, 1, -1, -1, 1, 1];
    let mut model = Ising::from_spins(3, grid, plain(false, true)).unwrap();
    assert_eq!(model.swendsen_wang_update(&none, &none, &flags(9, &[0, 1, 8])), Ok(()));
    assert_eq!(model.spins(), &[-1, 1, 1, 1, 1, -1, -1, 1, -1]);
    assert!(synced(&model));
}

#[test]
fn scripted_swendsen_wang_refuses_tables_of_another_length() {
    let mut model = Ising::from_spins(2, vec![1; 4], plain(false, true)).unwrap();
    let four = vec![true; 4];
    let five = vec![true; 5];
    let three = vec![true; 3];
    assert_eq!(
        model.swendsen_wang_update(&five, &four, &four),
        Err(IsingError::InvariantViolation)
    );
    assert_eq!(
        model.swendsen_wang_update(&four, &three, &four),
        Err(IsingError::InvariantViolation)
    );
    assert_eq!(model.swendsen_wang_update(&four, &four, &[]), Err(IsingError::InvariantViolation));
    assert_eq!(model.spins(), &[1; 4]);
    assert_eq!((model.accepted(), model.attempted()), (0, 0));
}
