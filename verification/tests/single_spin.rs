use ising::ising::{site_count, all_spins, Ising, IsingError, Ratio};
use ising::lattice::{
    calc_bond_sum, calc_spin_sum, flip_sublattice, neighbor_index, neighbor_sum, next_index,
    prev_index, site_index,
};
use ising::model::{Rule, Trial};
use ising::rates::{Rates, SCALE};

fn threshold(p: f64) -> u64 {
    let scaled = (p * SCALE as f64).ceil();
    if scaled <= 0.0 {
        0
    } else if scaled >= SCALE as f64 {
        SCALE
    } else {
        scaled as u64
    }
}

fn rates_for(temp: f64, j: f64, h: f64) -> Rates {
    let mut metropolis = [0u64; 10];
    let mut glauber = [0u64; 10];
    for slot in 0..10 {
        let aligned = 2.0 * (slot / 2) as f64 - 4.0;
        let s = 2.0 * (slot % 2) as f64 - 1.0;
        let d_e = 2.0 * j * aligned + 2.0 * h * s;
        metropolis[slot] = if d_e <= 0.0 { SCALE } else { threshold((-d_e / temp).exp()) };
        glauber[slot] = threshold(1.0 / (1.0 + (d_e / temp).exp()));
    }
    let mut heatbath = [0u64; 5];
    for slot in 0..5 {
        let nsum = 2.0 * slot as f64 - 4.0;
        heatbath[slot] = threshold(1.0 / (1.0 + (-2.0 * (j * nsum + h) / temp).exp()));
    }
    let mut kawasaki = [0u64; 9];
    for slot in 0..9 {
        let rise = 4.0 * slot as f64 - 16.0;
        let d_e = -j * rise;
        kawasaki[slot] = if d_e <= 0.0 { SCALE } else { threshold((-d_e / temp).exp()) };
    }
    Rates {
        metropolis,
        glauber,
        heatbath,
        kawasaki,
        wolff_add: threshold(1.0 - (-2.0 * j.abs() / temp).exp()),
        wolff_ghost: threshold(1.0 - (-2.0 * h.abs() / temp).exp()),
        bond: threshold(1.0 - (-2.0 * j / temp).exp()),
        antiferromagnetic: j < 0.0,
        field_up: h >= 0.0,
    }
}

fn never() -> Rates {
    Rates {
        metropolis: [0; 10],
        glauber: [0; 10],
        heatbath: [0; 5],
        kawasaki: [0; 9],
        wolff_add: 0,
        wolff_ghost: 0,
        bond: 0,
        antiferromagnetic: false,
        field_up: true,
    }
}

fn trial(i: usize, j: usize, dir: u8, draw: u64) -> Trial {
    Trial { i, j, dir, draw }
}

fn assert_in_sync(model: &Ising) {
    assert_eq!(model.energy().bond_sum, calc_bond_sum(model.spins(), model.n()));
    assert_eq!(model.energy().spin_sum, calc_spin_sum(model.spins()));
    assert_eq!(model.magnetization(), calc_spin_sum(model.spins()));
}

#[test]
fn metropolis_scenario_two_by_two() {
    // One sweep of four trials at T = 1, J = 1, h = 0: the first, on the
    // site at index 0, costs nothing and is accepted; the other three, on
    // the site below it, would each cost 8 and draw too high.
    let rates = rates_for(1.0, 1.0, 0.0);
    let mut model = Ising::from_spins(2, vec![1, 1, -1, -1], rates).unwrap();
    let high = trial(1, 0, 0, SCALE - 1);
    assert_eq!(model.sweep_with(Rule::Metropolis, &[trial(0, 0, 0, 0), high, high, high]), Ok(()));
    assert_eq!(model.spins(), &[-1, 1, -1, -1]);
    assert_eq!(model.accepted(), 1);
    assert_eq!(model.attempted(), 4);
    assert_in_sync(&model);
    assert_eq!(model.energy().bond_sum, 0);
    assert_eq!(model.magnetization(), -2);
}

#[test]
fn new_lattice_holds_spins_only() {
    for n in 1..=6usize {
        let model = Ising::new(n, rates_for(2.0, 1.0, 0.0)).unwrap();
        assert_eq!(model.n(), n);
        assert_eq!(model.spins().len(), n * n);
        assert!(model.spins().iter().all(|&s| s == 1 || s == -1));
        assert_eq!(model.accepted(), 0);
        assert_eq!(model.attempted(), 0);
        assert_in_sync(&model);
    }
}

#[test]
fn new_rejects_zero_side() {
    assert!(matches!(Ising::new(0, never()), Err(IsingError::Configuration)));
    assert!(matches!(Ising::new(usize::MAX, never()), Err(IsingError::Configuration)));
}

#[test]
fn from_spins_checks_the_buffer() {
    assert!(matches!(Ising::from_spins(0, vec![], never()), Err(IsingError::Configuration)));
    assert!(matches!(
        Ising::from_spins(2, vec![1, 1, 1], never()),
        Err(IsingError::InvariantViolation)
    ));
    assert!(matches!(
        Ising::from_spins(2, vec![1, 0, 1, -1], never()),
        Err(IsingError::InvariantViolation)
    ));
    assert!(matches!(
        Ising::from_spins(1, vec![2], never()),
        Err(IsingError::InvariantViolation)
    ));
    let model = Ising::from_spins(2, vec![1, -1, -1, 1], never()).unwrap();
    assert_eq!(model.spins(), &[1, -1, -1, 1]);
    assert_eq!(model.energy().bond_sum, -8);
    assert_eq!(model.magnetization(), 0);
}

#[test]
fn site_count_is_the_square() {
    assert_eq!(site_count(0), None);
    assert_eq!(site_count(1), Some(1));
    assert_eq!(site_count(7), Some(49));
    assert_eq!(site_count(usize::MAX), None);
}

#[test]
fn all_spins_finds_strays() {
    assert!(all_spins(&[]));
    assert!(all_spins(&[1, -1, -1]));
    assert!(!all_spins(&[1, 0]));
    assert!(!all_spins(&[-2]));
}

#[test]
fn acceptance_ratio_is_zero_before_any_trial() {
    let mut model = Ising::new(3, rates_for(2.0, 1.0, 0.0)).unwrap();
    assert_eq!(model.acceptance_ratio(), Ratio { numerator: 0, denominator: 1 });
    model.metropolis_step();
    let ratio = model.acceptance_ratio();
    assert_eq!(ratio.denominator, 9);
    assert_eq!(ratio.numerator, model.accepted());
    model.reset_data();
    assert_eq!(model.acceptance_ratio(), Ratio { numerator: 0, denominator: 1 });
}

#[test]
fn indices_wrap_around() {
    assert_eq!(next_index(0, 3), 1);
    assert_eq!(next_index(2, 3), 0);
    assert_eq!(prev_index(0, 3), 2);
    assert_eq!(prev_index(2, 3), 1);
    assert_eq!(next_index(0, 1), 0);
    assert_eq!(prev_index(0, 1), 0);
    assert_eq!(site_index(3, 2, 1), 7);
    assert_eq!(neighbor_index(3, 2, 2, 0), (0, 2));
    assert_eq!(neighbor_index(3, 0, 0, 1), (2, 0));
    assert_eq!(neighbor_index(3, 2, 2, 2), (2, 0));
    assert_eq!(neighbor_index(3, 0, 0, 3), (0, 2));
}

#[test]
fn neighbor_sum_is_periodic() {
    let grid: [i8; 9] = [1, -1, 1, 1, 1, -1, -1, 1, 1];
    // Row 0, column 0: above is row 2, left is column 2.
    assert_eq!(neighbor_sum(&grid, 3, 0, 0), -1 + 1 + 1 + -1);
    assert_eq!(neighbor_sum(&grid, 3, 1, 1), -1 + 1 + 1 + -1);
    assert_eq!(neighbor_sum(&grid, 3, 2, 2), -1 + 1 + 1 + -1);
    assert_eq!(neighbor_sum(&[1; 16], 4, 3, 0), 4);
    assert_eq!(neighbor_sum(&[-1; 16], 4, 0, 3), -4);
    assert_eq!(neighbor_sum(&[1], 1, 0, 0), 4);
    assert_eq!(neighbor_sum(&[1, -1, -1, 1], 2, 0, 0), -4);
}

#[test]
fn bond_sum_counts_each_bond_once() {
    assert_eq!(calc_bond_sum(&[1; 9], 3), 18);
    assert_eq!(calc_bond_sum(&[-1; 9], 3), 18);
    assert_eq!(calc_bond_sum(&[1, 1, -1, -1], 2), 0);
    assert_eq!(calc_bond_sum(&[1, -1, -1, 1], 2), -8);
    assert_eq!(calc_bond_sum(&[-1], 1), 2);
    let grid: [i8; 9] = [1, -1, 1, 1, 1, -1, -1, 1, 1];
    assert_eq!(calc_bond_sum(&grid, 3), -6);
}

#[test]
fn spin_sum_adds_all_spins() {
    assert_eq!(calc_spin_sum(&[]), 0);
    assert_eq!(calc_spin_sum(&[1, 1, -1, 1]), 2);
    assert_eq!(calc_spin_sum(&[-1; 25]), -25);
}

#[test]
fn flip_sublattice_negates_even_sites() {
    let mut grid: [i8; 4] = [1, 1, 1, 1];
    flip_sublattice(&mut grid, 2);
    assert_eq!(grid, [-1, 1, 1, -1]);
    let mut grid: [i8; 9] = [1, -1, 1, 1, 1, -1, -1, 1, 1];
    flip_sublattice(&mut grid, 3);
    assert_eq!(grid, [-1, -1, -1, 1, -1, -1, 1, 1, -1]);
    flip_sublattice(&mut grid, 3);
    assert_eq!(grid, [1, -1, 1, 1, 1, -1, -1, 1, 1]);
}

#[test]
fn metropolis_reads_the_slot_of_the_site() {
    // A spin +1 among four +1: slot 9.
    let mut rates = never();
    rates.metropolis[9] = 1000;
    let mut model = Ising::from_spins(3, vec![1; 9], rates).unwrap();
    model.trial(Rule::Metropolis, trial(1, 1, 0, 1000));
    assert_eq!(model.spins(), &[1; 9]);
    assert_eq!((model.accepted(), model.attempted()), (0, 1));
    model.trial(Rule::Metropolis, trial(1, 1, 0, 999));
    assert_eq!(model.spins(), &[1, 1, 1, 1, -1, 1, 1, 1, 1]);
    assert_eq!((model.accepted(), model.attempted()), (1, 2));
    assert_eq!(model.energy().bond_sum, 18 - 8);
    assert_eq!(model.magnetization(), 7);
    assert_in_sync(&model);
    // The flipped spin -1 among four +1: slot 0, which never fires here.
    model.trial(Rule::Metropolis, trial(1, 1, 0, 0));
    assert_eq!(model.accepted(), 1);
    // Its neighbour above: +1 with neighbours summing to 2, slot 7.
    let mut rates = never();
    rates.metropolis[7] = 5;
    model.set_rates(rates);
    model.trial(Rule::Metropolis, trial(0, 1, 0, 4));
    assert_eq!(model.spins(), &[1, -1, 1, 1, -1, 1, 1, 1, 1]);
    assert_in_sync(&model);
}

#[test]
fn glauber_reads_its_own_table() {
    let mut rates = never();
    rates.metropolis = [SCALE; 10];
    rates.glauber[1] = 7;
    // A spin +1 among four -1: aligned -4, slot 1.
    let mut model = Ising::from_spins(3, vec![-1, -1, -1, -1, 1, -1, -1, -1, -1], rates).unwrap();
    model.trial(Rule::Glauber, trial(1, 1, 0, 7));
    assert_eq!(model.accepted(), 0);
    model.trial(Rule::Glauber, trial(1, 1, 0, 6));
    assert_eq!(model.spins(), &[-1; 9]);
    assert_eq!((model.accepted(), model.attempted()), (1, 2));
    assert_eq!(model.energy().bond_sum, 18);
    assert_eq!(model.magnetization(), -9);
}

#[test]
fn glauber_has_no_free_downhill_move() {
    // At T = 1, J = 1, h = 0 a flip that lowers the energy by 8 is accepted
    // with probability 1 / (1 + exp(-8)), short of certainty.
    let rates = rates_for(1.0, 1.0, 0.0);
    assert_eq!(rates.metropolis[1], SCALE);
    assert!(rates.glauber[1] < SCALE);
    assert_eq!(rates.glauber[1], threshold(1.0 / (1.0 + (-8.0f64).exp())));
    let mut model = Ising::from_spins(3, vec![-1, -1, -1, -1, 1, -1, -1, -1, -1], rates).unwrap();
    model.trial(Rule::Glauber, trial(1, 1, 0, SCALE - 1));
    assert_eq!(model.accepted(), 0);
    model.trial(Rule::Metropolis, trial(1, 1, 0, SCALE - 1));
    assert_eq!(model.accepted(), 1);
}

#[test]
fn heatbath_ignores_the_old_spin() {
    let mut rates = never();
    // Neighbours summing to 4: slot 4.
    rates.heatbath[4] = 100;
    let mut model = Ising::from_spins(3, vec![1; 9], rates).unwrap();
    // Draw below the threshold: the site is set to +1, which it was.
    model.trial(Rule::HeatBath, trial(1, 1, 0, 99));
    assert_eq!(model.spins(), &[1; 9]);
    assert_eq!((model.accepted(), model.attempted()), (0, 1));
    // Draw at the threshold: the site is set to -1.
    model.trial(Rule::HeatBath, trial(1, 1, 0, 100));
    assert_eq!(model.spins(), &[1, 1, 1, 1, -1, 1, 1, 1, 1]);
    assert_eq!((model.accepted(), model.attempted()), (1, 2));
    // Again: it stays -1, and nothing is accepted.
    model.trial(Rule::HeatBath, trial(1, 1, 0, 100));
    assert_eq!((model.accepted(), model.attempted()), (1, 3));
    // Draw below: back to +1.
    model.trial(Rule::HeatBath, trial(1, 1, 0, 0));
    assert_eq!(model.spins(), &[1; 9]);
    assert_eq!((model.accepted(), model.attempted()), (2, 4));
    assert_in_sync(&model);
}

#[test]
fn kawasaki_exchanges_with_the_neighbour() {
    let mut rates = never();
    rates.kawasaki = [SCALE; 9];
    let grid = vec![1, -1, 1, 1, 1, 1, 1, 1, 1];
    let mut model = Ising::from_spins(3, grid, rates).unwrap();
    // Row 0, column 1 with the site to its right.
    model.trial(Rule::Kawasaki, trial(0, 1, 2, 0));
    assert_eq!(model.spins(), &[1, 1, -1, 1, 1, 1, 1, 1, 1]);
    // With the site below.
    model.trial(Rule::Kawasaki, trial(0, 2, 0, 0));
    assert_eq!(model.spins(), &[1, 1, 1, 1, 1, -1, 1, 1, 1]);
    // With the site above, across the boundary.
    model.trial(Rule::Kawasaki, trial(0, 0, 1, 0));
    assert_eq!(model.spins(), &[1, 1, 1, 1, 1, -1, 1, 1, 1]);
    // With the site to the left, across the boundary.
    model.trial(Rule::Kawasaki, trial(1, 0, 3, 0));
    assert_eq!(model.spins(), &[1, 1, 1, -1, 1, 1, 1, 1, 1]);
    assert_eq!(model.magnetization(), 7);
    assert_eq!((model.accepted(), model.attempted()), (4, 4));
    assert_in_sync(&model);
}

#[test]
fn kawasaki_reads_the_slot_of_the_rise() {
    // Two -1 side by side among +1. Moving one away breaks the pair: the
    // bond sum falls from 18 - 12 to 18 - 16, a rise of -4, slot 3.
    let grid = vec![1, 1, 1, 1, 1, 1, 1, 1, -1, -1, 1, 1, 1, 1, 1, 1];
    let mut rates = never();
    rates.kawasaki[3] = 10;
    let mut model = Ising::from_spins(4, grid.clone(), rates).unwrap();
    assert_eq!(model.energy().bond_sum, 32 - 12);
    model.trial(Rule::Kawasaki, trial(2, 1, 2, 10));
    assert_eq!(model.spins(), &grid[..]);
    assert_eq!((model.accepted(), model.attempted()), (0, 1));
    model.trial(Rule::Kawasaki, trial(2, 1, 2, 9));
    assert_eq!(model.spins(), &[1, 1, 1, 1, 1, 1, 1, 1, -1, 1, -1, 1, 1, 1, 1, 1]);
    assert_eq!((model.accepted(), model.attempted()), (1, 2));
    assert_eq!(model.energy().bond_sum, 32 - 16);
    assert_eq!(model.magnetization(), 12);
    assert_in_sync(&model);
    // Moving it back joins the pair again: a rise of 4, slot 5.
    model.trial(Rule::Kawasaki, trial(2, 2, 3, 0));
    assert_eq!(model.accepted(), 1);
    let mut rates = never();
    rates.kawasaki[5] = 1;
    model.set_rates(rates);
    model.trial(Rule::Kawasaki, trial(2, 2, 3, 0));
    assert_eq!(model.spins(), &grid[..]);
    assert_eq!(model.energy().bond_sum, 32 - 12);
}

#[test]
fn kawasaki_of_equal_spins_changes_nothing() {
    let mut rates = never();
    rates.kawasaki[4] = 1;
    let mut model = Ising::from_spins(2, vec![1, 1, -1, -1], rates).unwrap();
    model.trial(Rule::Kawasaki, trial(0, 0, 2, 0));
    assert_eq!(model.spins(), &[1, 1, -1, -1]);
    assert_eq!((model.accepted(), model.attempted()), (1, 1));
    assert_eq!(model.energy().bond_sum, 0);
}

#[test]
fn sweep_with_makes_the_trials_in_order() {
    let mut rates = never();
    rates.metropolis = [SCALE; 10];
    let mut model = Ising::from_spins(2, vec![1, 1, 1, 1], rates).unwrap();
    let trials = [trial(0, 0, 0, 0), trial(0, 1, 0, 0), trial(0, 0, 0, 0)];
    assert_eq!(model.sweep_with(Rule::Metropolis, &trials), Ok(()));
    assert_eq!(model.spins(), &[1, -1, 1, 1]);
    assert_eq!((model.accepted(), model.attempted()), (3, 3));
    assert_in_sync(&model);
    assert_eq!(model.sweep_with(Rule::Glauber, &[]), Ok(()));
    assert_eq!((model.accepted(), model.attempted()), (3, 3));
}

#[test]
fn sweep_with_refuses_a_trial_off_the_lattice() {
    let mut rates = never();
    rates.metropolis = [SCALE; 10];
    rates.kawasaki = [SCALE; 9];
    let mut model = Ising::from_spins(2, vec![1, -1, 1, 1], rates).unwrap();
    for bad in [trial(2, 0, 0, 0), trial(0, 2, 0, 0), trial(0, 0, 4, 0)] {
        assert_eq!(
            model.sweep_with(Rule::Kawasaki, &[trial(0, 0, 2, 0), bad]),
            Err(IsingError::InvariantViolation)
        );
        assert_eq!(model.spins(), &[1, -1, 1, 1]);
        assert_eq!((model.accepted(), model.attempted()), (0, 0));
    }
}

#[test]
fn heatbath_sweep_computes_the_sums_afresh() {
    // On one site a flip charges eight to the tracked bond sum; at the end
    // of a heat-bath sweep the sum is the grid's again.
    let mut model = Ising::from_spins(1, vec![1], never()).unwrap();
    assert_eq!(model.sweep_with(Rule::HeatBath, &[trial(0, 0, 0, 0)]), Ok(()));
    assert_eq!(model.spins(), &[-1]);
    assert_eq!((model.accepted(), model.attempted()), (1, 1));
    assert_eq!(model.energy().bond_sum, 2);
    assert_eq!(model.magnetization(), -1);
}

#[test]
fn sweeps_make_one_trial_per_site() {
    let mut model = Ising::new(5, rates_for(2.3, 1.0, 0.1)).unwrap();
    model.metropolis_step();
    assert_eq!(model.attempted(), 25);
    model.glauber_step();
    assert_eq!(model.attempted(), 50);
    model.heatbath_step();
    assert_eq!(model.attempted(), 75);
    model.kawasaki_step();
    assert_eq!(model.attempted(), 100);
    assert!(model.accepted() <= 100);
    assert_eq!(model.spins().len(), 25);
    assert!(all_spins(model.spins()));
}

#[test]
fn tracked_sums_match_a_fresh_computation() {
    for &(temp, j, h) in &[(2.3, 1.0, 0.0), (1.0, -1.0, 0.5), (5.0, 0.5, -1.0)] {
        let mut model = Ising::new(8, rates_for(temp, j, h)).unwrap();
        for _ in 0..10 {
            model.metropolis_step();
            assert_in_sync(&model);
            model.glauber_step();
            assert_in_sync(&model);
            model.kawasaki_step();
            assert_in_sync(&model);
            model.heatbath_step();
            assert_in_sync(&model);
        }
    }
}

#[test]
fn kawasaki_conserves_magnetization() {
    for n in 1..=6usize {
        let mut model = Ising::new(n, rates_for(1.5, 1.0, 0.3)).unwrap();
        let before = calc_spin_sum(model.spins());
        for _ in 0..25 {
            model.kawasaki_step();
            assert_eq!(calc_spin_sum(model.spins()), before);
            assert_eq!(model.magnetization(), before);
        }
        assert_eq!(model.attempted(), 25 * n * n);
    }
}

#[test]
fn draws_stay_on_the_lattice() {
    // A draw at its bound would name a site off the lattice.
    let mut model = Ising::new(2, rates_for(2.0, 1.0, 0.0)).unwrap();
    for _ in 0..200 {
        model.metropolis_step();
        model.kawasaki_step();
    }
    assert_eq!(model.attempted(), 1600);
    let mut model = Ising::new(1, rates_for(2.0, 1.0, 0.0)).unwrap();
    for _ in 0..50 {
        model.glauber_step();
        model.kawasaki_step();
        model.heatbath_step();
    }
    assert_eq!(model.spins().len(), 1);
}

#[test]
fn a_sure_threshold_fires_on_every_draw() {
    // Metropolis with every threshold at SCALE flips each site it visits.
    let mut rates = never();
    rates.metropolis = [SCALE; 10];
    let mut model = Ising::new(6, rates).unwrap();
    for _ in 0..10 {
        model.metropolis_step();
    }
    assert_eq!(model.accepted(), model.attempted());
    // With every threshold at zero nothing moves.
    let mut model = Ising::new(6, never()).unwrap();
    let before = model.spins().to_vec();
    model.metropolis_step();
    model.glauber_step();
    model.kawasaki_step();
    assert_eq!(model.accepted(), 0);
    assert_eq!(model.spins(), &before[..]);
}

#[test]
fn single_site_lattice_tracks_the_formula() {
    // On one site the flip formula charges eight for bonds that the flip
    // does not change; a fresh computation gives two again.
    let mut rates = never();
    rates.metropolis = [SCALE; 10];
    let mut model = Ising::from_spins(1, vec![1], rates).unwrap();
    assert_eq!(model.energy().bond_sum, 2);
    model.trial(Rule::Metropolis, trial(0, 0, 0, 0));
    assert_eq!(model.spins(), &[-1]);
    assert_eq!(model.energy().bond_sum, -6);
    assert_eq!(model.magnetization(), -1);
    model.reset_data();
    assert_eq!(model.energy().bond_sum, 2);
    model.trial(Rule::Metropolis, trial(0, 0, 0, 0));
    model.heatbath_step();
    assert_eq!(model.energy().bond_sum, 2);
    assert_in_sync(&model);
}

#[test]
fn reset_data_zeroes_the_counters() {
    let mut model = Ising::new(4, rates_for(2.0, 1.0, 0.0)).unwrap();
    model.metropolis_step();
    let spins = model.spins().to_vec();
    model.reset_data();
    assert_eq!((model.accepted(), model.attempted()), (0, 0));
    assert_eq!(model.spins(), &spins[..]);
    assert_in_sync(&model);
}

#[test]
fn set_rates_replaces_the_thresholds() {
    let mut model = Ising::new(3, never()).unwrap();
    let rates = rates_for(1.0, -1.0, -0.5);
    model.set_rates(rates);
    let held = model.rates();
    assert_eq!(held.metropolis, rates.metropolis);
    assert_eq!(held.glauber, rates.glauber);
    assert_eq!(held.heatbath, rates.heatbath);
    assert_eq!(held.kawasaki, rates.kawasaki);
    assert_eq!(held.wolff_add, rates.wolff_add);
    assert_eq!(held.wolff_ghost, rates.wolff_ghost);
    assert_eq!(held.bond, rates.bond);
    assert!(held.antiferromagnetic);
    assert!(!held.field_up);
    assert_in_sync(&model);
}
