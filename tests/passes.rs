use jfa_grid::kernel::propagate;
use jfa_grid::run::{compute, label_grid, JfaRun, PassAction, PassError};
use jfa_grid::seeds::{init_grid, JfaError};

fn pseudo_random_seeds(n: usize, reso: u32, mut state: u64) -> Vec<(u32, u32)> {
    let mut out = Vec::new();
    for _ in 0..n {
        state = state.wrapping_mul(6364136223846793005).wrapping_add(1442695040888963407);
        let x = ((state >> 33) as u32) % reso;
        state = state.wrapping_mul(6364136223846793005).wrapping_add(1442695040888963407);
        let y = ((state >> 33) as u32) % reso;
        out.push((x, y));
    }
    out
}

#[test]
fn opposite_corners_split_along_anti_diagonal() {
    let g = compute(&vec![(0, 0), (3, 3)], 4).unwrap();
    let expected: Vec<u32> = vec![
        1, 1, 1, 1, //
        1, 1, 1, 2, //
        1, 1, 2, 2, //
        1, 2, 2, 2,
    ];
    assert_eq!(g, expected);
}

#[test]
fn labels_stay_in_range() {
    for (n, seed) in [(1usize, 7u64), (3, 11), (9, 23), (20, 5)] {
        let seeds = pseudo_random_seeds(n, 32, seed);
        let g = label_grid(seeds, 32);
        assert_eq!(g.len(), 32 * 32);
        assert!(g.iter().all(|&v| (v as usize) <= n));
    }
}

#[test]
fn seeds_keep_their_own_cells() {
    let seeds = vec![(0, 0), (5, 9), (15, 15), (8, 2), (9, 2)];
    let g = label_grid(seeds.clone(), 16);
    for (i, (x, y)) in seeds.iter().enumerate() {
        assert_eq!(g[*x as usize + *y as usize * 16], i as u32 + 1);
    }
}

#[test]
fn repeated_runs_are_identical() {
    let seeds = pseudo_random_seeds(12, 64, 99);
    let a = label_grid(seeds.clone(), 64);
    let b = label_grid(seeds, 64);
    assert_eq!(a, b);
}

#[test]
fn single_seed_reaches_every_cell() {
    for (x, y) in [(0u32, 0u32), (5, 11), (15, 15), (7, 0)] {
        let g = label_grid(vec![(x, y)], 16);
        assert!(g.iter().all(|&v| v == 1));
    }
    assert_eq!(label_grid(vec![(0, 0)], 1), vec![1]);
}

#[test]
fn single_seed_extra_pass_changes_nothing() {
    let seeds = vec![(3, 12)];
    let g = label_grid(seeds.clone(), 16);
    assert_eq!(propagate(&g, &seeds, 16, 1), g);
}

#[test]
fn several_seeds_extra_pass_may_still_correct() {
    let seeds = vec![(14, 2), (10, 10), (15, 13), (14, 6)];
    let g = label_grid(seeds.clone(), 16);
    assert_ne!(propagate(&g, &seeds, 16, 1), g);
}

#[test]
fn pass_prefers_nearer_seed_then_own_then_lower_index() {
    // One row of five cells on a 5x5 grid; seeds at (0,0) and (4,0).
    let seeds = vec![(0, 0), (4, 0)];
    let g = init_grid(&seeds, 5);
    let out = propagate(&g, &seeds, 5, 2);
    // (2,0) sees both seeds at distance 4: the lower index wins.
    assert_eq!(out[2], 1);
    // (2,2) sees (0,0) and (4,0) diagonally, both at distance 8.
    assert_eq!(out[2 + 2 * 5], 1);
    // (4,2) only reaches (4,0).
    assert_eq!(out[4 + 2 * 5], 2);
    // (1,0) is off the step-2 lattice of both seeds.
    assert_eq!(out[1], 0);
    // A cell that already holds an equally near seed keeps it.
    let mut h = vec![0u32; 25];
    h[0] = 1;
    h[4] = 2;
    h[2] = 2;
    let out = propagate(&h, &seeds, 5, 2);
    assert_eq!(out[2], 2);
}

#[test]
fn compute_rejects_bad_input() {
    assert_eq!(compute(&vec![(0, 0)], 0), Err(JfaError::InvalidResolution));
    assert_eq!(compute(&vec![], 4), Err(JfaError::NoSeeds));
    assert_eq!(compute(&vec![(0, 0), (0, -3)], 4), Err(JfaError::NegativeCoordinate(1)));
}

#[test]
fn compute_clamps_large_coordinates() {
    assert_eq!(compute(&vec![(9, 9)], 2), Ok(vec![1, 1, 1, 1]));
}

#[test]
fn run_is_driven_pass_by_pass() {
    let seeds = vec![(0, 0), (3, 3)];
    let mut run = JfaRun::start(seeds.clone(), 4);
    let mut steps = Vec::new();
    while let PassAction::Propagate(k) = run.next_action() {
        steps.push(k);
        let out = propagate(run.grid(), run.seed_cells(), run.reso(), k);
        assert_eq!(run.complete_pass(out), Ok(()));
    }
    assert!(run.is_finished());
    assert_eq!(steps, vec![1, 2, 1]);
    assert_eq!(run.complete_pass(vec![0; 16]), Err(PassError::NoPassPending));
    assert_eq!(run.into_grid(), label_grid(seeds, 4));
}

#[test]
fn run_refuses_partial_or_bad_grids() {
    let mut run = JfaRun::start(vec![(1, 1)], 4);
    let before = run.grid().clone();
    assert_eq!(run.complete_pass(vec![0; 15]), Err(PassError::IncompleteGrid));
    let mut bad = vec![0u32; 16];
    bad[3] = 2;
    assert_eq!(run.complete_pass(bad), Err(PassError::LabelOutOfRange));
    assert_eq!(run.grid(), &before);
    assert_eq!(run.next_action(), PassAction::Propagate(1));
}
