use jfa_grid::grid::{reso_is_valid, RESO};
use jfa_grid::schedule::schedule;
use jfa_grid::seeds::{flatten_seeds, init_grid, map_seeds, JfaError};

#[test]
fn schedule_for_512_has_ten_passes() {
    assert_eq!(schedule(RESO), vec![1, 256, 128, 64, 32, 16, 8, 4, 2, 1]);
}

#[test]
fn schedule_for_small_sides() {
    assert_eq!(schedule(4), vec![1, 2, 1]);
    assert_eq!(schedule(2), vec![1, 1]);
    assert_eq!(schedule(1), vec![1, 1]);
    assert_eq!(schedule(6), vec![1, 3, 1]);
}

#[test]
fn resolution_limits() {
    assert!(reso_is_valid(1));
    assert!(reso_is_valid(512));
    assert!(!reso_is_valid(0));
    assert!(!reso_is_valid(usize::MAX));
}

#[test]
fn mapping_clamps_from_above() {
    let cells = vec![(600, 3), (511, 512), (0, 0)];
    assert_eq!(map_seeds(&cells, 512), Ok(vec![(511, 3), (511, 511), (0, 0)]));
}

#[test]
fn mapping_rejects_empty_list() {
    assert_eq!(map_seeds(&vec![], 512), Err(JfaError::NoSeeds));
}

#[test]
fn mapping_rejects_first_negative_coordinate() {
    let cells = vec![(1, 1), (2, -1), (-5, 0)];
    assert_eq!(map_seeds(&cells, 512), Err(JfaError::NegativeCoordinate(1)));
}

#[test]
fn initial_grid_marks_seed_cells() {
    let g = init_grid(&vec![(1, 0), (2, 3)], 4);
    let mut expected = vec![0u32; 16];
    expected[1] = 1;
    expected[2 + 3 * 4] = 2;
    assert_eq!(g, expected);
}

#[test]
fn initial_grid_later_seed_wins_a_shared_cell() {
    let g = init_grid(&vec![(2, 2), (0, 1), (2, 2)], 4);
    assert_eq!(g[2 + 2 * 4], 3);
    assert_eq!(g[4], 2);
    assert_eq!(g.iter().filter(|&&v| v != 0).count(), 2);
}

#[test]
fn flattened_seed_coordinates() {
    assert_eq!(flatten_seeds(&vec![(3, 4), (5, 6)]), vec![3, 4, 5, 6]);
    assert_eq!(flatten_seeds(&vec![]), Vec::<u32>::new());
}
