use petektools::simulation::{permute_by_draws, shuffle, unfixed_nodes};
use rand::rngs::StdRng;
use rand::{RngExt, SeedableRng};

#[test]
fn unfixed_nodes_are_listed_row_by_row() {
    // 3 × 2 lattice, flat index i + 3 j; nodes (1, 0) and (2, 1) are fixed
    let fixed = [false, true, false, false, false, true];
    let mut path = vec![(9, 9)];
    unfixed_nodes(3, 2, &fixed, &mut path);
    assert_eq!(path, vec![(0, 0), (2, 0), (0, 1), (1, 1)]);
}

#[test]
fn an_all_fixed_lattice_has_an_empty_path() {
    let mut path = Vec::new();
    unfixed_nodes(2, 2, &[true; 4], &mut path);
    assert!(path.is_empty());
}

#[test]
fn shuffling_keeps_every_node_once() {
    let mut path = Vec::new();
    unfixed_nodes(5, 4, &[false; 20], &mut path);
    let before = path.clone();
    let mut rng = StdRng::seed_from_u64(11);
    shuffle(&mut path, &mut rng);
    assert_eq!(path.len(), before.len());
    let mut sorted = path.clone();
    sorted.sort();
    let mut expected = before.clone();
    expected.sort();
    assert_eq!(sorted, expected);
}

#[test]
fn shuffling_is_reproducible_from_a_seed() {
    let mut a: Vec<(usize, usize)> = (0..10).map(|k| (k, 0)).collect();
    let mut b = a.clone();
    shuffle(&mut a, &mut StdRng::seed_from_u64(3));
    shuffle(&mut b, &mut StdRng::seed_from_u64(3));
    assert_eq!(a, b);
}

#[test]
fn short_paths_are_left_alone() {
    let mut one = vec![(4, 2)];
    shuffle(&mut one, &mut StdRng::seed_from_u64(1));
    assert_eq!(one, vec![(4, 2)]);
}

#[test]
fn draws_drive_the_swaps_from_the_back() {
    let mut path = vec![(0, 0), (1, 0), (2, 0)];
    // position 2 swaps with 0, then position 1 swaps with 0
    permute_by_draws(&mut path, &[0, 0]);
    assert_eq!(path, vec![(1, 0), (2, 0), (0, 0)]);
}

#[test]
fn shuffling_is_the_pass_its_draws_drive() {
    let start: Vec<(usize, usize)> = (0..8).map(|k| (k, 1)).collect();
    let mut rng = StdRng::seed_from_u64(21);
    let draws: Vec<usize> = (1..start.len()).rev().map(|k| rng.random_range(0..=k)).collect();
    let mut expected = start.clone();
    permute_by_draws(&mut expected, &draws);
    let mut path = start.clone();
    shuffle(&mut path, &mut StdRng::seed_from_u64(21));
    assert_eq!(path, expected);
}
