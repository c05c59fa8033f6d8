//! End-to-end behaviour of the generation pipeline.

use queens::pipeline::{create_queens_game, PuzzleResult};
use queens::rng_source::seed_rng;

#[test]
fn trivial_board_size_one() {
    let mut rng = seed_rng(7);
    match create_queens_game(1, &mut rng) {
        PuzzleResult::Unique(grid) => {
            assert_eq!(grid, vec![1]);
        },
        _ => panic!("a one-cell board must be generated uniquely"),
    }
}

#[test]
fn no_placement_for_size_two() {
    let mut rng = seed_rng(7);
    assert!(matches!(create_queens_game(2, &mut rng), PuzzleResult::NoPlacement));
}

#[test]
fn no_placement_for_size_three() {
    let mut rng = seed_rng(7);
    assert!(matches!(create_queens_game(3, &mut rng), PuzzleResult::NoPlacement));
}

#[test]
fn size_four_produces_a_board() {
    let mut rng = seed_rng(11);
    match create_queens_game(4, &mut rng) {
        PuzzleResult::Unique(grid) | PuzzleResult::Ambiguous(grid) => {
            assert_eq!(grid.len(), 16);
            for &v in grid.iter() {
                assert!(1 <= v && v <= 4);
            }
        },
        PuzzleResult::NoPlacement => panic!("size 4 admits placements"),
    }
}

#[test]
fn size_five_produces_a_board() {
    let mut rng = seed_rng(3);
    match create_queens_game(5, &mut rng) {
        PuzzleResult::Unique(grid) | PuzzleResult::Ambiguous(grid) => {
            assert_eq!(grid.len(), 25);
            for &v in grid.iter() {
                assert!(1 <= v && v <= 5);
            }
        },
        PuzzleResult::NoPlacement => panic!("size 5 admits placements"),
    }
}

#[test]
fn unique_board_has_one_solution() {
    // hunt for a seed that yields a verified-unique board and confirm the
    // counter agrees with the pipeline's verdict
    for seed in 0..20u64 {
        let mut rng = seed_rng(seed);
        if let PuzzleResult::Unique(grid) = create_queens_game(5, &mut rng) {
            assert_eq!(queens::counter::count_grid_solutions(&grid, 5), 1);
            return;
        }
    }
    panic!("no seed in range produced a unique board");
}

#[test]
fn fixed_seed_is_deterministic() {
    let mut rng1 = seed_rng(424242);
    let mut rng2 = seed_rng(424242);
    let first = create_queens_game(6, &mut rng1);
    let second = create_queens_game(6, &mut rng2);
    match (first, second) {
        (PuzzleResult::Unique(a), PuzzleResult::Unique(b)) => assert_eq!(a, b),
        (PuzzleResult::Ambiguous(a), PuzzleResult::Ambiguous(b)) => assert_eq!(a, b),
        (PuzzleResult::NoPlacement, PuzzleResult::NoPlacement) => {},
        _ => panic!("two runs with the same seed diverged"),
    }
}
