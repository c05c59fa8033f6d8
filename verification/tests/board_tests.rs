//! Unit behaviour of the pipeline stages on hand-built boards.

use queens::counter::{
    check_clash, check_valid_addition, collect_candidates, count_grid_solutions, count_solutions,
};
use queens::grower::{all_neighbours_found, colour_cell, find_colours, grow_regions};
use queens::placement::{generate_grid, is_valid};
use queens::repair::fix_invalid_colours;
use queens::resolver::{change_colour, check_grids, fill_grid};
use queens::rng_source::seed_rng;
use queens::solutions::{find_solutions, get_queens, valid_solution};

/// The 4 by 4 placement with markers at columns 1, 3, 0, 2 of rows 0 to 3.
fn known_placement() -> Vec<u32> {
    let mut q = vec![0u32; 16];
    q[0 * 4 + 1] = 1;
    q[1 * 4 + 3] = 1;
    q[2 * 4 + 0] = 1;
    q[3 * 4 + 2] = 1;
    q
}

/// Vertical stripes: every cell of column c carries region c + 1.
fn stripes() -> Vec<u32> {
    let mut cg = vec![0u32; 16];
    for r in 0..4usize {
        for c in 0..4usize {
            cg[r * 4 + c] = (c + 1) as u32;
        }
    }
    cg
}

#[test]
fn generated_placement_is_valid() {
    let mut rng = seed_rng(1);
    let grid = generate_grid(5, &mut rng).expect("size 5 admits a placement");
    assert_eq!(grid.len(), 25);
    let queens = get_queens(grid.clone(), 5);
    assert_eq!(queens.len(), 5);
    for i in 0..queens.len() {
        assert_eq!(queens[i].0 as usize, i);
        for j in (i + 1)..queens.len() {
            let (r1, c1) = queens[i];
            let (r2, c2) = queens[j];
            assert_ne!(c1, c2);
            let close_rows = r1 + 1 >= r2 && r2 + 1 >= r1;
            let close_cols = c1 + 1 >= c2 && c2 + 1 >= c1;
            assert!(!(close_rows && close_cols));
        }
    }
}

#[test]
fn no_placement_for_small_sizes() {
    let mut rng = seed_rng(2);
    assert!(generate_grid(2, &mut rng).is_none());
    assert!(generate_grid(3, &mut rng).is_none());
}

#[test]
fn is_valid_detects_clashes() {
    let q = known_placement();
    // same column as the marker of row 0
    assert!(!is_valid(&q, 2, 1, 4));
    // diagonal neighbour of the marker at (1, 3)
    assert!(!is_valid(&q, 2, 2, 4));
    // row 2 is checked against rows 0 and 1 only: column 0 is free there
    assert!(is_valid(&q, 2, 0, 4));
}

#[test]
fn grower_covers_board_with_one_marker_per_region() {
    let q = known_placement();
    let mut rng = seed_rng(9);
    let cg = grow_regions(&q, 4, &mut rng);
    assert_eq!(cg.len(), 16);
    for &v in cg.iter() {
        assert!(1 <= v && v <= 4);
    }
    // each marker seeds its own region, and no region holds a second marker
    let queens = get_queens(q.clone(), 4);
    for (r, c) in [(0u32, 1u32), (1, 3), (2, 0), (3, 2)] {
        assert_eq!(cg[(r * 4 + c) as usize], r + 1);
    }
    for i in 0..queens.len() {
        for j in (i + 1)..queens.len() {
            let (r1, c1) = queens[i];
            let (r2, c2) = queens[j];
            assert_ne!(cg[(r1 * 4 + c1) as usize], cg[(r2 * 4 + c2) as usize]);
        }
    }
}

#[test]
fn check_clash_covers_every_rule() {
    assert!(check_clash((0, 0, 1), (0, 3, 2)));
    assert!(check_clash((0, 0, 1), (2, 0, 2)));
    assert!(check_clash((0, 0, 1), (2, 3, 1)));
    assert!(check_clash((0, 0, 1), (1, 1, 2)));
    assert!(!check_clash((0, 0, 1), (2, 2, 2)));
}

#[test]
fn striped_board_has_two_solutions() {
    let cg = stripes();
    assert_eq!(count_grid_solutions(&cg, 4), 2);
}

#[test]
fn empty_board_has_no_solution() {
    let cg = vec![0u32; 4];
    assert_eq!(count_grid_solutions(&cg, 2), 0);
    let cg2 = vec![1u32, 2, 1, 2];
    assert_eq!(count_grid_solutions(&cg2, 2), 0);
}

#[test]
fn one_cell_board_has_one_solution() {
    let cg = vec![1u32];
    assert_eq!(count_grid_solutions(&cg, 1), 1);
}

#[test]
fn count_solutions_on_candidates() {
    let cg = stripes();
    let cands = collect_candidates(&cg, 4);
    let mut placed = Vec::new();
    let mut count = 0u32;
    count_solutions(0, 4, &cands, &mut placed, &mut count);
    assert_eq!(count, 2);
}

#[test]
fn find_solutions_enumerates_both_stripe_solutions() {
    let cg = stripes();
    let mut all = Vec::new();
    let mut temp = vec![0u32; 16];
    let n = find_solutions(&cg, &mut all, 4, &mut temp, 0);
    assert_eq!(n, 2);
    assert_eq!(all.len(), 2);
    for sol in all.iter() {
        assert_eq!(sol.iter().filter(|&&v| v == 1).count(), 4);
    }
    assert_ne!(all[0], all[1]);
}

#[test]
fn valid_solution_accepts_and_rejects() {
    let q = known_placement();
    assert!(valid_solution(q.clone(), 4, &vec![2, 4, 1, 3]));
    // duplicate region ids among the markers
    assert!(!valid_solution(q.clone(), 4, &vec![1, 1, 2, 3]));
    // two markers in one row
    let mut bad = q.clone();
    bad[0 * 4 + 3] = 1;
    assert!(!valid_solution(bad, 4, &vec![2, 4, 1, 3]));
}

#[test]
fn repair_resets_disconnected_fragment() {
    // region 1 owns (0,0) and (0,1) but also a stray cell at (2,2)
    let cg = vec![1u32, 1, 2, 3, 2, 2, 3, 3, 1];
    let cqi = vec![(1u32, 0u32, 0u32), (2, 1, 2), (3, 2, 0)];
    let mut repaired = cg.clone();
    fix_invalid_colours(&mut repaired, &cqi, 3);
    assert_eq!(repaired, vec![1, 1, 2, 3, 2, 2, 3, 3, 0]);
    // repairing again changes nothing
    let mut twice = repaired.clone();
    fix_invalid_colours(&mut twice, &cqi, 3);
    assert_eq!(twice, repaired);
}

#[test]
fn repair_keeps_connected_regions() {
    let cg = vec![1u32, 1, 2, 3, 2, 2, 3, 3, 3];
    let cqi = vec![(1u32, 0u32, 0u32), (2, 1, 2), (3, 2, 0)];
    let mut repaired = cg.clone();
    fix_invalid_colours(&mut repaired, &cqi, 3);
    assert_eq!(repaired, cg);
}

#[test]
fn resolver_never_increases_solution_count() {
    // the striped board admits two solutions; recolouring a conflict cell
    // must not create a third
    let mut cg = stripes();
    let q = known_placement();
    let before = count_grid_solutions(&cg, 4);
    assert_eq!(before, 2);
    // (0, 2) carries a marker in the alternate solution but not in the
    // placement
    let conflict = 2u32;
    assert_ne!(q[conflict as usize], 1);
    let banned = vec![cg[conflict as usize]];
    change_colour(&mut cg, conflict, 4, &q, &banned);
    let after = count_grid_solutions(&cg, 4);
    assert!(after <= before);
}

#[test]
fn find_colours_lists_neighbours_in_order() {
    let cg = vec![0u32, 1, 2, 0];
    // neighbours of (0,0): below holds 2, right holds 1
    assert_eq!(find_colours(&cg, 0, 0, 2), vec![2, 1]);
    // neighbours of (1,1): above holds 1, to the left holds 2
    assert_eq!(find_colours(&cg, 1, 1, 2), vec![1, 2]);
}

#[test]
fn colour_cell_queues_unassigned_neighbours() {
    let cg = vec![0u32, 0, 0, 1];
    let mut queue = Vec::new();
    let mut seen = vec![false; 4];
    colour_cell(&cg, &mut queue, &mut seen, 0, 0, 2);
    assert_eq!(queue, vec![(1, 0), (0, 1)]);
    // queueing again adds nothing: the cells are already seen
    colour_cell(&cg, &mut queue, &mut seen, 0, 0, 2);
    assert_eq!(queue.len(), 2);
}

#[test]
fn all_neighbours_found_checks_the_neighbourhood() {
    let full = vec![1u32, 1, 1, 0];
    assert!(all_neighbours_found(&full, 0, 0, 2));
    let partial = vec![1u32, 0, 1, 0];
    assert!(!all_neighbours_found(&partial, 0, 0, 2));
}

#[test]
fn check_grids_compares_exactly() {
    assert!(check_grids(&[1, 2, 3], &[1, 2, 3]));
    assert!(!check_grids(&[1, 2, 3], &[1, 2, 4]));
    assert!(!check_grids(&[1, 2], &[1, 2, 3]));
}

#[test]
fn fill_grid_paints_unassigned_blocks() {
    let mut cg = vec![0u32, 0, 1, 2];
    let no_bans: Vec<Vec<u32>> = vec![vec![], vec![], vec![], vec![]];
    fill_grid(&mut cg, 2, &no_bans);
    assert_eq!(cg, vec![1, 1, 1, 2]);
    let mut cg2 = vec![0u32, 0, 1, 2];
    let bans = vec![vec![1u32], vec![], vec![], vec![]];
    fill_grid(&mut cg2, 2, &bans);
    assert_eq!(cg2, vec![2, 2, 1, 2]);
}

#[test]
fn check_valid_addition_finds_completions() {
    let cg = stripes();
    let cands = collect_candidates(&cg, 4);
    let mut building = Vec::new();
    let mut rows = Vec::new();
    let mut pool = cands.clone();
    // the striped board can be completed, so "no solution" is false
    assert!(!check_valid_addition(&mut building, &mut pool, 4, &mut rows));
    // a two-column board cannot
    let cg2 = vec![1u32, 2, 1, 2];
    let cands2 = collect_candidates(&cg2, 2);
    let mut building2 = Vec::new();
    let mut rows2 = Vec::new();
    let mut pool2 = cands2.clone();
    assert!(check_valid_addition(&mut building2, &mut pool2, 2, &mut rows2));
}

#[test]
fn colour_grid_recursively_extends_colouring() {
    let mut rng = seed_rng(5);
    // a 2 by 2 board with the top row coloured and the bottom row queued
    let mut cg = vec![1u32, 2, 0, 0];
    let queue = vec![(1u32, 0u32), (1u32, 1u32)];
    let mut seen = vec![false; 4];
    seen[2] = true;
    seen[3] = true;
    let mut working = Vec::new();
    queens::grower::colour_grid_recursively(&mut cg, queue, seen, 2, &mut working, &mut rng);
    // the top row is untouched and anything newly coloured is recorded
    assert_eq!(cg[0], 1);
    assert_eq!(cg[1], 2);
    for &(r, c, clr) in working.iter() {
        assert_eq!(cg[(r * 2 + c) as usize], clr);
        assert!(clr != 0);
    }
}

#[test]
fn get_queens_lists_markers_in_order() {
    let q = known_placement();
    let queens = get_queens(q, 4);
    assert_eq!(queens, vec![(0, 1), (1, 3), (2, 0), (3, 2)]);
}

#[test]
fn count_solutions_with_forced_cell() {
    // forcing the marker of row 0 onto column 1 leaves exactly one of the
    // striped board's two solutions
    let cg = stripes();
    let cands = collect_candidates(&cg, 4);
    let mut placed = vec![(0u32, 1u32, 2u32)];
    let mut count = 0u32;
    count_solutions(0, 4, &cands, &mut placed, &mut count);
    assert_eq!(count, 1);
    assert_eq!(placed, vec![(0, 1, 2)]);
}

#[test]
fn fill_grid_paints_blocks_in_scan_order() {
    // two separate unassigned cells: each is its own block and each takes
    // the first colour discovered on its border
    let mut cg = vec![0u32, 1, 2, 0];
    let no_bans: Vec<Vec<u32>> = vec![vec![], vec![], vec![], vec![]];
    fill_grid(&mut cg, 2, &no_bans);
    assert_eq!(cg, vec![2, 1, 2, 1]);
}

#[test]
fn fill_grid_stops_at_first_unpaintable_block() {
    // the first block bans both bordering colours, so the pass stops there
    // and the second block stays unassigned even though it could be painted
    let mut cg = vec![0u32, 1, 2, 0];
    let bans: Vec<Vec<u32>> = vec![vec![1, 2], vec![], vec![], vec![]];
    fill_grid(&mut cg, 2, &bans);
    assert_eq!(cg, vec![0, 1, 2, 0]);
}
