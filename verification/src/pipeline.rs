//! The full puzzle pipeline: search for a marker placement, grow regions
//! around the markers, count the solutions of the coloured board, and, when
//! it is ambiguous, repair conflict cells for a bounded number of passes.
//! A board returned as unique really has the original placement as its one
//! and only solution.

use vstd::prelude::*;
use crate::board::{
    binary_grid, cell_idx, chebyshev_close, col_of, grid_sized, in_bounds, is_queen,
    lemma_cell_idx_bounds, lemma_queen_at, lemma_size_ok_bound, queen_at, row_of, size_ok,
    valid_placement,
};
use crate::counter::{
    count_grid_solutions, grid_sol_ok, grid_some_solution, grid_two_solutions, sol_triple,
    triples_clash,
};
use crate::grower::{
    colours_in_range, fully_coloured, grow_regions, marker_col, marker_row, markers_coloured,
    regions_wf, regrow_regions,
};
use crate::paths::{lemma_path_cells_reachable, path_ok, reaches};
use crate::placement::generate_grid;
use crate::repair::{cell_kept, fix_invalid_colours, queen_list_coloured, queen_list_wf, repaired};
use crate::resolver::{change_colour, conflict_resolved, reachable_unbanned};
use crate::solutions::find_solutions;

verus! {

/// How many conflict-resolution passes the pipeline attempts before giving
/// the board back as ambiguous.
pub const MAX_RESOLVE_PASSES: u32 = 3;

/// The outcome of one generation attempt: a board whose only solution is
/// the generated placement, a best-effort board that is still ambiguous, or
/// the report that no placement exists for this size.
pub enum PuzzleResult {
    Unique(Vec<u32>),
    Ambiguous(Vec<u32>),
    NoPlacement,
}

/// A fully coloured, well-formed region board for the placement `q`.
pub open spec fn board_wf(cg: Seq<u32>, q: Seq<u32>, size: int) -> bool {
    regions_wf(cg, q, size) && fully_coloured(cg, size)
}

/// The assignment the true placement spells out: the marker of row `r`
/// stands in its own column and carries region `r + 1`.
pub open spec fn placement_sol(q: Seq<u32>, size: int) -> Seq<(u32, u32)> {
    Seq::new(size as nat, |r: int| (queen_at(q, size, r) as u32, (r + 1) as u32))
}

/// On any grid whose markers keep their own region ids, the original
/// placement is a candidate solution of the coloured board.
pub proof fn lemma_placement_is_solution(cg: Seq<u32>, q: Seq<u32>, size: int)
    requires
        0 < size <= 65535,
        valid_placement(q, size),
        grid_sized(cg, size),
        markers_coloured(cg, q, size),
    ensures
        grid_sol_ok(cg, size, placement_sol(q, size)),
{
    let sol = placement_sol(q, size);
    assert forall|r: int| 0 <= r < size implies (#[trigger] sol[r]).0 < size && cg[cell_idx(
        size,
        r,
        sol[r].0 as int,
    )] == sol[r].1 && sol[r].1 != 0 by {
        lemma_queen_at(q, size, r);
        assert(is_queen(q, size, r, queen_at(q, size, r)));
        assert(cg[cell_idx(size, r, queen_at(q, size, r))] == (r + 1) as u32);
    }
    assert forall|r1: int, r2: int|
        #![trigger sol_triple(sol, r1), sol_triple(sol, r2)]
        0 <= r1 < r2 < size implies !triples_clash(sol_triple(sol, r1), sol_triple(sol, r2)) by {
        lemma_queen_at(q, size, r1);
        lemma_queen_at(q, size, r2);
        let c1 = queen_at(q, size, r1);
        let c2 = queen_at(q, size, r2);
        assert(is_queen(q, size, r1, c1) && is_queen(q, size, r2, c2));
        assert(c1 != c2 && !chebyshev_close(r1, c1, r2, c2));
        assert(sol_triple(sol, r1) == (r1 as u32, c1 as u32, (r1 + 1) as u32));
        assert(sol_triple(sol, r2) == (r2 as u32, c2 as u32, (r2 + 1) as u32));
    }
}

/// If a board with the placement among its solutions is not ambiguous, the
/// placement is its only solution.
pub proof fn lemma_unique_is_placement(cg: Seq<u32>, q: Seq<u32>, size: int)
    requires
        grid_sol_ok(cg, size, placement_sol(q, size)),
        !grid_two_solutions(cg, size),
    ensures
        forall|sol: Seq<(u32, u32)>|
            #[trigger] grid_sol_ok(cg, size, sol) ==> sol == placement_sol(q, size),
{
    assert forall|sol: Seq<(u32, u32)>|
        #[trigger] grid_sol_ok(cg, size, sol) implies sol == placement_sol(q, size) by {
        if sol != placement_sol(q, size) {
            assert(grid_sol_ok(cg, size, placement_sol(q, size)));
            assert(grid_two_solutions(cg, size));
        }
    }
}

/// A repaired grid is well formed again: every kept cell still reaches its
/// region's marker through kept cells.
proof fn lemma_repaired_wf(
    g1: Seq<u32>,
    g2: Seq<u32>,
    cqi: Seq<(u32, u32, u32)>,
    q: Seq<u32>,
    size: int,
)
    requires
        0 < size <= 65535,
        g1.len() == size * size,
        valid_placement(q, size),
        colours_in_range(g1, size),
        queen_list_wf(cqi, size),
        queen_list_coloured(g1, cqi, size),
        queen_list_coloured(g2, cqi, size),
        colours_in_range(g2, size),
        repaired(g1, cqi, size, g2),
        forall|k: int| 0 <= k < size ==> ((#[trigger] cqi[k]).2 as int) == queen_at(q, size, k),
    ensures
        regions_wf(g2, q, size),
{
    assert(g2.len() == size * size);
    assert(markers_coloured(g2, q, size)) by {
        assert forall|r: int, c: int|
            in_bounds(size, r, c) && #[trigger] is_queen(q, size, r, c) implies g2[cell_idx(
            size,
            r,
            c,
        )] == (r + 1) as u32 by {
            lemma_queen_at(q, size, r);
            assert(c == queen_at(q, size, r));
            assert(c == cqi[r].2 as int);
            assert(g2[cell_idx(size, r, cqi[r].2 as int)] == (r + 1) as u32);
        }
    }
    assert forall|r: int, c: int|
        in_bounds(size, r, c) && g2[#[trigger] cell_idx(size, r, c)] != 0 implies 1 <= g2[cell_idx(
        size,
        r,
        c,
    )] && reaches(
        g2,
        size,
        marker_row(g2[cell_idx(size, r, c)]),
        marker_col(q, size, g2[cell_idx(size, r, c)]),
        r,
        c,
        g2[cell_idx(size, r, c)],
    ) by {
        lemma_cell_idx_bounds(size, r, c);
        let clr = g2[cell_idx(size, r, c)];
        assert(cell_kept(g1, cqi, size, r, c));
        assert(g2[cell_idx(size, r, c)] == g1[cell_idx(size, r, c)]);
        assert(1 <= clr <= size);
        let mr = clr - 1;
        let mc = cqi[clr - 1].2 as int;
        assert(reaches(g1, size, mr, mc, r, c, clr));
        let p = choose|p: Seq<(int, int)>|
            path_ok(g1, size, p, clr) && p[0] == (mr, mc) && p[p.len() - 1] == (r, c);
        lemma_path_cells_reachable(g1, size, p, clr);
        assert(path_ok(g2, size, p, clr)) by {
            assert forall|k: int| 1 <= k < p.len() implies g2[cell_idx(
                size,
                (#[trigger] p[k]).0,
                p[k].1,
            )] == clr by {
                let (pr, pc) = p[k];
                assert(in_bounds(size, pr, pc));
                assert(g1[cell_idx(size, pr, pc)] == clr);
                assert(reaches(g1, size, mr, mc, pr, pc, clr));
                assert(cell_kept(g1, cqi, size, pr, pc));
            }
        }
        assert(reaches(g2, size, mr, mc, r, c, clr)) by {
            assert(p[0] == (mr, mc) && p[p.len() - 1] == (r, c));
        }
        assert(marker_row(clr) == mr);
        assert(marker_col(q, size, clr) == queen_at(q, size, clr - 1));
        assert(marker_col(q, size, clr) == mc);
    }
}

/// The marker directory the repairer needs: entry `k` is region `k + 1`'s
/// marker, `(k + 1, k, column)`.
pub fn queen_index_list(queens_grid: &Vec<u32>, size: u32) -> (cqi: Vec<(u32, u32, u32)>)
    requires
        size_ok(size),
        0 < size,
        valid_placement(queens_grid@, size as int),
    ensures
        queen_list_wf(cqi@, size as int),
        forall|k: int|
            0 <= k < size ==> ((#[trigger] cqi@[k]).2 as int) == queen_at(
                queens_grid@,
                size as int,
                k,
            ),
{
    proof {
        lemma_size_ok_bound(size);
    }
    let ghost sz = size as int;
    let ghost q = queens_grid@;
    let mut cqi: Vec<(u32, u32, u32)> = Vec::new();
    let mut r: u32 = 0;
    while r < size
        invariant
            size_ok(size),
            size <= 65535,
            sz == size as int,
            r <= size,
            q == queens_grid@,
            valid_placement(q, sz),
            cqi@.len() == r,
            forall|k: int|
                0 <= k < r ==> (#[trigger] cqi@[k]).0 == (k + 1) as u32 && cqi@[k].1 == k as u32
                    && (cqi@[k].2 as int) == queen_at(q, sz, k) && (cqi@[k].2 as int) < size,
        decreases size - r,
    {
        let mut col: u32 = 0;
        let mut qcol: u32 = 0;
        let mut found = false;
        while col < size
            invariant
                size_ok(size),
                size <= 65535,
                sz == size as int,
                r < size,
                col <= size,
                q == queens_grid@,
                valid_placement(q, sz),
                !found ==> forall|c: int| 0 <= c < col ==> !is_queen(q, sz, r as int, c),
                found ==> qcol < size && is_queen(q, sz, r as int, qcol as int),
            decreases size - col,
        {
            proof {
                lemma_cell_idx_bounds(sz, r as int, col as int);
            }
            if queens_grid[(r * size + col) as usize] == 1 {
                qcol = col;
                found = true;
            }
            col = col + 1;
        }
        proof {
            lemma_queen_at(q, sz, r as int);
            if !found {
                assert(!is_queen(q, sz, r as int, queen_at(q, sz, r as int)));
            }
            assert(qcol as int == queen_at(q, sz, r as int));
        }
        cqi.push((r + 1, r, qcol));
        r = r + 1;
    }
    cqi
}

/// The conflict cells: positions where some alternate solution places a
/// marker but the true placement does not.
fn compute_conflicts(queens_grid: &Vec<u32>, all_solutions: &Vec<Vec<u32>>, size: u32) -> (conflicts:
    Vec<u32>)
    requires
        size_ok(size),
        queens_grid@.len() == size * size,
    ensures
        forall|k: int|
            0 <= k < conflicts@.len() ==> (#[trigger] conflicts@[k]) < size * size
                && queens_grid@[conflicts@[k] as int] != 1,
{
    let n = size * size;
    let mut conflicts: Vec<u32> = Vec::new();
    let mut i: u32 = 0;
    while i < n
        invariant
            n == size * size,
            queens_grid@.len() == n,
            i <= n,
            forall|k: int|
                0 <= k < conflicts@.len() ==> (#[trigger] conflicts@[k]) < n && queens_grid@[
                conflicts@[k] as int] != 1,
        decreases n - i,
    {
        if queens_grid[i as usize] != 1 {
            let mut s: usize = 0;
            let mut hit = false;
            while s < all_solutions.len() && !hit
                invariant
                    s <= all_solutions@.len(),
                decreases (if hit {
                    0int
                } else {
                    1int
                }), all_solutions@.len() - s,
            {
                let sol = &all_solutions[s];
                if (i as usize) < sol.len() {
                    if sol[i as usize] == 1 {
                        hit = true;
                    } else {
                        s = s + 1;
                    }
                } else {
                    s = s + 1;
                }
            }
            if hit {
                conflicts.push(i);
            }
        }
        i = i + 1;
    }
    conflicts
}

/// Generate a puzzle: place the markers, grow the regions, and repair the
/// board towards a unique solution for a bounded number of passes.  A
/// `Unique` result is a fully coloured, well-formed board whose one and
/// only candidate solution is the generated placement; an `Ambiguous`
/// result is still fully coloured and well formed; `NoPlacement` is
/// returned exactly when the size admits no marker placement at all.
#[verifier::rlimit(100)]
pub fn create_queens_game(grid_size: u32, rng: &mut rand::rngs::StdRng) -> (result: PuzzleResult)
    requires
        size_ok(grid_size),
        0 < grid_size,
    ensures
        (result is NoPlacement) <==> !(exists|p: Seq<u32>|
            valid_placement(p, grid_size as int)),
        result matches PuzzleResult::Unique(cg) ==> exists|q: Seq<u32>|
            {
                &&& #[trigger] valid_placement(q, grid_size as int)
                &&& board_wf(cg@, q, grid_size as int)
                &&& grid_sol_ok(cg@, grid_size as int, placement_sol(q, grid_size as int))
                &&& forall|sol: Seq<(u32, u32)>|
                    #[trigger] grid_sol_ok(cg@, grid_size as int, sol) ==> sol == placement_sol(
                        q,
                        grid_size as int,
                    )
            },
        result matches PuzzleResult::Ambiguous(cg) ==> grid_two_solutions(cg@, grid_size as int)
            && exists|q: Seq<u32>|
            #[trigger] valid_placement(q, grid_size as int) && board_wf(cg@, q, grid_size as int),
{
    proof {
        lemma_size_ok_bound(grid_size);
    }
    let ghost sz = grid_size as int;
    let queens_grid = match generate_grid(grid_size, rng) {
        Some(g) => g,
        None => {
            return PuzzleResult::NoPlacement;
        },
    };
    let ghost q = queens_grid@;
    let mut colour_grid = grow_regions(&queens_grid, grid_size, rng);
    let cqi = queen_index_list(&queens_grid, grid_size);
    let mut count = count_grid_solutions(&colour_grid, grid_size);
    let mut passes: u32 = 0;
    while count != 1 && passes < MAX_RESOLVE_PASSES
        invariant
            size_ok(grid_size),
            grid_size <= 65535,
            0 < grid_size,
            sz == grid_size as int,
            q == queens_grid@,
            valid_placement(q, sz),
            board_wf(colour_grid@, q, sz),
            queen_list_wf(cqi@, sz),
            forall|k: int|
                0 <= k < grid_size ==> ((#[trigger] cqi@[k]).2 as int) == queen_at(q, sz, k),
            count <= 2,
            (count == 0) == !grid_some_solution(colour_grid@, sz),
            (count == 1) == (grid_some_solution(colour_grid@, sz) && !grid_two_solutions(
                colour_grid@,
                sz,
            )),
            (count == 2) == grid_two_solutions(colour_grid@, sz),
            passes <= MAX_RESOLVE_PASSES,
        decreases (if count != 1 {
            1int
        } else {
            0int
        }), MAX_RESOLVE_PASSES - passes,
    {
        // gather the alternate solutions and the cells they disagree on
        let mut all_solutions: Vec<Vec<u32>> = Vec::new();
        let mut temp_grid: Vec<u32> = Vec::new();
        let nn = (grid_size * grid_size) as usize;
        while temp_grid.len() < nn
            invariant
                temp_grid@.len() <= nn,
                forall|j: int| 0 <= j < temp_grid@.len() ==> #[trigger] temp_grid@[j] == 0,
            decreases nn - temp_grid@.len(),
        {
            temp_grid.push(0);
        }
        proof {
            assert(binary_grid(temp_grid@, sz));
            assert forall|r: int, c: int|
                0 <= r < sz && 0 <= c < sz implies temp_grid@[#[trigger] cell_idx(sz, r, c)]
                == 0 by {
                lemma_cell_idx_bounds(sz, r, c);
            }
        }
        find_solutions(&colour_grid, &mut all_solutions, grid_size, &mut temp_grid, 0);
        let conflicts = compute_conflicts(&queens_grid, &all_solutions, grid_size);
        // the regions already implicated in this pass: each conflict bans the
        // region it is being moved out of for the rest of the pass
        let mut banned: Vec<u32> = Vec::new();
        let mut ci: usize = 0;
        while ci < conflicts.len() && count != 1
            invariant
                size_ok(grid_size),
                grid_size <= 65535,
                0 < grid_size,
                sz == grid_size as int,
                q == queens_grid@,
                valid_placement(q, sz),
                board_wf(colour_grid@, q, sz),
                queen_list_wf(cqi@, sz),
                forall|k: int|
                    0 <= k < grid_size ==> ((#[trigger] cqi@[k]).2 as int) == queen_at(q, sz, k),
                count <= 2,
                (count == 0) == !grid_some_solution(colour_grid@, sz),
                (count == 1) == (grid_some_solution(colour_grid@, sz) && !grid_two_solutions(
                    colour_grid@,
                    sz,
                )),
                (count == 2) == grid_two_solutions(colour_grid@, sz),
                ci <= conflicts@.len(),
                forall|k: int|
                    0 <= k < conflicts@.len() ==> (#[trigger] conflicts@[k]) < grid_size
                        * grid_size && queens_grid@[conflicts@[k] as int] != 1,
            decreases (if count != 1 {
                1int
            } else {
                0int
            }), conflicts@.len() - ci,
        {
            let conflict = conflicts[ci];
            banned.push(colour_grid[conflict as usize]);
            let ghost g_before = colour_grid@;
            change_colour(&mut colour_grid, conflict, grid_size, &queens_grid, &banned);
            proof {
                // markers keep their colours and the range is preserved:
                // repainted cells are non-marker cells painted with the
                // colour of a reachable coloured cell
                if reachable_unbanned(
                    g_before,
                    q,
                    banned@,
                    sz,
                    row_of(sz, conflict as int),
                    col_of(sz, conflict as int),
                ) {
                    let (clr, er, ec) = choose|clr: u32, er: int, ec: int|
                        #![trigger banned@.contains(clr), cell_idx(sz, er, ec)]
                        in_bounds(sz, er, ec) && !(er == row_of(sz, conflict as int) && ec
                            == col_of(sz, conflict as int)) && crate::paths::queen_free_reaches(
                            q,
                            sz,
                            row_of(sz, conflict as int),
                            col_of(sz, conflict as int),
                            er,
                            ec,
                        ) && !banned@.contains(clr) && g_before[cell_idx(sz, er, ec)] == clr
                            && colour_grid@[cell_idx(sz, er, ec)] == clr && colour_grid@[cell_idx(
                            sz,
                            row_of(sz, conflict as int),
                            col_of(sz, conflict as int),
                        )] == clr && crate::paths::reaches(
                            colour_grid@,
                            sz,
                            er,
                            ec,
                            row_of(sz, conflict as int),
                            col_of(sz, conflict as int),
                            clr,
                        ) && (forall|i2: int|
                            0 <= i2 < colour_grid@.len() ==> #[trigger] colour_grid@[i2]
                                == g_before[i2] || (q[i2] != 1 && colour_grid@[i2] == clr));
                    lemma_cell_idx_bounds(sz, er, ec);
                    assert(clr <= grid_size);
                    assert(clr != 0) by {
                        assert(g_before[cell_idx(sz, er, ec)] != 0);
                    }
                    assert forall|i2: int|
                        0 <= i2 < colour_grid@.len() implies #[trigger] colour_grid@[i2]
                        == g_before[i2] || (q[i2] != 1 && colour_grid@[i2] == clr) by {}
                }
                assert(colours_in_range(colour_grid@, sz)) by {
                    assert forall|i2: int|
                        0 <= i2 < colour_grid@.len() implies #[trigger] colour_grid@[i2]
                        <= grid_size by {
                        if colour_grid@[i2] != g_before[i2] {
                            assert(reachable_unbanned(
                                g_before,
                                q,
                                banned@,
                                sz,
                                row_of(sz, conflict as int),
                                col_of(sz, conflict as int),
                            ));
                        }
                    }
                }
                assert(queen_list_coloured(colour_grid@, cqi@, sz)) by {
                    assert forall|k: int|
                        0 <= k < grid_size implies colour_grid@[cell_idx(
                        sz,
                        k,
                        (#[trigger] cqi@[k]).2 as int,
                    )] == (k + 1) as u32 by {
                        lemma_queen_at(q, sz, k);
                        assert(is_queen(q, sz, k, cqi@[k].2 as int));
                        lemma_cell_idx_bounds(sz, k, cqi@[k].2 as int);
                        assert(g_before[cell_idx(sz, k, cqi@[k].2 as int)] == (k + 1) as u32);
                        assert(q[cell_idx(sz, k, cqi@[k].2 as int)] == 1);
                    }
                }
            }
            let ghost g_torn = colour_grid@;
            fix_invalid_colours(&mut colour_grid, &cqi, grid_size);
            proof {
                lemma_repaired_wf(g_torn, colour_grid@, cqi@, q, sz);
            }
            regrow_regions(&mut colour_grid, &queens_grid, grid_size, rng);
            count = count_grid_solutions(&colour_grid, grid_size);
            ci = ci + 1;
        }
        passes = passes + 1;
    }
    if count == 1 {
        proof {
            lemma_placement_is_solution(colour_grid@, q, sz);
            lemma_unique_is_placement(colour_grid@, q, sz);
            assert(valid_placement(q, sz) && board_wf(colour_grid@, q, sz) && grid_sol_ok(
                colour_grid@,
                sz,
                placement_sol(q, sz),
            ) && (forall|sol: Seq<(u32, u32)>|
                #[trigger] grid_sol_ok(colour_grid@, sz, sol) ==> sol == placement_sol(q, sz)));
        }
        PuzzleResult::Unique(colour_grid)
    } else {
        proof {
            assert(valid_placement(q, sz) && board_wf(colour_grid@, q, sz));
            // the placement always solves the board, so a non-unique count
            // can only mean a second solution exists
            lemma_placement_is_solution(colour_grid@, q, sz);
            assert(grid_some_solution(colour_grid@, sz));
            assert(count == 2);
            assert(grid_two_solutions(colour_grid@, sz));
        }
        PuzzleResult::Ambiguous(colour_grid)
    }
}

} // verus!
