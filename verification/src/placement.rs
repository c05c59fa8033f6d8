//! The backtracking marker-placement search: row by row, in a randomly
//! shuffled column order, place markers so that no two share a row or a
//! column and no two lie within one cell of each other.

use vstd::prelude::*;
use crate::board::{
    binary_grid, cell_idx, chebyshev_close, in_bounds, is_queen, lemma_cell_idx_bounds,
    lemma_cell_idx_distinct, lemma_size_ok_bound, placement_constraints, row_has_queen, size_ok,
    valid_placement,
};
use crate::rng_source::shuffle_u32s;

verus! {

broadcast use vstd::seq_lib::group_to_multiset_ensures;

/// Rows below `row` each hold one marker and obey the placement rules;
/// rows from `row` on are still untouched.
pub open spec fn partial_placement(q: Seq<u32>, size: int, row: int) -> bool {
    &&& binary_grid(q, size)
    &&& placement_constraints(q, size)
    &&& forall|r: int| 0 <= r < row ==> #[trigger] row_has_queen(q, size, r)
    &&& forall|r: int, c: int|
        row <= r < size && 0 <= c < size ==> !(#[trigger] is_queen(q, size, r, c))
}

/// The two grids hold the same values on every row below `row`.
pub open spec fn agrees_below(a: Seq<u32>, b: Seq<u32>, size: int, row: int) -> bool {
    forall|r: int, c: int|
        #![trigger a[cell_idx(size, r, c)]]
        #![trigger b[cell_idx(size, r, c)]]
        0 <= r < row && 0 <= c < size ==> a[cell_idx(size, r, c)] == b[cell_idx(size, r, c)]
}

/// Some full valid placement keeps everything `q` already placed below `row`.
pub open spec fn extendable(q: Seq<u32>, size: int, row: int) -> bool {
    exists|p: Seq<u32>| valid_placement(p, size) && agrees_below(p, q, size, row)
}

/// Some full valid placement extends `q` and puts the marker of row `row`
/// in column `col`.
pub open spec fn extendable_with(q: Seq<u32>, size: int, row: int, col: int) -> bool {
    exists|p: Seq<u32>|
        valid_placement(p, size) && agrees_below(p, q, size, row) && is_queen(p, size, row, col)
}

/// Placing a marker at `(row, col)` clashes with no marker already placed in
/// the rows below `row`.
pub open spec fn can_place(q: Seq<u32>, size: int, row: int, col: int) -> bool {
    forall|r: int, c: int|
        0 <= r < row && 0 <= c < size && #[trigger] is_queen(q, size, r, c) ==> c != col
            && !chebyshev_close(r, c, row, col)
}

/// A column that clashes with the rows already placed can never carry the
/// marker of `row` in any valid extension.
proof fn lemma_blocked_col(q: Seq<u32>, size: int, row: int, col: int)
    requires
        partial_placement(q, size, row),
        0 <= row < size,
        0 <= col < size,
        !can_place(q, size, row, col),
    ensures
        !extendable_with(q, size, row, col),
{
    if extendable_with(q, size, row, col) {
        let p = choose|p: Seq<u32>|
            valid_placement(p, size) && agrees_below(p, q, size, row) && is_queen(
                p,
                size,
                row,
                col,
            );
        let (r, c) = choose|r: int, c: int|
            0 <= r < row && 0 <= c < size && is_queen(q, size, r, c) && !(c != col
                && !chebyshev_close(r, c, row, col));
        assert(p[cell_idx(size, r, c)] == q[cell_idx(size, r, c)]);
        assert(is_queen(p, size, r, c));
        assert(c != col && !chebyshev_close(r, c, row, col));
    }
}

/// Placing a compatible marker at `(row, col)` advances the partial
/// placement by one row, and the extensions of the new grid are exactly the
/// extensions of the old one whose marker of `row` sits in `col`.
proof fn lemma_place_queen(q: Seq<u32>, size: int, row: int, col: int)
    requires
        partial_placement(q, size, row),
        0 <= row < size,
        0 <= col < size,
        can_place(q, size, row, col),
    ensures
        partial_placement(q.update(cell_idx(size, row, col), 1), size, row + 1),
        agrees_below(q.update(cell_idx(size, row, col), 1), q, size, row),
        forall|p: Seq<u32>|
            valid_placement(p, size) ==> (agrees_below(
                p,
                q.update(cell_idx(size, row, col), 1),
                size,
                row + 1,
            ) <==> (agrees_below(p, q, size, row) && is_queen(p, size, row, col))),
{
    let q2 = q.update(cell_idx(size, row, col), 1);
    lemma_cell_idx_bounds(size, row, col);
    assert forall|r: int, c: int|
        in_bounds(size, r, c) && !(r == row && c == col) implies #[trigger] q2[cell_idx(
        size,
        r,
        c,
    )] == q[cell_idx(size, r, c)] by {
        lemma_cell_idx_bounds(size, r, c);
        lemma_cell_idx_distinct(size, r, c, row, col);
    }
    assert(is_queen(q2, size, row, col));
    assert forall|r: int, c: int|
        in_bounds(size, r, c) && !(r == row && c == col) implies (is_queen(q2, size, r, c)
        <==> is_queen(q, size, r, c)) by {
        assert(q2[cell_idx(size, r, c)] == q[cell_idx(size, r, c)]);
    }
    assert(partial_placement(q2, size, row + 1)) by {
        assert(binary_grid(q2, size)) by {
            assert(forall|i: int|
                0 <= i < q2.len() && i != cell_idx(size, row, col) ==> q2[i] == q[i]);
        }
        assert(placement_constraints(q2, size)) by {
            assert forall|r: int, c1: int, c2: int|
                0 <= r < size && 0 <= c1 < size && 0 <= c2 < size && is_queen(q2, size, r, c1)
                    && is_queen(q2, size, r, c2) implies c1 == c2 by {
                if !(r == row && c1 == col) && !(r == row && c2 == col) {
                    assert(is_queen(q, size, r, c1) && is_queen(q, size, r, c2));
                } else if r == row && c1 == col && c2 != col {
                    assert(is_queen(q, size, row, c2));
                    assert(!is_queen(q, size, row, c2));
                } else if r == row && c2 == col && c1 != col {
                    assert(is_queen(q, size, row, c1));
                    assert(!is_queen(q, size, row, c1));
                }
            }
            assert forall|r1: int, c1: int, r2: int, c2: int|
                in_bounds(size, r1, c1) && in_bounds(size, r2, c2) && r1 != r2 && is_queen(
                    q2,
                    size,
                    r1,
                    c1,
                ) && is_queen(q2, size, r2, c2) implies c1 != c2 && !chebyshev_close(
                r1,
                c1,
                r2,
                c2,
            ) by {
                if r1 == row && c1 == col {
                    assert(is_queen(q, size, r2, c2));
                    if r2 >= row {
                        assert(!is_queen(q, size, r2, c2));
                    }
                    assert(c2 != col && !chebyshev_close(r2, c2, row, col));
                } else if r2 == row && c2 == col {
                    assert(is_queen(q, size, r1, c1));
                    if r1 >= row {
                        assert(!is_queen(q, size, r1, c1));
                    }
                    assert(c1 != col && !chebyshev_close(r1, c1, row, col));
                } else {
                    assert(is_queen(q, size, r1, c1) && is_queen(q, size, r2, c2));
                }
            }
        }
        assert forall|r: int| 0 <= r < row + 1 implies #[trigger] row_has_queen(q2, size, r) by {
            if r < row {
                assert(row_has_queen(q, size, r));
                let c = choose|c: int| 0 <= c < size && is_queen(q, size, r, c);
                assert(is_queen(q2, size, r, c));
            } else {
                assert(is_queen(q2, size, row, col));
            }
        }
        assert forall|r: int, c: int|
            row + 1 <= r < size && 0 <= c < size implies !is_queen(q2, size, r, c) by {
            assert(!is_queen(q, size, r, c));
        }
    }
    assert forall|p: Seq<u32>| valid_placement(p, size) implies (agrees_below(
        p,
        q2,
        size,
        row + 1,
    ) <==> (agrees_below(p, q, size, row) && is_queen(p, size, row, col))) by {
        if agrees_below(p, q2, size, row + 1) {
            assert(p[cell_idx(size, row, col)] == q2[cell_idx(size, row, col)]);
            assert(is_queen(p, size, row, col));
            assert forall|r: int, c: int| 0 <= r < row && 0 <= c < size implies p[cell_idx(
                size,
                r,
                c,
            )] == q[cell_idx(size, r, c)] by {
                assert(p[cell_idx(size, r, c)] == q2[cell_idx(size, r, c)]);
            }
            assert(agrees_below(p, q, size, row));
        }
        if agrees_below(p, q, size, row) && is_queen(p, size, row, col) {
            assert forall|r: int, c: int| 0 <= r < row + 1 && 0 <= c < size implies p[cell_idx(
                size,
                r,
                c,
            )] == q2[cell_idx(size, r, c)] by {
                if r < row {
                    assert(p[cell_idx(size, r, c)] == q[cell_idx(size, r, c)]);
                } else if c == col {
                    assert(p[cell_idx(size, row, col)] == 1);
                } else {
                    lemma_cell_idx_bounds(size, r, c);
                    assert(q2[cell_idx(size, r, c)] == q[cell_idx(size, r, c)]);
                    assert(!is_queen(q, size, r, c));
                    assert(q2[cell_idx(size, r, c)] == 0);
                    if p[cell_idx(size, r, c)] == 1 {
                        assert(is_queen(p, size, row, c));
                        assert(c == col);
                    }
                    assert(p[cell_idx(size, r, c)] == 0 || p[cell_idx(size, r, c)] == 1);
                }
            }
            assert(agrees_below(p, q2, size, row + 1));
        }
    }
}

/// Whether a marker at `(row, col)` clashes with no marker already placed
/// below `row`: no shared column, and nothing within one cell.
pub fn is_valid(grid: &Vec<u32>, row: u32, col: u32, size: u32) -> (ok: bool)
    requires
        size_ok(size),
        grid@.len() == size * size,
        row < size,
        col < size,
    ensures
        ok == can_place(grid@, size as int, row as int, col as int),
{
    proof {
        lemma_size_ok_bound(size);
    }
    let mut r: u32 = 0;
    while r < row
        invariant
            size_ok(size),
            r <= row,
            row < size,
            col < size,
            size <= 65535,
            grid@.len() == size * size,
            forall|rr: int, cc: int|
                0 <= rr < r && 0 <= cc < size && #[trigger] is_queen(grid@, size as int, rr, cc)
                    ==> cc != col && !chebyshev_close(rr, cc, row as int, col as int),
        decreases row - r,
    {
        let mut c: u32 = 0;
        while c < size
            invariant
                size_ok(size),
                r < row,
                row < size,
                col < size,
                c <= size,
                size <= 65535,
                grid@.len() == size * size,
                forall|cc: int|
                    0 <= cc < c && #[trigger] is_queen(grid@, size as int, r as int, cc) ==> cc
                        != col && !chebyshev_close(r as int, cc, row as int, col as int),
            decreases size - c,
        {
            proof {
                lemma_cell_idx_bounds(size as int, r as int, c as int);
            }
            let i = (r * size + c) as usize;
            proof {
                assert(i as int == cell_idx(size as int, r as int, c as int));
            }
            if grid[i] == 1 {
                assert(is_queen(grid@, size as int, r as int, c as int));
                if c == col {
                    return false;
                }
                if r + 1 >= row && row + 1 >= r && c + 1 >= col && col + 1 >= c {
                    assert(chebyshev_close(r as int, c as int, row as int, col as int));
                    return false;
                }
                assert(!chebyshev_close(r as int, c as int, row as int, col as int));
            } else {
                assert(!is_queen(grid@, size as int, r as int, c as int));
            }
            c = c + 1;
        }
        r = r + 1;
    }
    true
}

/// One step of the backtracking search: fill rows `row..size` in a randomly
/// shuffled column order.  On success the grid is a full valid placement
/// that keeps the rows already filled; on failure the grid is untouched and
/// no valid placement extends it.
pub fn add_row(grid: &mut Vec<u32>, row: u32, size: u32, rng: &mut rand::rngs::StdRng) -> (placed:
    bool)
    requires
        size_ok(size),
        row <= size,
        partial_placement(old(grid)@, size as int, row as int),
    ensures
        placed ==> valid_placement(final(grid)@, size as int) && agrees_below(
            final(grid)@,
            old(grid)@,
            size as int,
            row as int,
        ),
        !placed ==> final(grid)@ == old(grid)@ && !extendable(old(grid)@, size as int, row as int),
    decreases size - row,
{
    if row == size {
        return true;
    }
    let mut cols: Vec<u32> = Vec::new();
    let mut c: u32 = 0;
    while c < size
        invariant
            c <= size,
            cols@.len() == c,
            forall|k: int| 0 <= k < c ==> cols@[k] == k,
        decreases size - c,
    {
        cols.push(c);
        c = c + 1;
    }
    let ghost plain = cols@;
    shuffle_u32s(rng, &mut cols);
    proof {
        assert forall|k: int| 0 <= k < cols@.len() implies cols@[k] < size by {
            assert(cols@.contains(cols@[k]));
            assert(cols@.to_multiset().count(cols@[k]) > 0);
            assert(plain.contains(cols@[k]));
        }
        assert forall|v: u32| v < size implies cols@.contains(v) by {
            assert(plain[v as int] == v);
            assert(plain.contains(v));
            assert(plain.to_multiset().count(v) > 0);
        }
    }
    let ghost g0 = grid@;
    let mut i: usize = 0;
    while i < cols.len()
        invariant
            size_ok(size),
            row < size,
            i <= cols@.len(),
            cols@.len() == size,
            forall|k: int| 0 <= k < cols@.len() ==> cols@[k] < size,
            forall|v: u32| v < size ==> cols@.contains(v),
            grid@ == g0,
            g0 == old(grid)@,
            partial_placement(g0, size as int, row as int),
            forall|k: int|
                0 <= k < i ==> !extendable_with(g0, size as int, row as int, cols@[k] as int),
        decreases cols@.len() - i,
    {
        let col = cols[i];
        if is_valid(grid, row, col, size) {
            proof {
                lemma_cell_idx_bounds(size as int, row as int, col as int);
                lemma_place_queen(g0, size as int, row as int, col as int);
            }
            let idx = (row * size + col) as usize;
            proof {
                assert(idx as int == cell_idx(size as int, row as int, col as int));
            }
            grid[idx] = 1;
            let ghost g1 = grid@;
            assert(g1 == g0.update(cell_idx(size as int, row as int, col as int), 1u32));
            if add_row(grid, row + 1, size, rng) {
                proof {
                    assert(agrees_below(grid@, g1, size as int, row as int + 1));
                    assert forall|r: int, cc: int|
                        0 <= r < row && 0 <= cc < size implies grid@[cell_idx(
                        size as int,
                        r,
                        cc,
                    )] == g0[cell_idx(size as int, r, cc)] by {
                        lemma_cell_idx_bounds(size as int, r, cc);
                        assert(grid@[cell_idx(size as int, r, cc)] == g1[cell_idx(
                            size as int,
                            r,
                            cc,
                        )]);
                        lemma_cell_idx_distinct(size as int, r, cc, row as int, col as int);
                    }
                    assert(agrees_below(grid@, g0, size as int, row as int));
                }
                return true;
            }
            grid[idx] = 0;
            proof {
                assert(g0[cell_idx(size as int, row as int, col as int)] == 0) by {
                    assert(!is_queen(g0, size as int, row as int, col as int));
                    assert(g0[cell_idx(size as int, row as int, col as int)] == 0 || g0[cell_idx(
                        size as int,
                        row as int,
                        col as int,
                    )] == 1);
                }
                assert(grid@ =~= g0);
                // the recursive call failed: nothing extends g1, hence nothing
                // extends g0 with the marker of `row` in `col`
                assert(!extendable_with(g0, size as int, row as int, col as int)) by {
                    if extendable_with(g0, size as int, row as int, col as int) {
                        let p = choose|p: Seq<u32>|
                            valid_placement(p, size as int) && agrees_below(
                                p,
                                g0,
                                size as int,
                                row as int,
                            ) && is_queen(p, size as int, row as int, col as int);
                        assert(agrees_below(p, g1, size as int, row as int + 1));
                        assert(extendable(g1, size as int, row as int + 1));
                    }
                }
            }
        } else {
            proof {
                lemma_blocked_col(g0, size as int, row as int, col as int);
            }
        }
        i = i + 1;
    }
    proof {
        assert(!extendable(g0, size as int, row as int)) by {
            if extendable(g0, size as int, row as int) {
                let p = choose|p: Seq<u32>|
                    valid_placement(p, size as int) && agrees_below(p, g0, size as int, row as int);
                assert(row_has_queen(p, size as int, row as int));
                let pc = choose|cc: int| 0 <= cc < size && is_queen(p, size as int, row as int, cc);
                assert(cols@.contains(pc as u32));
                let k = choose|k: int| 0 <= k < cols@.len() && cols@[k] == pc as u32;
                assert(extendable_with(g0, size as int, row as int, cols@[k] as int));
            }
        }
    }
    false
}

/// Search for a marker placement for a board of the given size.  Returns the
/// placement as a 0/1 grid, or `None` exactly when no valid placement exists
/// for this size.
pub fn generate_grid(size: u32, rng: &mut rand::rngs::StdRng) -> (result: Option<Vec<u32>>)
    requires
        size_ok(size),
    ensures
        match result {
            Some(grid) => valid_placement(grid@, size as int),
            None => !(exists|p: Seq<u32>| valid_placement(p, size as int)),
        },
{
    let n = (size * size) as usize;
    let mut grid: Vec<u32> = Vec::new();
    let mut i: usize = 0;
    while i < n
        invariant
            i <= n,
            grid@.len() == i,
            forall|k: int| 0 <= k < i ==> grid@[k] == 0,
        decreases n - i,
    {
        grid.push(0);
        i = i + 1;
    }
    proof {
        assert(partial_placement(grid@, size as int, 0)) by {
            assert forall|r: int, c: int|
                0 <= r < size && 0 <= c < size implies !is_queen(grid@, size as int, r, c) by {
                lemma_cell_idx_bounds(size as int, r, c);
            }
            assert forall|r: int, c: int|
                in_bounds(size as int, r, c) implies !is_queen(grid@, size as int, r, c) by {
                lemma_cell_idx_bounds(size as int, r, c);
            }
        }
    }
    if add_row(&mut grid, 0, size, rng) {
        Some(grid)
    } else {
        proof {
            if exists|p: Seq<u32>| valid_placement(p, size as int) {
                let p = choose|p: Seq<u32>| valid_placement(p, size as int);
                assert(agrees_below(p, grid@, size as int, 0));
                assert(extendable(grid@, size as int, 0));
            }
        }
        None
    }
}

} // verus!
