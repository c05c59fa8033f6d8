//! The solution finder: enumerate every marker layout a coloured board
//! admits, validating complete layouts cell by cell.  The resolver feeds on
//! the alternates this search returns.

use vstd::prelude::*;
use crate::board::{
    binary_grid, cell_idx, chebyshev_close, in_bounds, is_queen, lemma_cell_idx_bounds,
    lemma_cell_idx_distinct, lemma_size_ok_bound, size_ok,
};
use crate::placement::agrees_below;

verus! {

/// Row `r` holds exactly one marker.
pub open spec fn one_queen_in_row(g: Seq<u32>, size: int, r: int) -> bool {
    &&& exists|c: int| 0 <= c < size && is_queen(g, size, r, c)
    &&& forall|c1: int, c2: int|
        #![trigger is_queen(g, size, r, c1), is_queen(g, size, r, c2)]
        0 <= c1 < size && 0 <= c2 < size && is_queen(g, size, r, c1) && is_queen(g, size, r, c2)
            ==> c1 == c2
}

/// Column `c` holds exactly one marker.
pub open spec fn one_queen_in_col(g: Seq<u32>, size: int, c: int) -> bool {
    &&& exists|r: int| 0 <= r < size && is_queen(g, size, r, c)
    &&& forall|r1: int, r2: int|
        #![trigger is_queen(g, size, r1, c), is_queen(g, size, r2, c)]
        0 <= r1 < size && 0 <= r2 < size && is_queen(g, size, r1, c) && is_queen(g, size, r2, c)
            ==> r1 == r2
}

/// No two distinct markers lie within one cell of each other.
pub open spec fn queens_separated(g: Seq<u32>, size: int) -> bool {
    forall|r1: int, c1: int, r2: int, c2: int|
        #![trigger is_queen(g, size, r1, c1), is_queen(g, size, r2, c2)]
        in_bounds(size, r1, c1) && in_bounds(size, r2, c2) && (r1 != r2 || c1 != c2) && is_queen(
            g,
            size,
            r1,
            c1,
        ) && is_queen(g, size, r2, c2) ==> !chebyshev_close(r1, c1, r2, c2)
}

/// No two distinct markers share a region id.
pub open spec fn queen_regions_distinct(cg: Seq<u32>, g: Seq<u32>, size: int) -> bool {
    forall|r1: int, c1: int, r2: int, c2: int|
        #![trigger is_queen(g, size, r1, c1), is_queen(g, size, r2, c2)]
        in_bounds(size, r1, c1) && in_bounds(size, r2, c2) && (r1 != r2 || c1 != c2) && is_queen(
            g,
            size,
            r1,
            c1,
        ) && is_queen(g, size, r2, c2) ==> cg[cell_idx(size, r1, c1)] != cg[cell_idx(
            size,
            r2,
            c2,
        )]
}

/// A full marker grid that solves the coloured board: one marker per row
/// and per column, all pairwise separated, with pairwise distinct regions.
pub open spec fn grid_solution(cg: Seq<u32>, g: Seq<u32>, size: int) -> bool {
    &&& forall|r: int| 0 <= r < size ==> #[trigger] one_queen_in_row(g, size, r)
    &&& forall|c: int| 0 <= c < size ==> #[trigger] one_queen_in_col(g, size, c)
    &&& queens_separated(g, size)
    &&& queen_regions_distinct(cg, g, size)
}

/// What the search finds below `row`: a grid agreeing with `base` on the
/// rows already fixed, with exactly one coloured marker in each later row,
/// that solves the coloured board.
pub open spec fn found_sol(
    cg: Seq<u32>,
    size: int,
    base: Seq<u32>,
    row: int,
    g: Seq<u32>,
) -> bool {
    &&& binary_grid(g, size)
    &&& agrees_below(g, base, size, row)
    &&& forall|r: int, c: int|
        row <= r < size && 0 <= c < size && #[trigger] is_queen(g, size, r, c) ==> cg[cell_idx(
            size,
            r,
            c,
        )] != 0
    &&& grid_solution(cg, g, size)
}

/// Found grids whose marker of row `row` sits in a column below `hi`.
pub open spec fn found_sol_upto(
    cg: Seq<u32>,
    size: int,
    base: Seq<u32>,
    row: int,
    hi: int,
    g: Seq<u32>,
) -> bool {
    found_sol(cg, size, base, row, g) && exists|c: int|
        0 <= c < hi && is_queen(g, size, row, c)
}

/// An identical, independently owned copy of a grid.
fn copy_grid(v: &Vec<u32>) -> (r: Vec<u32>)
    ensures
        r@ == v@,
{
    let mut r: Vec<u32> = Vec::new();
    let mut i: usize = 0;
    while i < v.len()
        invariant
            i <= v@.len(),
            r@ =~= v@.take(i as int),
        decreases v@.len() - i,
    {
        r.push(v[i]);
        proof {
            assert(r@ =~= v@.take(i as int + 1));
        }
        i = i + 1;
    }
    proof {
        assert(v@.take(v@.len() as int) =~= v@);
    }
    r
}

/// The marker positions of a grid, in row-major order.
pub fn get_queens(grid: Vec<u32>, size: u32) -> (queens: Vec<(u32, u32)>)
    requires
        size_ok(size),
        grid@.len() == size * size,
    ensures
        forall|k: int|
            0 <= k < queens@.len() ==> in_bounds(
                size as int,
                (#[trigger] queens@[k]).0 as int,
                queens@[k].1 as int,
            ) && is_queen(grid@, size as int, queens@[k].0 as int, queens@[k].1 as int),
        forall|r: int, c: int|
            in_bounds(size as int, r, c) && #[trigger] is_queen(grid@, size as int, r, c)
                ==> queens@.contains((r as u32, c as u32)),
        forall|k1: int, k2: int|
            0 <= k1 < k2 < queens@.len() ==> ((#[trigger] queens@[k1]).0 < (
            #[trigger] queens@[k2]).0 || (queens@[k1].0 == queens@[k2].0 && queens@[k1].1
                < queens@[k2].1)),
{
    proof {
        lemma_size_ok_bound(size);
    }
    let ghost sz = size as int;
    let mut queens: Vec<(u32, u32)> = Vec::new();
    let mut r: u32 = 0;
    while r < size
        invariant
            size_ok(size),
            size <= 65535,
            sz == size as int,
            r <= size,
            grid@.len() == size * size,
            forall|k: int|
                0 <= k < queens@.len() ==> in_bounds(
                    sz,
                    (#[trigger] queens@[k]).0 as int,
                    queens@[k].1 as int,
                ) && is_queen(grid@, sz, queens@[k].0 as int, queens@[k].1 as int)
                    && queens@[k].0 < r,
            forall|rr: int, cc: int|
                in_bounds(sz, rr, cc) && rr < r && #[trigger] is_queen(grid@, sz, rr, cc)
                    ==> queens@.contains((rr as u32, cc as u32)),
            forall|k1: int, k2: int|
                0 <= k1 < k2 < queens@.len() ==> ((#[trigger] queens@[k1]).0 < (
                #[trigger] queens@[k2]).0 || (queens@[k1].0 == queens@[k2].0 && queens@[k1].1
                    < queens@[k2].1)),
        decreases size - r,
    {
        let mut c: u32 = 0;
        while c < size
            invariant
                size_ok(size),
                size <= 65535,
                sz == size as int,
                r < size,
                c <= size,
                grid@.len() == size * size,
                forall|k: int|
                    0 <= k < queens@.len() ==> in_bounds(
                        sz,
                        (#[trigger] queens@[k]).0 as int,
                        queens@[k].1 as int,
                    ) && is_queen(grid@, sz, queens@[k].0 as int, queens@[k].1 as int) && (
                    queens@[k].0 < r || (queens@[k].0 == r && queens@[k].1 < c)),
                forall|rr: int, cc: int|
                    in_bounds(sz, rr, cc) && (rr < r || (rr == r && cc < c))
                        && #[trigger] is_queen(grid@, sz, rr, cc) ==> queens@.contains(
                        (rr as u32, cc as u32),
                    ),
                forall|k1: int, k2: int|
                    0 <= k1 < k2 < queens@.len() ==> ((#[trigger] queens@[k1]).0 < (
                    #[trigger] queens@[k2]).0 || (queens@[k1].0 == queens@[k2].0 && queens@[k1].1
                        < queens@[k2].1)),
            decreases size - c,
        {
            proof {
                lemma_cell_idx_bounds(sz, r as int, c as int);
            }
            let ghost pre = queens@;
            if grid[(r * size + c) as usize] == 1 {
                queens.push((r, c));
                proof {
                    assert(queens@[pre.len() as int] == (r, c));
                }
            }
            proof {
                assert forall|rr: int, cc: int|
                    in_bounds(sz, rr, cc) && (rr < r || (rr == r && cc < c + 1))
                        && #[trigger] is_queen(grid@, sz, rr, cc) implies queens@.contains(
                    (rr as u32, cc as u32),
                ) by {
                    if rr == r && cc == c {
                        assert(queens@[pre.len() as int] == (rr as u32, cc as u32));
                    } else {
                        assert(pre.contains((rr as u32, cc as u32)));
                        let k = choose|k: int|
                            0 <= k < pre.len() && pre[k] == (rr as u32, cc as u32);
                        assert(queens@[k] == pre[k]);
                    }
                }
            }
            c = c + 1;
        }
        r = r + 1;
    }
    queens
}

/// Whether the marker grid is a valid solution: exactly one marker per row
/// and per column, the given region ids pairwise distinct, and no two
/// markers within one cell of each other.
#[verifier::rlimit(100)]
pub fn valid_solution(grid: Vec<u32>, size: u32, colours: &Vec<u32>) -> (ok: bool)
    requires
        size_ok(size),
        0 < size,
        grid@.len() == size * size,
    ensures
        ok == ((forall|r: int| 0 <= r < size ==> #[trigger] one_queen_in_row(grid@, size as int, r))
            && (forall|c: int|
            0 <= c < size ==> #[trigger] one_queen_in_col(grid@, size as int, c)) && (forall|
            i1: int,
            i2: int,
        |
            0 <= i1 < i2 < colours@.len() ==> #[trigger] colours@[i1] != #[trigger] colours@[i2])
            && queens_separated(grid@, size as int)),
{
    proof {
        lemma_size_ok_bound(size);
    }
    let ghost sz = size as int;
    // one marker per row
    let mut row: u32 = 0;
    while row < size
        invariant
            size_ok(size),
            size <= 65535,
            sz == size as int,
            row <= size,
            grid@.len() == size * size,
            forall|r: int| 0 <= r < row ==> #[trigger] one_queen_in_row(grid@, sz, r),
        decreases size - row,
    {
        let mut count: u32 = 0;
        let mut col: u32 = 0;
        while col < size
            invariant
                size_ok(size),
                size <= 65535,
                sz == size as int,
                row < size,
                col <= size,
                count <= col,
                grid@.len() == size * size,
                (count == 0) == (forall|cc: int|
                    0 <= cc < col ==> !(#[trigger] is_queen(grid@, sz, row as int, cc))),
                (count == 1) == ((exists|cc: int|
                    0 <= cc < col && is_queen(grid@, sz, row as int, cc)) && (forall|
                    c1: int,
                    c2: int,
                |
                    #![trigger is_queen(grid@, sz, row as int, c1), is_queen(grid@, sz, row as int, c2)]
                    0 <= c1 < c2 < col && is_queen(grid@, sz, row as int, c1) ==> !is_queen(
                        grid@,
                        sz,
                        row as int,
                        c2,
                    ))),
            decreases size - col,
        {
            proof {
                lemma_cell_idx_bounds(sz, row as int, col as int);
            }
            if grid[(row * size + col) as usize] == 1 {
                assert(is_queen(grid@, sz, row as int, col as int));
                count = count + 1;
            } else {
                assert(!is_queen(grid@, sz, row as int, col as int));
            }
            col = col + 1;
        }
        if count != 1 {
            proof {
                if one_queen_in_row(grid@, sz, row as int) {
                    let c = choose|c: int| 0 <= c < size && is_queen(grid@, sz, row as int, c);
                    assert(count != 0);
                }
            }
            return false;
        }
        proof {
            assert(one_queen_in_row(grid@, sz, row as int));
        }
        row = row + 1;
    }
    // one marker per column
    let mut col: u32 = 0;
    while col < size
        invariant
            size_ok(size),
            size <= 65535,
            sz == size as int,
            col <= size,
            grid@.len() == size * size,
            forall|r: int| 0 <= r < size ==> #[trigger] one_queen_in_row(grid@, sz, r),
            forall|c: int| 0 <= c < col ==> #[trigger] one_queen_in_col(grid@, sz, c),
        decreases size - col,
    {
        let mut count: u32 = 0;
        let mut row2: u32 = 0;
        while row2 < size
            invariant
                size_ok(size),
                size <= 65535,
                sz == size as int,
                col < size,
                row2 <= size,
                count <= row2,
                grid@.len() == size * size,
                (count == 0) == (forall|rr: int|
                    0 <= rr < row2 ==> !(#[trigger] is_queen(grid@, sz, rr, col as int))),
                (count == 1) == ((exists|rr: int|
                    0 <= rr < row2 && is_queen(grid@, sz, rr, col as int)) && (forall|
                    r1: int,
                    r2: int,
                |
                    #![trigger is_queen(grid@, sz, r1, col as int), is_queen(grid@, sz, r2, col as int)]
                    0 <= r1 < r2 < row2 && is_queen(grid@, sz, r1, col as int) ==> !is_queen(
                        grid@,
                        sz,
                        r2,
                        col as int,
                    ))),
            decreases size - row2,
        {
            proof {
                lemma_cell_idx_bounds(sz, row2 as int, col as int);
            }
            if grid[(row2 * size + col) as usize] == 1 {
                assert(is_queen(grid@, sz, row2 as int, col as int));
                count = count + 1;
            } else {
                assert(!is_queen(grid@, sz, row2 as int, col as int));
            }
            row2 = row2 + 1;
        }
        if count != 1 {
            proof {
                if one_queen_in_col(grid@, sz, col as int) {
                    let r = choose|r: int| 0 <= r < size && is_queen(grid@, sz, r, col as int);
                    assert(count != 0);
                }
            }
            return false;
        }
        proof {
            assert(one_queen_in_col(grid@, sz, col as int));
        }
        col = col + 1;
    }
    // pairwise distinct region ids
    let mut i1: usize = 0;
    while i1 < colours.len()
        invariant
            i1 <= colours@.len(),
            forall|a: int, b: int|
                0 <= a < b < colours@.len() && b < i1 ==> #[trigger] colours@[a]
                    != #[trigger] colours@[b],
        decreases colours@.len() - i1,
    {
        let mut i2: usize = 0;
        while i2 < i1
            invariant
                i2 <= i1 < colours@.len(),
                forall|a: int, b: int|
                    0 <= a < b < colours@.len() && b < i1 ==> #[trigger] colours@[a]
                        != #[trigger] colours@[b],
                forall|a: int| 0 <= a < i2 ==> #[trigger] colours@[a] != colours@[i1 as int],
            decreases i1 - i2,
        {
            if colours[i1] == colours[i2] {
                return false;
            }
            i2 = i2 + 1;
        }
        i1 = i1 + 1;
    }
    // pairwise separation
    let queens = get_queens(grid, size);
    let mut q1: usize = 0;
    while q1 < queens.len()
        invariant
            size_ok(size),
            size <= 65535,
            sz == size as int,
            q1 <= queens@.len(),
            forall|k: int|
                0 <= k < queens@.len() ==> in_bounds(
                    sz,
                    (#[trigger] queens@[k]).0 as int,
                    queens@[k].1 as int,
                ) && is_queen(grid@, sz, queens@[k].0 as int, queens@[k].1 as int),
            forall|r: int, c: int|
                in_bounds(sz, r, c) && #[trigger] is_queen(grid@, sz, r, c) ==> queens@.contains(
                    (r as u32, c as u32),
                ),
            forall|k1: int, k2: int|
                0 <= k1 < k2 < queens@.len() ==> ((#[trigger] queens@[k1]).0 < (
                #[trigger] queens@[k2]).0 || (queens@[k1].0 == queens@[k2].0 && queens@[k1].1
                    < queens@[k2].1)),
            forall|k1: int, k2: int|
                0 <= k1 < k2 < queens@.len() && k1 < q1 ==> !chebyshev_close(
                    (#[trigger] queens@[k1]).0 as int,
                    queens@[k1].1 as int,
                    (#[trigger] queens@[k2]).0 as int,
                    queens@[k2].1 as int,
                ),
        decreases queens@.len() - q1,
    {
        let mut q2: usize = q1 + 1;
        while q2 < queens.len()
            invariant
                size_ok(size),
                size <= 65535,
                sz == size as int,
                q1 < q2 <= queens@.len(),
                q1 < queens@.len(),
                forall|k: int|
                    0 <= k < queens@.len() ==> in_bounds(
                        sz,
                        (#[trigger] queens@[k]).0 as int,
                        queens@[k].1 as int,
                    ) && is_queen(grid@, sz, queens@[k].0 as int, queens@[k].1 as int),
                forall|r: int, c: int|
                    in_bounds(sz, r, c) && #[trigger] is_queen(grid@, sz, r, c)
                        ==> queens@.contains((r as u32, c as u32)),
                forall|k1: int, k2: int|
                    0 <= k1 < k2 < queens@.len() ==> ((#[trigger] queens@[k1]).0 < (
                    #[trigger] queens@[k2]).0 || (queens@[k1].0 == queens@[k2].0 && queens@[k1].1
                        < queens@[k2].1)),
                forall|k1: int, k2: int|
                    0 <= k1 < k2 < queens@.len() && k1 < q1 ==> !chebyshev_close(
                        (#[trigger] queens@[k1]).0 as int,
                        queens@[k1].1 as int,
                        (#[trigger] queens@[k2]).0 as int,
                        queens@[k2].1 as int,
                    ),
                forall|k2: int|
                    q1 < k2 < q2 ==> !chebyshev_close(
                        queens@[q1 as int].0 as int,
                        queens@[q1 as int].1 as int,
                        (#[trigger] queens@[k2]).0 as int,
                        queens@[k2].1 as int,
                    ),
            decreases queens@.len() - q2,
        {
            let (r1, c1) = queens[q1];
            let (r2, c2) = queens[q2];
            if r1 + 1 >= r2 && r2 + 1 >= r1 && c1 + 1 >= c2 && c2 + 1 >= c1 {
                proof {
                    assert(chebyshev_close(r1 as int, c1 as int, r2 as int, c2 as int));
                    assert(is_queen(grid@, sz, r1 as int, c1 as int));
                    assert(is_queen(grid@, sz, r2 as int, c2 as int));
                    assert((r1, c1) != (r2, c2)) by {
                        assert(queens@[q1 as int].0 < queens@[q2 as int].0 || (queens@[q1 as int].0
                            == queens@[q2 as int].0 && queens@[q1 as int].1
                            < queens@[q2 as int].1));
                    }
                    assert(!queens_separated(grid@, sz));
                }
                return false;
            }
            q2 = q2 + 1;
        }
        q1 = q1 + 1;
    }
    proof {
        assert(queens_separated(grid@, sz)) by {
            assert forall|r1: int, c1: int, r2: int, c2: int|
                in_bounds(sz, r1, c1) && in_bounds(sz, r2, c2) && (r1 != r2 || c1 != c2)
                    && is_queen(grid@, sz, r1, c1) && is_queen(grid@, sz, r2, c2) implies !chebyshev_close(
                r1,
                c1,
                r2,
                c2,
            ) by {
                assert(queens@.contains((r1 as u32, c1 as u32)));
                assert(queens@.contains((r2 as u32, c2 as u32)));
                let k1 = choose|k: int|
                    0 <= k < queens@.len() && queens@[k] == (r1 as u32, c1 as u32);
                let k2 = choose|k: int|
                    0 <= k < queens@.len() && queens@[k] == (r2 as u32, c2 as u32);
                assert(k1 != k2);
                if k1 < k2 {
                    assert(!chebyshev_close(r1, c1, r2, c2));
                } else {
                    assert(!chebyshev_close(r2, c2, r1, c1));
                }
            }
        }
    }
    true
}

/// Fixing the marker of `row` in column `c` restricts the search to the
/// solutions that put it there.
proof fn lemma_fix_row_queen(cg: Seq<u32>, size: int, base: Seq<u32>, row: int, c: int)
    requires
        0 < size,
        binary_grid(base, size),
        0 <= row < size,
        0 <= c < size,
        cg.len() == size * size,
        cg[cell_idx(size, row, c)] != 0,
        forall|r: int, cc: int|
            row <= r < size && 0 <= cc < size ==> base[#[trigger] cell_idx(size, r, cc)] == 0,
    ensures
        binary_grid(base.update(cell_idx(size, row, c), 1), size),
        forall|r: int, cc: int|
            row + 1 <= r < size && 0 <= cc < size ==> base.update(cell_idx(size, row, c), 1)[
                #[trigger] cell_idx(size, r, cc)] == 0,
        forall|g: Seq<u32>|
            #![trigger found_sol(cg, size, base.update(cell_idx(size, row, c), 1), row + 1, g)]
            #![trigger found_sol(cg, size, base, row, g)]
            found_sol(cg, size, base.update(cell_idx(size, row, c), 1), row + 1, g) <==> (found_sol(
                cg,
                size,
                base,
                row,
                g,
            ) && is_queen(g, size, row, c)),
{
    let nb = base.update(cell_idx(size, row, c), 1);
    lemma_cell_idx_bounds(size, row, c);
    assert forall|r: int, cc: int|
        in_bounds(size, r, cc) && !(r == row && cc == c) implies nb[#[trigger] cell_idx(
        size,
        r,
        cc,
    )] == base[cell_idx(size, r, cc)] by {
        lemma_cell_idx_bounds(size, r, cc);
        lemma_cell_idx_distinct(size, r, cc, row, c);
    }
    assert(nb[cell_idx(size, row, c)] == 1u32);
    assert forall|g: Seq<u32>|
        #![trigger found_sol(cg, size, nb, row + 1, g)]
        #![trigger found_sol(cg, size, base, row, g)]
        found_sol(cg, size, nb, row + 1, g) <==> (found_sol(cg, size, base, row, g) && is_queen(
        g,
        size,
        row,
        c,
    )) by {
        if found_sol(cg, size, nb, row + 1, g) {
            assert(g[cell_idx(size, row, c)] == nb[cell_idx(size, row, c)]);
            assert(is_queen(g, size, row, c));
            assert forall|r: int, cc: int|
                0 <= r < row && 0 <= cc < size implies g[#[trigger] cell_idx(size, r, cc)]
                == base[cell_idx(size, r, cc)] by {
                assert(g[cell_idx(size, r, cc)] == nb[cell_idx(size, r, cc)]);
            }
            assert(agrees_below(g, base, size, row));
            assert(found_sol(cg, size, base, row, g));
        }
        if found_sol(cg, size, base, row, g) && is_queen(g, size, row, c) {
            assert forall|r: int, cc: int|
                0 <= r < row + 1 && 0 <= cc < size implies g[#[trigger] cell_idx(size, r, cc)]
                == nb[cell_idx(size, r, cc)] by {
                lemma_cell_idx_bounds(size, r, cc);
                if r < row {
                    assert(g[cell_idx(size, r, cc)] == base[cell_idx(size, r, cc)]);
                    lemma_cell_idx_distinct(size, r, cc, row, c);
                } else if cc == c {
                    assert(g[cell_idx(size, row, c)] == 1);
                } else {
                    lemma_cell_idx_distinct(size, r, cc, row, c);
                    assert(nb[cell_idx(size, r, cc)] == 0);
                    assert(one_queen_in_row(g, size, row));
                    if is_queen(g, size, row, cc) {
                        assert(cc == c);
                    }
                    assert(g[cell_idx(size, r, cc)] == 0 || g[cell_idx(size, r, cc)] == 1);
                }
            }
            assert(agrees_below(g, nb, size, row + 1));
            assert(found_sol(cg, size, nb, row + 1, g));
        }
    }
}

/// Two found grids whose markers of `row` sit in different columns differ.
proof fn lemma_distinct_row_queens(
    cg: Seq<u32>,
    size: int,
    base: Seq<u32>,
    row: int,
    g1: Seq<u32>,
    g2: Seq<u32>,
    c1: int,
    c2: int,
)
    requires
        0 <= row < size,
        0 <= c1 < size,
        0 <= c2 < size,
        c1 != c2,
        found_sol(cg, size, base, row, g1),
        found_sol(cg, size, base, row, g2),
        is_queen(g1, size, row, c1),
        is_queen(g2, size, row, c2),
    ensures
        g1 != g2,
{
    lemma_cell_idx_bounds(size, row, c1);
    assert(one_queen_in_row(g2, size, row));
    if is_queen(g2, size, row, c1) {
        assert(c1 == c2);
    }
    assert(g2[cell_idx(size, row, c1)] == 0 || g2[cell_idx(size, row, c1)] == 1);
    assert(g1[cell_idx(size, row, c1)] == 1);
    assert(g2[cell_idx(size, row, c1)] != 1);
}

/// Enumerate every solution of the coloured board that keeps the markers
/// already fixed below `current_row`, appending each exactly once to
/// `all_solutions`; the return value counts what was appended.
#[verifier::rlimit(100)]
pub fn find_solutions(
    colour_grid: &Vec<u32>,
    all_solutions: &mut Vec<Vec<u32>>,
    size: u32,
    current_grid: &mut Vec<u32>,
    current_row: u32,
) -> (n: usize)
    requires
        size_ok(size),
        0 < size,
        colour_grid@.len() == size * size,
        binary_grid(old(current_grid)@, size as int),
        current_row <= size,
        forall|r: int, c: int|
            current_row <= r < size && 0 <= c < size ==> old(current_grid)@[#[trigger] cell_idx(
                size as int,
                r,
                c,
            )] == 0,
    ensures
        final(current_grid)@ == old(current_grid)@,
        final(all_solutions)@.len() == old(all_solutions)@.len() + n,
        forall|k: int|
            0 <= k < old(all_solutions)@.len() ==> final(all_solutions)@[k] == old(
                all_solutions,
            )@[k],
        forall|k: int|
            old(all_solutions)@.len() <= k < final(all_solutions)@.len() ==> found_sol(
                colour_grid@,
                size as int,
                old(current_grid)@,
                current_row as int,
                (#[trigger] final(all_solutions)@[k])@,
            ),
        forall|g: Seq<u32>|
            #[trigger] found_sol(
                colour_grid@,
                size as int,
                old(current_grid)@,
                current_row as int,
                g,
            ) ==> exists|k: int|
                old(all_solutions)@.len() <= k < final(all_solutions)@.len() && (
                #[trigger] final(all_solutions)@[k])@ == g,
        forall|k1: int, k2: int|
            old(all_solutions)@.len() <= k1 < k2 < final(all_solutions)@.len() ==> (
            #[trigger] final(all_solutions)@[k1])@ != (#[trigger] final(all_solutions)@[k2])@,
    decreases size - current_row,
{
    proof {
        lemma_size_ok_bound(size);
    }
    let ghost sz = size as int;
    let ghost cg = colour_grid@;
    let ghost base = current_grid@;
    let ghost all0 = all_solutions@;
    if current_row == size {
        // a complete layout: validate it as a whole
        let queens = get_queens(copy_grid(current_grid), size);
        let mut colours: Vec<u32> = Vec::new();
        let mut k: usize = 0;
        while k < queens.len()
            invariant
                size_ok(size),
                size <= 65535,
                sz == size as int,
                cg == colour_grid@,
                cg.len() == size * size,
                k <= queens@.len(),
                colours@.len() == k,
                forall|j: int|
                    0 <= j < queens@.len() ==> in_bounds(
                        sz,
                        (#[trigger] queens@[j]).0 as int,
                        queens@[j].1 as int,
                    ),
                forall|j: int|
                    0 <= j < k ==> #[trigger] colours@[j] == cg[cell_idx(
                        sz,
                        queens@[j].0 as int,
                        queens@[j].1 as int,
                    )],
            decreases queens@.len() - k,
        {
            let (qr, qc) = queens[k];
            proof {
                lemma_cell_idx_bounds(sz, qr as int, qc as int);
            }
            colours.push(colour_grid[(qr * size + qc) as usize]);
            k = k + 1;
        }
        let valid = valid_solution(copy_grid(current_grid), size, &colours);
        proof {
            // the region ids of the markers are pairwise distinct exactly
            // when the colour list is duplicate free
            assert((forall|i1: int, i2: int|
                0 <= i1 < i2 < colours@.len() ==> #[trigger] colours@[i1] != #[trigger] colours@[i2])
                == queen_regions_distinct(cg, base, sz)) by {
                if forall|i1: int, i2: int|
                    0 <= i1 < i2 < colours@.len() ==> #[trigger] colours@[i1]
                        != #[trigger] colours@[i2] {
                    assert forall|r1: int, c1: int, r2: int, c2: int|
                        in_bounds(sz, r1, c1) && in_bounds(sz, r2, c2) && (r1 != r2 || c1 != c2)
                            && is_queen(base, sz, r1, c1) && is_queen(
                            base,
                            sz,
                            r2,
                            c2,
                        ) implies cg[cell_idx(sz, r1, c1)] != cg[cell_idx(sz, r2, c2)] by {
                        assert(queens@.contains((r1 as u32, c1 as u32)));
                        assert(queens@.contains((r2 as u32, c2 as u32)));
                        let k1 = choose|j: int|
                            0 <= j < queens@.len() && queens@[j] == (r1 as u32, c1 as u32);
                        let k2 = choose|j: int|
                            0 <= j < queens@.len() && queens@[j] == (r2 as u32, c2 as u32);
                        assert(k1 != k2);
                        assert(colours@[k1] == cg[cell_idx(sz, r1, c1)]);
                        assert(colours@[k2] == cg[cell_idx(sz, r2, c2)]);
                        if k1 < k2 {
                            assert(colours@[k1] != colours@[k2]);
                        } else {
                            assert(colours@[k2] != colours@[k1]);
                        }
                    }
                }
                if queen_regions_distinct(cg, base, sz) {
                    assert forall|i1: int, i2: int|
                        0 <= i1 < i2 < colours@.len() implies #[trigger] colours@[i1]
                        != #[trigger] colours@[i2] by {
                        let e1 = queens@[i1];
                        let e2 = queens@[i2];
                        assert(is_queen(base, sz, e1.0 as int, e1.1 as int));
                        assert(is_queen(base, sz, e2.0 as int, e2.1 as int));
                        assert(e1.0 < e2.0 || (e1.0 == e2.0 && e1.1 < e2.1));
                    }
                }
            }
        }
        if valid {
            all_solutions.push(copy_grid(current_grid));
            proof {
                assert(all_solutions@[all0.len() as int]@ == base);
                assert(grid_solution(cg, base, sz));
                assert(found_sol(cg, sz, base, sz, base)) by {
                    assert(agrees_below(base, base, sz, sz));
                }
                assert forall|g: Seq<u32>|
                    #[trigger] found_sol(cg, sz, base, sz, g) implies exists|k2: int|
                    all0.len() <= k2 < all_solutions@.len() && (#[trigger] all_solutions@[k2])@
                        == g by {
                    assert forall|i: int| 0 <= i < g.len() implies g[i] == base[i] by {
                        crate::board::lemma_cell_idx_surjective(sz, i);
                        let (r, c) = choose|r: int, c: int|
                            in_bounds(sz, r, c) && #[trigger] cell_idx(sz, r, c) == i;
                        assert(g[cell_idx(sz, r, c)] == base[cell_idx(sz, r, c)]);
                    }
                    assert(g =~= base);
                    assert((all_solutions@[all0.len() as int])@ == g);
                }
            }
            return 1;
        } else {
            proof {
                assert forall|g: Seq<u32>|
                    !(#[trigger] found_sol(cg, sz, base, sz, g)) by {
                    if found_sol(cg, sz, base, sz, g) {
                        assert forall|i: int| 0 <= i < g.len() implies g[i] == base[i] by {
                            crate::board::lemma_cell_idx_surjective(sz, i);
                            let (r, c) = choose|r: int, c: int|
                                in_bounds(sz, r, c) && #[trigger] cell_idx(sz, r, c) == i;
                            assert(g[cell_idx(sz, r, c)] == base[cell_idx(sz, r, c)]);
                        }
                        assert(g =~= base);
                        assert(grid_solution(cg, base, sz));
                    }
                }
            }
            return 0;
        }
    }
    let ghost cr = current_row as int;
    let start_len: usize = all_solutions.len();
    let mut c: u32 = 0;
    while c < size
        invariant
            size_ok(size),
            size <= 65535,
            sz == size as int,
            0 < size,
            cg == colour_grid@,
            cg.len() == size * size,
            current_row < size,
            cr == current_row as int,
            c <= size,
            base == old(current_grid)@,
            current_grid@ == base,
            binary_grid(base, sz),
            forall|r: int, cc: int|
                cr <= r < size && 0 <= cc < size ==> base[#[trigger] cell_idx(sz, r, cc)] == 0,
            all0 == old(all_solutions)@,
            start_len == all0.len(),
            all_solutions@.len() >= all0.len(),
            forall|k: int| 0 <= k < all0.len() ==> all_solutions@[k] == all0[k],
            forall|k: int|
                all0.len() <= k < all_solutions@.len() ==> found_sol_upto(
                    cg,
                    sz,
                    base,
                    cr,
                    c as int,
                    (#[trigger] all_solutions@[k])@,
                ),
            forall|g: Seq<u32>|
                #[trigger] found_sol_upto(cg, sz, base, cr, c as int, g) ==> exists|k: int|
                    all0.len() <= k < all_solutions@.len() && (#[trigger] all_solutions@[k])@ == g,
            forall|k1: int, k2: int|
                all0.len() <= k1 < k2 < all_solutions@.len() ==> (#[trigger] all_solutions@[k1])@
                    != (#[trigger] all_solutions@[k2])@,
        decreases size - c,
    {
        proof {
            lemma_cell_idx_bounds(sz, cr, c as int);
        }
        let ghost hi = c as int + 1;
        if colour_grid[(current_row * size + c) as usize] > 0 {
            let mut new_grid = copy_grid(current_grid);
            new_grid[(current_row * size + c) as usize] = 1;
            proof {
                lemma_fix_row_queen(cg, sz, base, cr, c as int);
                assert(new_grid@ == base.update(cell_idx(sz, cr, c as int), 1u32));
            }
            let ghost all_pre = all_solutions@;
            find_solutions(colour_grid, all_solutions, size, &mut new_grid, current_row + 1);
            proof {
                let nb = base.update(cell_idx(sz, cr, c as int), 1u32);
                // what the recursive call appended is exactly the solutions
                // with the marker of this row in column c
                assert forall|k: int|
                    all0.len() <= k < all_solutions@.len() implies found_sol_upto(
                    cg,
                    sz,
                    base,
                    cr,
                    hi,
                    (#[trigger] all_solutions@[k])@,
                ) by {
                    if k < all_pre.len() {
                        assert(all_solutions@[k] == all_pre[k]);
                        assert(found_sol_upto(cg, sz, base, cr, c as int, all_solutions@[k]@));
                        let cc = choose|cc: int|
                            0 <= cc < c && is_queen(all_solutions@[k]@, sz, cr, cc);
                        assert(0 <= cc < hi && is_queen(all_solutions@[k]@, sz, cr, cc));
                    } else {
                        assert(found_sol(cg, sz, nb, cr + 1, all_solutions@[k]@));
                        assert(found_sol(cg, sz, base, cr, all_solutions@[k]@) && is_queen(
                            all_solutions@[k]@,
                            sz,
                            cr,
                            c as int,
                        ));
                        assert(0 <= (c as int) < hi && is_queen(all_solutions@[k]@, sz, cr, c as int));
                    }
                }
                assert forall|g: Seq<u32>|
                    #[trigger] found_sol_upto(cg, sz, base, cr, hi, g) implies exists|k: int|
                    all0.len() <= k < all_solutions@.len() && (#[trigger] all_solutions@[k])@
                        == g by {
                    let cc = choose|cc: int| 0 <= cc < hi && is_queen(g, sz, cr, cc);
                    if cc < c {
                        assert(found_sol_upto(cg, sz, base, cr, c as int, g));
                        let k = choose|k: int|
                            all0.len() <= k < all_pre.len() && (#[trigger] all_pre[k])@ == g;
                        assert(all_solutions@[k] == all_pre[k]);
                    } else {
                        assert(cc == c);
                        assert(found_sol(cg, sz, nb, cr + 1, g));
                        let k = choose|k: int|
                            all_pre.len() <= k < all_solutions@.len() && (
                            #[trigger] all_solutions@[k])@ == g;
                        assert(all0.len() <= k < all_solutions@.len());
                    }
                }
                assert forall|k1: int, k2: int|
                    all0.len() <= k1 < k2 < all_solutions@.len() implies (
                #[trigger] all_solutions@[k1])@ != (#[trigger] all_solutions@[k2])@ by {
                    if k1 < all_pre.len() && k2 >= all_pre.len() {
                        assert(all_solutions@[k1] == all_pre[k1]);
                        assert(found_sol_upto(cg, sz, base, cr, c as int, all_solutions@[k1]@));
                        let c1 = choose|cc: int|
                            0 <= cc < c && is_queen(all_solutions@[k1]@, sz, cr, cc);
                        assert(found_sol(cg, sz, nb, cr + 1, all_solutions@[k2]@));
                        assert(is_queen(all_solutions@[k2]@, sz, cr, c as int));
                        lemma_distinct_row_queens(
                            cg,
                            sz,
                            base,
                            cr,
                            all_solutions@[k1]@,
                            all_solutions@[k2]@,
                            c1,
                            c as int,
                        );
                    }
                }
            }
        } else {
            proof {
                assert forall|g: Seq<u32>|
                    #[trigger] found_sol_upto(cg, sz, base, cr, hi, g) implies found_sol_upto(
                    cg,
                    sz,
                    base,
                    cr,
                    c as int,
                    g,
                ) by {
                    let cc = choose|cc: int| 0 <= cc < hi && is_queen(g, sz, cr, cc);
                    if cc == c {
                        assert(cg[cell_idx(sz, cr, c as int)] != 0);
                    }
                    assert(0 <= cc < c && is_queen(g, sz, cr, cc));
                }
            }
        }
        c = c + 1;
    }
    proof {
        assert forall|g: Seq<u32>|
            #[trigger] found_sol(cg, sz, base, cr, g) implies found_sol_upto(
            cg,
            sz,
            base,
            cr,
            size as int,
            g,
        ) by {
            assert(one_queen_in_row(g, sz, cr));
            let cc = choose|cc: int| 0 <= cc < size && is_queen(g, sz, cr, cc);
            assert(0 <= cc < (size as int) && is_queen(g, sz, cr, cc));
        }
    }
    let n = all_solutions.len() - start_len;
    n
}

} // verus!
