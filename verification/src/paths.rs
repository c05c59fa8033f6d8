//! Reachability through orthogonal steps over same-coloured cells: the
//! mathematical backbone of region contiguity, of the grower's full-coverage
//! argument, and of the repairer's exact specification.

use vstd::prelude::*;
use crate::board::{cell_idx, grid_sized, in_bounds};

verus! {

/// One orthogonal step between two board positions.
pub open spec fn step_adjacent(a: (int, int), b: (int, int)) -> bool {
    ||| a.0 == b.0 && (b.1 == a.1 + 1 || b.1 == a.1 - 1)
    ||| a.1 == b.1 && (b.0 == a.0 + 1 || b.0 == a.0 - 1)
}

/// A walk across the board whose every cell after the first carries
/// `colour`; the starting cell's own colour is not constrained.
pub open spec fn path_ok(g: Seq<u32>, size: int, p: Seq<(int, int)>, colour: u32) -> bool {
    &&& p.len() >= 1
    &&& forall|k: int| 0 <= k < p.len() ==> in_bounds(size, (#[trigger] p[k]).0, p[k].1)
    &&& forall|k: int|
        1 <= k < p.len() ==> g[cell_idx(size, (#[trigger] p[k]).0, p[k].1)] == colour
    &&& forall|k: int| 1 <= k < p.len() ==> step_adjacent(p[k - 1], #[trigger] p[k])
}

/// Cell `(r, c)` can be reached from `(sr, sc)` by orthogonal steps through
/// cells coloured `colour`.
pub open spec fn reaches(
    g: Seq<u32>,
    size: int,
    sr: int,
    sc: int,
    r: int,
    c: int,
    colour: u32,
) -> bool {
    exists|p: Seq<(int, int)>|
        path_ok(g, size, p, colour) && p[0] == (sr, sc) && p[p.len() - 1] == (r, c)
}

pub proof fn lemma_reaches_self(g: Seq<u32>, size: int, r: int, c: int, colour: u32)
    requires
        in_bounds(size, r, c),
    ensures
        reaches(g, size, r, c, r, c, colour),
{
    let p = seq![(r, c)];
    assert(path_ok(g, size, p, colour));
    assert(p[0] == (r, c) && p[p.len() - 1] == (r, c));
}

pub proof fn lemma_reaches_step(
    g: Seq<u32>,
    size: int,
    sr: int,
    sc: int,
    r: int,
    c: int,
    r2: int,
    c2: int,
    colour: u32,
)
    requires
        reaches(g, size, sr, sc, r, c, colour),
        in_bounds(size, r2, c2),
        step_adjacent((r, c), (r2, c2)),
        g[cell_idx(size, r2, c2)] == colour,
    ensures
        reaches(g, size, sr, sc, r2, c2, colour),
{
    let p = choose|p: Seq<(int, int)>|
        path_ok(g, size, p, colour) && p[0] == (sr, sc) && p[p.len() - 1] == (r, c);
    let p2 = p.push((r2, c2));
    assert(p2[p2.len() - 1] == (r2, c2));
    assert(p2[0] == (sr, sc));
    assert(path_ok(g, size, p2, colour)) by {
        assert(forall|k: int| 0 <= k < p.len() ==> p2[k] == p[k]);
        assert(p2[p.len() as int] == (r2, c2));
        assert forall|k: int| 1 <= k < p2.len() implies step_adjacent(p2[k - 1], #[trigger] p2[k]) by {
            if k < p.len() {
                assert(step_adjacent(p[k - 1], p[k]));
            } else {
                assert(p2[k - 1] == (r, c));
            }
        }
    }
}

/// Any grid that keeps every `colour`-cell of `g` keeps its `colour`-paths.
pub proof fn lemma_reaches_mono(
    g: Seq<u32>,
    g2: Seq<u32>,
    size: int,
    sr: int,
    sc: int,
    r: int,
    c: int,
    colour: u32,
)
    requires
        reaches(g, size, sr, sc, r, c, colour),
        forall|ar: int, ac: int|
            in_bounds(size, ar, ac) && g[cell_idx(size, ar, ac)] == colour ==> g2[#[trigger] cell_idx(
                size,
                ar,
                ac,
            )] == colour,
    ensures
        reaches(g2, size, sr, sc, r, c, colour),
{
    let p = choose|p: Seq<(int, int)>|
        path_ok(g, size, p, colour) && p[0] == (sr, sc) && p[p.len() - 1] == (r, c);
    assert(path_ok(g2, size, p, colour)) by {
        assert forall|k: int| 1 <= k < p.len() implies g2[cell_idx(
            size,
            (#[trigger] p[k]).0,
            p[k].1,
        )] == colour by {
            assert(g[cell_idx(size, p[k].0, p[k].1)] == colour);
        }
    }
}

/// Every cell on a path is itself reachable from the path's start.
pub proof fn lemma_path_cells_reachable(g: Seq<u32>, size: int, p: Seq<(int, int)>, colour: u32)
    requires
        path_ok(g, size, p, colour),
    ensures
        forall|k: int|
            0 <= k < p.len() ==> reaches(
                g,
                size,
                p[0].0,
                p[0].1,
                (#[trigger] p[k]).0,
                p[k].1,
                colour,
            ),
{
    assert forall|k: int| 0 <= k < p.len() implies reaches(
        g,
        size,
        p[0].0,
        p[0].1,
        (#[trigger] p[k]).0,
        p[k].1,
        colour,
    ) by {
        let q = p.take(k + 1);
        assert(path_ok(g, size, q, colour)) by {
            assert(forall|j: int| 0 <= j < q.len() ==> q[j] == p[j]);
        }
        assert(q[0] == p[0] && q[q.len() - 1] == p[k]);
    }
}

/// A set of cells (given as a flattened boolean mask) that contains a start
/// cell and is closed under stepping onto `colour`-cells.
pub open spec fn colour_closed(g: Seq<u32>, size: int, mask: Seq<bool>, colour: u32) -> bool {
    forall|ar: int, ac: int, br: int, bc: int|
        #![trigger mask[cell_idx(size, ar, ac)], cell_idx(size, br, bc)]
        in_bounds(size, ar, ac) && in_bounds(size, br, bc) && step_adjacent((ar, ac), (br, bc))
            && mask[cell_idx(size, ar, ac)] && g[cell_idx(size, br, bc)] == colour ==> mask[cell_idx(
            size,
            br,
            bc,
        )]
}

proof fn lemma_path_stays_in_mask(
    g: Seq<u32>,
    size: int,
    mask: Seq<bool>,
    p: Seq<(int, int)>,
    colour: u32,
)
    requires
        mask.len() == size * size,
        path_ok(g, size, p, colour),
        mask[cell_idx(size, p[0].0, p[0].1)],
        colour_closed(g, size, mask, colour),
    ensures
        mask[cell_idx(size, p[p.len() - 1].0, p[p.len() - 1].1)],
    decreases p.len(),
{
    if p.len() > 1 {
        let q = p.drop_last();
        assert(path_ok(g, size, q, colour)) by {
            assert(forall|j: int| 0 <= j < q.len() ==> q[j] == p[j]);
        }
        assert(q[0] == p[0]);
        lemma_path_stays_in_mask(g, size, mask, q, colour);
        let a = p[p.len() - 2];
        let b = p[p.len() - 1];
        assert(q[q.len() - 1] == a);
        assert(step_adjacent(a, b));
        assert(g[cell_idx(size, b.0, b.1)] == colour);
        assert(mask[cell_idx(size, a.0, a.1)]);
    }
}

/// Whatever a closed mask's start reaches through `colour`-cells lies in the
/// mask: the completeness direction of a flood fill.
pub proof fn lemma_reach_closed(
    g: Seq<u32>,
    size: int,
    mask: Seq<bool>,
    sr: int,
    sc: int,
    r: int,
    c: int,
    colour: u32,
)
    requires
        mask.len() == size * size,
        in_bounds(size, sr, sc),
        mask[cell_idx(size, sr, sc)],
        colour_closed(g, size, mask, colour),
        reaches(g, size, sr, sc, r, c, colour),
    ensures
        mask[cell_idx(size, r, c)],
{
    let p = choose|p: Seq<(int, int)>|
        path_ok(g, size, p, colour) && p[0] == (sr, sc) && p[p.len() - 1] == (r, c);
    lemma_path_stays_in_mask(g, size, mask, p, colour);
}

/// A cell adjacent to a coloured one while itself uncoloured: the grower's
/// frontier is never empty before the board is covered.
pub open spec fn has_coloured_neighbour(g: Seq<u32>, size: int, r: int, c: int) -> bool {
    exists|vr: int, vc: int|
        in_bounds(size, vr, vc) && step_adjacent((vr, vc), (r, c)) && g[#[trigger] cell_idx(
            size,
            vr,
            vc,
        )] != 0
}

pub open spec fn is_frontier_cell(g: Seq<u32>, size: int, r: int, c: int) -> bool {
    in_bounds(size, r, c) && g[cell_idx(size, r, c)] == 0 && has_coloured_neighbour(g, size, r, c)
}

/// On a board holding both a coloured and an uncoloured cell, some
/// uncoloured cell touches a coloured one.
pub proof fn lemma_frontier_exists(g: Seq<u32>, size: int, ar: int, ac: int, br: int, bc: int)
    requires
        grid_sized(g, size),
        in_bounds(size, ar, ac),
        in_bounds(size, br, bc),
        g[cell_idx(size, ar, ac)] != 0,
        g[cell_idx(size, br, bc)] == 0,
    ensures
        exists|ur: int, uc: int| is_frontier_cell(g, size, ur, uc),
    decreases (if ar < br {
        br - ar
    } else {
        ar - br
    }) + (if ac < bc {
        bc - ac
    } else {
        ac - bc
    }),
{
    if ar == br && ac == bc {
        assert(false);
    } else {
        let (nr, nc): (int, int) = if ar < br {
            (ar + 1, ac)
        } else if ar > br {
            (ar - 1, ac)
        } else if ac < bc {
            (ar, ac + 1)
        } else {
            (ar, ac - 1)
        };
        assert(in_bounds(size, nr, nc));
        assert(step_adjacent((ar, ac), (nr, nc)));
        if g[cell_idx(size, nr, nc)] == 0 {
            assert(has_coloured_neighbour(g, size, nr, nc));
            assert(is_frontier_cell(g, size, nr, nc));
        } else {
            lemma_frontier_exists(g, size, nr, nc, br, bc);
        }
    }
}

/// A walk across the board that never steps on a marker cell of `queens`.
pub open spec fn open_path_ok(queens: Seq<u32>, size: int, p: Seq<(int, int)>) -> bool {
    &&& p.len() >= 1
    &&& forall|k: int| 0 <= k < p.len() ==> in_bounds(size, (#[trigger] p[k]).0, p[k].1)
    &&& forall|k: int|
        0 <= k < p.len() ==> queens[cell_idx(size, (#[trigger] p[k]).0, p[k].1)] != 1
    &&& forall|k: int| 1 <= k < p.len() ==> step_adjacent(p[k - 1], #[trigger] p[k])
}

/// Cell `(r, c)` can be reached from `(sr, sc)` by orthogonal steps that
/// avoid every marker cell.
pub open spec fn queen_free_reaches(
    queens: Seq<u32>,
    size: int,
    sr: int,
    sc: int,
    r: int,
    c: int,
) -> bool {
    exists|p: Seq<(int, int)>|
        open_path_ok(queens, size, p) && p[0] == (sr, sc) && p[p.len() - 1] == (r, c)
}

pub proof fn lemma_queen_free_self(queens: Seq<u32>, size: int, r: int, c: int)
    requires
        in_bounds(size, r, c),
        queens[cell_idx(size, r, c)] != 1,
    ensures
        queen_free_reaches(queens, size, r, c, r, c),
{
    let p = seq![(r, c)];
    assert(open_path_ok(queens, size, p));
    assert(p[0] == (r, c) && p[p.len() - 1] == (r, c));
}

pub proof fn lemma_queen_free_step(
    queens: Seq<u32>,
    size: int,
    sr: int,
    sc: int,
    r: int,
    c: int,
    r2: int,
    c2: int,
)
    requires
        queen_free_reaches(queens, size, sr, sc, r, c),
        in_bounds(size, r2, c2),
        step_adjacent((r, c), (r2, c2)),
        queens[cell_idx(size, r2, c2)] != 1,
    ensures
        queen_free_reaches(queens, size, sr, sc, r2, c2),
{
    let p = choose|p: Seq<(int, int)>|
        open_path_ok(queens, size, p) && p[0] == (sr, sc) && p[p.len() - 1] == (r, c);
    let p2 = p.push((r2, c2));
    assert(p2[p2.len() - 1] == (r2, c2));
    assert(p2[0] == (sr, sc));
    assert(open_path_ok(queens, size, p2)) by {
        assert(forall|k: int| 0 <= k < p.len() ==> p2[k] == p[k]);
        assert(p2[p.len() as int] == (r2, c2));
        assert forall|k: int| 1 <= k < p2.len() implies step_adjacent(p2[k - 1], #[trigger] p2[k]) by {
            if k < p.len() {
                assert(step_adjacent(p[k - 1], p[k]));
            } else {
                assert(p2[k - 1] == (r, c));
            }
        }
    }
}

/// A set of cells closed under marker-avoiding steps.
pub open spec fn queen_free_closed(queens: Seq<u32>, size: int, mask: Seq<bool>) -> bool {
    forall|ar: int, ac: int, br: int, bc: int|
        #![trigger mask[cell_idx(size, ar, ac)], cell_idx(size, br, bc)]
        in_bounds(size, ar, ac) && in_bounds(size, br, bc) && step_adjacent((ar, ac), (br, bc))
            && mask[cell_idx(size, ar, ac)] && queens[cell_idx(size, br, bc)] != 1 ==> mask[cell_idx(
            size,
            br,
            bc,
        )]
}

proof fn lemma_open_path_stays_in_mask(
    queens: Seq<u32>,
    size: int,
    mask: Seq<bool>,
    p: Seq<(int, int)>,
)
    requires
        mask.len() == size * size,
        open_path_ok(queens, size, p),
        mask[cell_idx(size, p[0].0, p[0].1)],
        queen_free_closed(queens, size, mask),
    ensures
        mask[cell_idx(size, p[p.len() - 1].0, p[p.len() - 1].1)],
    decreases p.len(),
{
    if p.len() > 1 {
        let q = p.drop_last();
        assert(open_path_ok(queens, size, q)) by {
            assert(forall|j: int| 0 <= j < q.len() ==> q[j] == p[j]);
        }
        assert(q[0] == p[0]);
        lemma_open_path_stays_in_mask(queens, size, mask, q);
        let a = p[p.len() - 2];
        let b = p[p.len() - 1];
        assert(q[q.len() - 1] == a);
        assert(step_adjacent(a, b));
        assert(queens[cell_idx(size, b.0, b.1)] != 1);
        assert(mask[cell_idx(size, a.0, a.1)]);
    }
}

/// A mask that is closed under marker-avoiding steps and holds the start
/// cell holds everything reachable from it: the completeness direction of
/// the conflict search.
pub proof fn lemma_queen_free_closed_reach(
    queens: Seq<u32>,
    size: int,
    mask: Seq<bool>,
    sr: int,
    sc: int,
    r: int,
    c: int,
)
    requires
        mask.len() == size * size,
        in_bounds(size, sr, sc),
        mask[cell_idx(size, sr, sc)],
        queen_free_closed(queens, size, mask),
        queen_free_reaches(queens, size, sr, sc, r, c),
    ensures
        mask[cell_idx(size, r, c)],
{
    let p = choose|p: Seq<(int, int)>|
        open_path_ok(queens, size, p) && p[0] == (sr, sc) && p[p.len() - 1] == (r, c);
    lemma_open_path_stays_in_mask(queens, size, mask, p);
}

/// Reachability through `colour`-cells is transitive.
pub proof fn lemma_reaches_trans(
    g: Seq<u32>,
    size: int,
    ar: int,
    ac: int,
    br: int,
    bc: int,
    cr: int,
    cc: int,
    colour: u32,
)
    requires
        reaches(g, size, ar, ac, br, bc, colour),
        reaches(g, size, br, bc, cr, cc, colour),
    ensures
        reaches(g, size, ar, ac, cr, cc, colour),
{
    let p1 = choose|p: Seq<(int, int)>|
        path_ok(g, size, p, colour) && p[0] == (ar, ac) && p[p.len() - 1] == (br, bc);
    let p2 = choose|p: Seq<(int, int)>|
        path_ok(g, size, p, colour) && p[0] == (br, bc) && p[p.len() - 1] == (cr, cc);
    if p2.len() == 1 {
        assert(p1[p1.len() - 1] == (cr, cc));
    } else {
        let p = p1 + p2.subrange(1, p2.len() as int);
        assert(p.len() == p1.len() + p2.len() - 1);
        assert(p[0] == (ar, ac));
        assert(p[p.len() - 1] == p2[p2.len() - 1]);
        assert(path_ok(g, size, p, colour)) by {
            assert(forall|k: int| 0 <= k < p1.len() ==> p[k] == p1[k]);
            assert(forall|k: int|
                p1.len() <= k < p.len() ==> p[k] == p2[k - p1.len() + 1]);
            assert forall|k: int| 0 <= k < p.len() implies in_bounds(
                size,
                (#[trigger] p[k]).0,
                p[k].1,
            ) by {
                if k >= p1.len() {
                    assert(p[k] == p2[k - p1.len() + 1]);
                }
            }
            assert forall|k: int|
                1 <= k < p.len() implies g[cell_idx(size, (#[trigger] p[k]).0, p[k].1)]
                == colour by {
                if k >= p1.len() {
                    assert(p[k] == p2[k - p1.len() + 1]);
                }
            }
            assert forall|k: int|
                1 <= k < p.len() implies step_adjacent(p[k - 1], #[trigger] p[k]) by {
                if k < p1.len() {
                    assert(step_adjacent(p1[k - 1], p1[k]));
                } else if k == p1.len() {
                    assert(p[k - 1] == p1[p1.len() - 1]);
                    assert(p[k] == p2[1]);
                    assert(step_adjacent(p2[0], p2[1]));
                } else {
                    assert(p[k - 1] == p2[k - p1.len()]);
                    assert(p[k] == p2[k - p1.len() + 1]);
                    assert(step_adjacent(p2[k - p1.len()], p2[k - p1.len() + 1]));
                }
            }
        }
    }
}

/// When the start cell itself carries `colour`, reachability runs both ways:
/// the reversed walk is also a `colour`-walk.
pub proof fn lemma_reaches_symm(
    g: Seq<u32>,
    size: int,
    ar: int,
    ac: int,
    br: int,
    bc: int,
    colour: u32,
)
    requires
        in_bounds(size, ar, ac),
        g[cell_idx(size, ar, ac)] == colour,
        reaches(g, size, ar, ac, br, bc, colour),
    ensures
        reaches(g, size, br, bc, ar, ac, colour),
{
    let p = choose|p: Seq<(int, int)>|
        path_ok(g, size, p, colour) && p[0] == (ar, ac) && p[p.len() - 1] == (br, bc);
    let q = Seq::new(p.len(), |i: int| p[p.len() - 1 - i]);
    assert(q[0] == (br, bc));
    assert(q[q.len() - 1] == (ar, ac));
    assert(path_ok(g, size, q, colour)) by {
        assert forall|k: int| 0 <= k < q.len() implies in_bounds(
            size,
            (#[trigger] q[k]).0,
            q[k].1,
        ) by {
            assert(q[k] == p[p.len() - 1 - k]);
        }
        assert forall|k: int|
            1 <= k < q.len() implies g[cell_idx(size, (#[trigger] q[k]).0, q[k].1)] == colour by {
            assert(q[k] == p[p.len() - 1 - k]);
            if p.len() - 1 - k == 0 {
                assert(q[k] == (ar, ac));
            }
        }
        assert forall|k: int| 1 <= k < q.len() implies step_adjacent(q[k - 1], #[trigger] q[k]) by {
            assert(q[k - 1] == p[p.len() - k]);
            assert(q[k] == p[p.len() - 1 - k]);
            assert(step_adjacent(p[p.len() - 1 - k], p[p.len() - k]));
        }
    }
}

} // verus!
