//! The region repairer: conflict resolution can sever a region, so for every
//! region id a flood fill from its marker finds the cells still connected to
//! it, and every same-coloured cell left behind is reset to unassigned.
//! The pass is specified exactly, which makes its idempotence a theorem.

use vstd::prelude::*;
use crate::board::{
    cell_idx, count_false, in_bounds, lemma_cell_idx_bounds, lemma_cell_idx_distinct,
    lemma_count_false_mark, lemma_size_ok_bound, size_ok,
};
use crate::grower::colours_in_range;
use crate::paths::{
    colour_closed, lemma_path_cells_reachable, lemma_reach_closed, lemma_reaches_mono,
    lemma_reaches_self, lemma_reaches_step, path_ok, reaches, step_adjacent,
};

verus! {

/// The marker directory handed to the repairer: entry `k` is
/// `(k + 1, k, column)` for the marker that owns region `k + 1`.
pub open spec fn queen_list_wf(cqi: Seq<(u32, u32, u32)>, size: int) -> bool {
    &&& cqi.len() == size
    &&& forall|k: int|
        0 <= k < size ==> (#[trigger] cqi[k]).0 == (k + 1) as u32 && cqi[k].1 == k as u32
            && (cqi[k].2 as int) < size
}

/// Every marker in the directory carries its own region id in the grid.
pub open spec fn queen_list_coloured(cg: Seq<u32>, cqi: Seq<(u32, u32, u32)>, size: int) -> bool {
    forall|k: int|
        0 <= k < size ==> cg[cell_idx(size, k, (#[trigger] cqi[k]).2 as int)] == (k + 1) as u32
}

/// Whether a repair pass keeps the cell: unassigned cells stay, and a
/// coloured cell stays exactly when its region's marker still reaches it
/// through same-coloured cells.
pub open spec fn cell_kept(
    cg: Seq<u32>,
    cqi: Seq<(u32, u32, u32)>,
    size: int,
    r: int,
    c: int,
) -> bool {
    let clr = cg[cell_idx(size, r, c)];
    ||| clr == 0
    ||| reaches(cg, size, clr - 1, cqi[clr - 1].2 as int, r, c, clr)
}

/// The exact effect of one repair pass on a grid.
pub open spec fn repaired(
    cg: Seq<u32>,
    cqi: Seq<(u32, u32, u32)>,
    size: int,
    out: Seq<u32>,
) -> bool {
    &&& out.len() == cg.len()
    &&& forall|r: int, c: int|
        in_bounds(size, r, c) ==> out[#[trigger] cell_idx(size, r, c)] == (if cell_kept(
            cg,
            cqi,
            size,
            r,
            c,
        ) {
            cg[cell_idx(size, r, c)]
        } else {
            0u32
        })
}

/// The flood state: queued cells are marked and reachable from the marker,
/// and every marked cell is queued.
spec fn flood_inv(
    g: Seq<u32>,
    size: int,
    mr: int,
    mc: int,
    colour: u32,
    queue: Seq<(u32, u32)>,
    seen: Seq<bool>,
) -> bool {
    &&& seen.len() == size * size
    &&& forall|j: int|
        0 <= j < queue.len() ==> in_bounds(size, (#[trigger] queue[j]).0 as int, queue[j].1 as int)
            && seen[cell_idx(size, queue[j].0 as int, queue[j].1 as int)] && reaches(
            g,
            size,
            mr,
            mc,
            queue[j].0 as int,
            queue[j].1 as int,
            colour,
        )
    &&& forall|r: int, c: int|
        in_bounds(size, r, c) && seen[#[trigger] cell_idx(size, r, c)] ==> exists|j: int|
            0 <= j < queue.len() && (#[trigger] queue[j]) == (r as u32, c as u32)
}

/// Mark and queue one neighbour of a flooded cell if it carries the flood's
/// colour and has not been marked yet.
#[verifier::rlimit(50)]
fn flood_try(
    colour_grid: &Vec<u32>,
    size: u32,
    mr: u32,
    mc: u32,
    colour: u32,
    queue: &mut Vec<(u32, u32)>,
    seen: &mut Vec<bool>,
    r: u32,
    c: u32,
    nr: u32,
    nc: u32,
)
    requires
        size_ok(size),
        colour_grid@.len() == size * size,
        nr < size,
        nc < size,
        step_adjacent((r as int, c as int), (nr as int, nc as int)),
        reaches(colour_grid@, size as int, mr as int, mc as int, r as int, c as int, colour),
        flood_inv(colour_grid@, size as int, mr as int, mc as int, colour, old(queue)@, old(seen)@),
    ensures
        flood_inv(
            colour_grid@,
            size as int,
            mr as int,
            mc as int,
            colour,
            final(queue)@,
            final(seen)@,
        ),
        final(seen)@.len() == old(seen)@.len(),
        final(queue)@.len() >= old(queue)@.len(),
        forall|k: int| 0 <= k < old(queue)@.len() ==> final(queue)@[k] == old(queue)@[k],
        forall|i: int| 0 <= i < old(seen)@.len() && old(seen)@[i] ==> final(seen)@[i],
        colour_grid@[cell_idx(size as int, nr as int, nc as int)] == colour
            ==> final(seen)@[cell_idx(size as int, nr as int, nc as int)],
        count_false(final(seen)@) <= count_false(old(seen)@),
        final(queue)@.len() > old(queue)@.len() ==> count_false(final(seen)@) < count_false(
            old(seen)@,
        ),
        final(queue)@.len() == old(queue)@.len() ==> final(queue)@ == old(queue)@ && final(seen)@
            == old(seen)@,
{
    proof {
        lemma_size_ok_bound(size);
        lemma_cell_idx_bounds(size as int, nr as int, nc as int);
    }
    let ghost sz = size as int;
    let ghost g = colour_grid@;
    let nidx = (nr * size + nc) as usize;
    if colour_grid[nidx] == colour && !seen[nidx] {
        let ghost seen_mid = seen@;
        let ghost queue_mid = queue@;
        seen[nidx] = true;
        queue.push((nr, nc));
        proof {
            lemma_count_false_mark(seen_mid, nidx as int);
            lemma_reaches_step(
                g,
                sz,
                mr as int,
                mc as int,
                r as int,
                c as int,
                nr as int,
                nc as int,
                colour,
            );
            assert(queue@[queue@.len() - 1] == (nr, nc));
            assert forall|j: int|
                0 <= j < queue@.len() implies in_bounds(
                sz,
                (#[trigger] queue@[j]).0 as int,
                queue@[j].1 as int,
            ) && seen@[cell_idx(sz, queue@[j].0 as int, queue@[j].1 as int)] && reaches(
                g,
                sz,
                mr as int,
                mc as int,
                queue@[j].0 as int,
                queue@[j].1 as int,
                colour,
            ) by {
                if j < queue_mid.len() {
                    assert(queue@[j] == queue_mid[j]);
                    lemma_cell_idx_bounds(sz, queue_mid[j].0 as int, queue_mid[j].1 as int);
                    assert(seen_mid[cell_idx(sz, queue_mid[j].0 as int, queue_mid[j].1 as int)]);
                }
            }
            assert forall|r2: int, c2: int|
                in_bounds(sz, r2, c2) && seen@[#[trigger] cell_idx(sz, r2, c2)] implies exists|
                j: int,
            |
                0 <= j < queue@.len() && (#[trigger] queue@[j]) == (r2 as u32, c2 as u32) by {
                lemma_cell_idx_bounds(sz, r2, c2);
                if cell_idx(sz, r2, c2) == nidx as int {
                    crate::board::lemma_cell_idx_injective(sz, r2, c2, nr as int, nc as int);
                    assert(queue@[queue@.len() - 1] == (r2 as u32, c2 as u32));
                } else {
                    assert(seen_mid[cell_idx(sz, r2, c2)]);
                    let j = choose|j: int|
                        0 <= j < queue_mid.len() && (#[trigger] queue_mid[j]) == (
                        r2 as u32,
                        c2 as u32,
                        );
                    assert(queue@[j] == queue_mid[j]);
                }
            }
        }
    }
}

/// At the end of the flood every marked cell is reachable and every
/// reachable cell is marked.
#[verifier::rlimit(100)]
proof fn lemma_flood_exact(
    g: Seq<u32>,
    size: int,
    mr: int,
    mc: int,
    colour: u32,
    queue: Seq<(u32, u32)>,
    seen: Seq<bool>,
)
    requires
        0 < size <= 65535,
        g.len() == size * size,
        0 <= mr < size,
        0 <= mc < size,
        seen[cell_idx(size, mr, mc)],
        flood_inv(g, size, mr, mc, colour, queue, seen),
        forall|j: int, nr: int, nc: int|
            0 <= j < queue.len() && in_bounds(size, nr, nc) && step_adjacent(
                ((#[trigger] queue[j]).0 as int, queue[j].1 as int),
                (nr, nc),
            ) && g[#[trigger] cell_idx(size, nr, nc)] == colour ==> seen[cell_idx(size, nr, nc)],
    ensures
        forall|r: int, c: int|
            in_bounds(size, r, c) ==> (seen[#[trigger] cell_idx(size, r, c)] == reaches(
                g,
                size,
                mr,
                mc,
                r,
                c,
                colour,
            )),
{
    assert forall|r: int, c: int|
        in_bounds(size, r, c) implies (seen[#[trigger] cell_idx(size, r, c)] == reaches(
        g,
        size,
        mr,
        mc,
        r,
        c,
        colour,
    )) by {
        lemma_cell_idx_bounds(size, r, c);
        if seen[cell_idx(size, r, c)] {
            let j = choose|j: int|
                0 <= j < queue.len() && (#[trigger] queue[j]) == (r as u32, c as u32);
            assert(reaches(g, size, mr, mc, r, c, colour));
        }
        if reaches(g, size, mr, mc, r, c, colour) {
            assert(colour_closed(g, size, seen, colour)) by {
                assert forall|ar: int, ac: int, br: int, bc: int|
                    in_bounds(size, ar, ac) && in_bounds(size, br, bc) && step_adjacent(
                        (ar, ac),
                        (br, bc),
                    ) && seen[cell_idx(size, ar, ac)] && g[cell_idx(size, br, bc)]
                        == colour implies seen[cell_idx(size, br, bc)] by {
                    lemma_cell_idx_bounds(size, ar, ac);
                    let j = choose|j: int|
                        0 <= j < queue.len() && (#[trigger] queue[j]) == (ar as u32, ac as u32);
                    assert(seen[cell_idx(size, br, bc)]);
                }
            }
            lemma_reach_closed(g, size, seen, mr, mc, r, c, colour);
        }
    }
}

/// Flood fill the cells of one region that its marker still reaches: the
/// returned mask holds exactly the cells reachable from `(mr, mc)` through
/// cells coloured `colour`.
#[verifier::rlimit(100)]
fn flood_region(colour_grid: &Vec<u32>, size: u32, mr: u32, mc: u32, colour: u32) -> (seen: Vec<
    bool,
>)
    requires
        size_ok(size),
        0 < size,
        colour_grid@.len() == size * size,
        mr < size,
        mc < size,
        colour != 0,
    ensures
        seen@.len() == size * size,
        forall|r: int, c: int|
            in_bounds(size as int, r, c) ==> (seen@[#[trigger] cell_idx(size as int, r, c)]
                == reaches(colour_grid@, size as int, mr as int, mc as int, r, c, colour)),
{
    proof {
        lemma_size_ok_bound(size);
    }
    let ghost sz = size as int;
    let ghost g = colour_grid@;
    let n = (size * size) as usize;
    let mut seen: Vec<bool> = Vec::new();
    while seen.len() < n
        invariant
            seen@.len() <= n,
            forall|i: int| 0 <= i < seen@.len() ==> !(#[trigger] seen@[i]),
        decreases n - seen@.len(),
    {
        seen.push(false);
    }
    let mut queue: Vec<(u32, u32)> = Vec::new();
    proof {
        lemma_cell_idx_bounds(sz, mr as int, mc as int);
    }
    let midx = (mr * size + mc) as usize;
    let ghost seen_blank = seen@;
    seen[midx] = true;
    queue.push((mr, mc));
    proof {
        lemma_reaches_self(g, sz, mr as int, mc as int, colour);
        assert(queue@[0] == (mr, mc));
        assert(seen@[cell_idx(sz, mr as int, mc as int)]);
        assert forall|r: int, c: int|
            in_bounds(sz, r, c) && seen@[#[trigger] cell_idx(sz, r, c)] implies exists|j: int|
            0 <= j < queue@.len() && (#[trigger] queue@[j]) == (r as u32, c as u32) by {
            lemma_cell_idx_bounds(sz, r, c);
            if cell_idx(sz, r, c) == midx as int {
                crate::board::lemma_cell_idx_injective(sz, r, c, mr as int, mc as int);
                assert(queue@[0] == (r as u32, c as u32));
            } else {
                assert(!seen_blank[cell_idx(sz, r, c)]);
                assert(false);
            }
        }
    }
    let mut head: usize = 0;
    while head < queue.len()
        invariant
            size_ok(size),
            size <= 65535,
            sz == size as int,
            g == colour_grid@,
            g.len() == size * size,
            mr < size,
            mc < size,
            colour != 0,
            head <= queue@.len(),
            seen@[cell_idx(sz, mr as int, mc as int)],
            flood_inv(g, sz, mr as int, mc as int, colour, queue@, seen@),
            // processed cells have all their colour neighbours marked
            forall|j: int, nr: int, nc: int|
                0 <= j < head && in_bounds(sz, nr, nc) && step_adjacent(
                    ((#[trigger] queue@[j]).0 as int, queue@[j].1 as int),
                    (nr, nc),
                ) && g[#[trigger] cell_idx(sz, nr, nc)] == colour ==> seen@[cell_idx(sz, nr, nc)],
        decreases count_false(seen@), queue@.len() - head,
    {
        let (r, c) = queue[head];
        let ghost seen_pre = seen@;
        let ghost queue_pre = queue@;
        assert(in_bounds(sz, r as int, c as int));
        if r > 0 {
            flood_try(colour_grid, size, mr, mc, colour, &mut queue, &mut seen, r, c, r - 1, c);
        }
        if r + 1 < size {
            flood_try(colour_grid, size, mr, mc, colour, &mut queue, &mut seen, r, c, r + 1, c);
        }
        if c > 0 {
            flood_try(colour_grid, size, mr, mc, colour, &mut queue, &mut seen, r, c, r, c - 1);
        }
        if c + 1 < size {
            flood_try(colour_grid, size, mr, mc, colour, &mut queue, &mut seen, r, c, r, c + 1);
        }
        proof {
            assert forall|nr: int, nc: int|
                in_bounds(sz, nr, nc) && step_adjacent((r as int, c as int), (nr, nc))
                    && g[#[trigger] cell_idx(sz, nr, nc)] == colour implies seen@[cell_idx(
                sz,
                nr,
                nc,
            )] by {
                lemma_cell_idx_bounds(sz, nr, nc);
                if nr == r - 1 && nc == c {
                } else if nr == r + 1 && nc == c {
                } else if nr == r && nc == c - 1 {
                } else {
                    assert(nr == r && nc == c + 1);
                }
            }
            assert(queue@[head as int] == (r, c));
        }
        head = head + 1;
        proof {
            if count_false(seen@) == count_false(seen_pre) {
                assert(queue@ =~= queue_pre);
            }
        }
    }
    proof {
        lemma_flood_exact(g, sz, mr as int, mc as int, colour, queue@, seen@);
    }
    seen
}

/// One repair pass: for every region id, flood from its marker through
/// same-coloured cells and reset every cell of that colour the flood did
/// not reach.  The result is pinned exactly by `repaired`.
#[verifier::rlimit(100)]
pub fn fix_invalid_colours(
    colour_grid: &mut Vec<u32>,
    colour_queen_indices: &Vec<(u32, u32, u32)>,
    size: u32,
)
    requires
        size_ok(size),
        0 < size,
        old(colour_grid)@.len() == size * size,
        colours_in_range(old(colour_grid)@, size as int),
        queen_list_wf(colour_queen_indices@, size as int),
        queen_list_coloured(old(colour_grid)@, colour_queen_indices@, size as int),
    ensures
        repaired(
            old(colour_grid)@,
            colour_queen_indices@,
            size as int,
            final(colour_grid)@,
        ),
        colours_in_range(final(colour_grid)@, size as int),
        queen_list_coloured(final(colour_grid)@, colour_queen_indices@, size as int),
{
    proof {
        lemma_size_ok_bound(size);
    }
    let ghost sz = size as int;
    let ghost g0 = colour_grid@;
    let ghost cqi = colour_queen_indices@;
    let mut colour: u32 = 1;
    while colour <= size
        invariant
            size_ok(size),
            size <= 65535,
            0 < size,
            sz == size as int,
            1 <= colour <= size + 1,
            g0 == old(colour_grid)@,
            cqi == colour_queen_indices@,
            g0.len() == size * size,
            colour_grid@.len() == size * size,
            colours_in_range(g0, sz),
            queen_list_wf(cqi, sz),
            queen_list_coloured(g0, cqi, sz),
            forall|r: int, c: int|
                in_bounds(sz, r, c) ==> colour_grid@[#[trigger] cell_idx(sz, r, c)] == (
                if g0[cell_idx(sz, r, c)] != 0 && (g0[cell_idx(sz, r, c)] as int) < colour
                    && !cell_kept(g0, cqi, sz, r, c) {
                    0u32
                } else {
                    g0[cell_idx(sz, r, c)]
                }),
        decreases size + 1 - colour,
    {
        let ghost g_cur = colour_grid@;
        let qrow = colour - 1;
        let qcol = colour_queen_indices[(colour - 1) as usize].2;
        proof {
            assert(cqi[colour as int - 1].2 == qcol);
            assert((qcol as int) < sz);
            // this colour's cells are untouched so far: earlier passes only
            // reset cells of smaller colours
            assert forall|ar: int, ac: int|
                in_bounds(sz, ar, ac) implies ((g_cur[#[trigger] cell_idx(sz, ar, ac)] == colour)
                == (g0[cell_idx(sz, ar, ac)] == colour)) by {
                lemma_cell_idx_bounds(sz, ar, ac);
            }
        }
        let seen = flood_region(colour_grid, size, qrow, qcol, colour);
        // reset the cells of this colour that the flood missed
        let mut row: u32 = 0;
        while row < size
            invariant
                size_ok(size),
                size <= 65535,
                0 < size,
                sz == size as int,
                1 <= colour <= size,
                row <= size,
                g0 == old(colour_grid)@,
                cqi == colour_queen_indices@,
                g0.len() == size * size,
                g_cur.len() == size * size,
                colour_grid@.len() == size * size,
                seen@.len() == size * size,
                colours_in_range(g0, sz),
                queen_list_wf(cqi, sz),
                queen_list_coloured(g0, cqi, sz),
                qrow == colour - 1,
                (qcol as int) == cqi[colour as int - 1].2 as int,
                forall|r: int, c: int|
                    in_bounds(sz, r, c) ==> (seen@[#[trigger] cell_idx(sz, r, c)] == reaches(
                        g_cur,
                        sz,
                        qrow as int,
                        qcol as int,
                        r,
                        c,
                        colour,
                    )),
                forall|ar: int, ac: int|
                    in_bounds(sz, ar, ac) ==> ((g_cur[#[trigger] cell_idx(sz, ar, ac)] == colour)
                        == (g0[cell_idx(sz, ar, ac)] == colour)),
                forall|r: int, c: int|
                    in_bounds(sz, r, c) ==> g_cur[#[trigger] cell_idx(sz, r, c)] == (
                    if g0[cell_idx(sz, r, c)] != 0 && (g0[cell_idx(sz, r, c)] as int) < colour
                        && !cell_kept(g0, cqi, sz, r, c) {
                        0u32
                    } else {
                        g0[cell_idx(sz, r, c)]
                    }),
                forall|r: int, c: int|
                    in_bounds(sz, r, c) ==> colour_grid@[#[trigger] cell_idx(sz, r, c)] == (
                    if r < row && g_cur[cell_idx(sz, r, c)] == colour && !seen@[cell_idx(
                        sz,
                        r,
                        c,
                    )] {
                        0u32
                    } else {
                        g_cur[cell_idx(sz, r, c)]
                    }),
            decreases size - row,
        {
            let mut col: u32 = 0;
            while col < size
                invariant
                    size_ok(size),
                    size <= 65535,
                    sz == size as int,
                    row < size,
                    col <= size,
                    colour_grid@.len() == size * size,
                    seen@.len() == size * size,
                    g_cur.len() == size * size,
                    colour != 0,
                    forall|r: int, c: int|
                        in_bounds(sz, r, c) ==> colour_grid@[#[trigger] cell_idx(sz, r, c)] == (
                        if (r < row || (r == row && c < col)) && g_cur[cell_idx(sz, r, c)]
                            == colour && !seen@[cell_idx(sz, r, c)] {
                            0u32
                        } else {
                            g_cur[cell_idx(sz, r, c)]
                        }),
                decreases size - col,
            {
                proof {
                    lemma_cell_idx_bounds(sz, row as int, col as int);
                }
                let idx = (row * size + col) as usize;
                let ghost g_mid = colour_grid@;
                if colour_grid[idx] == colour && !seen[idx] {
                    colour_grid[idx] = 0;
                }
                proof {
                    assert forall|r: int, c: int|
                        in_bounds(sz, r, c) implies colour_grid@[#[trigger] cell_idx(sz, r, c)]
                        == (if (r < row || (r == row && c < col + 1)) && g_cur[cell_idx(sz, r, c)]
                        == colour && !seen@[cell_idx(sz, r, c)] {
                        0u32
                    } else {
                        g_cur[cell_idx(sz, r, c)]
                    }) by {
                        lemma_cell_idx_bounds(sz, r, c);
                        if !(r == row && c == col) {
                            lemma_cell_idx_distinct(sz, r, c, row as int, col as int);
                            assert(colour_grid@[cell_idx(sz, r, c)] == g_mid[cell_idx(sz, r, c)]);
                        }
                    }
                }
                col = col + 1;
            }
            row = row + 1;
        }
        proof {
            // after this pass, colour `colour` cells obey the keep rule too
            assert forall|r: int, c: int|
                in_bounds(sz, r, c) implies colour_grid@[#[trigger] cell_idx(sz, r, c)] == (
            if g0[cell_idx(sz, r, c)] != 0 && (g0[cell_idx(sz, r, c)] as int) < colour + 1
                && !cell_kept(g0, cqi, sz, r, c) {
                0u32
            } else {
                g0[cell_idx(sz, r, c)]
            }) by {
                lemma_cell_idx_bounds(sz, r, c);
                let clr0 = g0[cell_idx(sz, r, c)];
                if clr0 == colour {
                    assert(g_cur[cell_idx(sz, r, c)] == colour);
                    // reachability in the current grid matches the starting
                    // grid, because this colour's cells are untouched
                    assert(reaches(g_cur, sz, qrow as int, qcol as int, r, c, colour) == reaches(
                        g0,
                        sz,
                        qrow as int,
                        qcol as int,
                        r,
                        c,
                        colour,
                    )) by {
                        if reaches(g_cur, sz, qrow as int, qcol as int, r, c, colour) {
                            lemma_reaches_mono(
                                g_cur,
                                g0,
                                sz,
                                qrow as int,
                                qcol as int,
                                r,
                                c,
                                colour,
                            );
                        }
                        if reaches(g0, sz, qrow as int, qcol as int, r, c, colour) {
                            lemma_reaches_mono(
                                g0,
                                g_cur,
                                sz,
                                qrow as int,
                                qcol as int,
                                r,
                                c,
                                colour,
                            );
                        }
                    }
                    assert(cell_kept(g0, cqi, sz, r, c) == reaches(
                        g0,
                        sz,
                        qrow as int,
                        qcol as int,
                        r,
                        c,
                        colour,
                    ));
                } else if clr0 != 0 && (clr0 as int) < colour {
                    assert(g_cur[cell_idx(sz, r, c)] != colour || g0[cell_idx(sz, r, c)] == colour);
                }
            }
        }
        colour = colour + 1;
    }
    proof {
        assert forall|r: int, c: int|
            in_bounds(sz, r, c) implies final(colour_grid)@[#[trigger] cell_idx(sz, r, c)] == (
        if cell_kept(g0, cqi, sz, r, c) {
            g0[cell_idx(sz, r, c)]
        } else {
            0u32
        }) by {
            lemma_cell_idx_bounds(sz, r, c);
            let clr0 = g0[cell_idx(sz, r, c)];
            if clr0 == 0 {
                assert(cell_kept(g0, cqi, sz, r, c));
            } else {
                assert((clr0 as int) < colour);
            }
        }
        // colours only shrink to zero, and markers always reach themselves
        assert(colours_in_range(colour_grid@, sz)) by {
            assert forall|i: int| 0 <= i < colour_grid@.len() implies #[trigger] colour_grid@[i]
                <= size by {
                crate::board::lemma_cell_idx_surjective(sz, i);
                let (r, c) = choose|r: int, c: int|
                    in_bounds(sz, r, c) && #[trigger] cell_idx(sz, r, c) == i;
                assert(colour_grid@[cell_idx(sz, r, c)] == 0 || colour_grid@[cell_idx(sz, r, c)]
                    == g0[cell_idx(sz, r, c)]);
            }
        }
        assert forall|k: int|
            0 <= k < size implies colour_grid@[cell_idx(sz, k, (#[trigger] cqi[k]).2 as int)] == (
        k + 1) as u32 by {
            let mc = cqi[k].2 as int;
            assert(g0[cell_idx(sz, k, mc)] == (k + 1) as u32);
            lemma_reaches_self(g0, sz, k, mc, (k + 1) as u32);
            assert(cell_kept(g0, cqi, sz, k, mc));
        }
    }
}

/// Repairing a grid twice is the same as repairing it once: every cell the
/// first pass keeps is reachable through kept cells, so the second pass
/// keeps it too.
#[verifier::rlimit(100)]
pub proof fn lemma_repair_idempotent(
    g1: Seq<u32>,
    g2: Seq<u32>,
    g3: Seq<u32>,
    cqi: Seq<(u32, u32, u32)>,
    size: int,
)
    requires
        0 < size <= 65535,
        g1.len() == size * size,
        colours_in_range(g1, size),
        queen_list_wf(cqi, size),
        queen_list_coloured(g1, cqi, size),
        repaired(g1, cqi, size, g2),
        repaired(g2, cqi, size, g3),
    ensures
        g3 == g2,
{
    assert forall|r: int, c: int|
        in_bounds(size, r, c) implies g3[#[trigger] cell_idx(size, r, c)] == g2[cell_idx(
        size,
        r,
        c,
    )] by {
        lemma_cell_idx_bounds(size, r, c);
        let clr2 = g2[cell_idx(size, r, c)];
        if clr2 == 0 {
            assert(cell_kept(g2, cqi, size, r, c));
        } else {
            // the cell was kept by the first pass
            assert(cell_kept(g1, cqi, size, r, c));
            assert(g2[cell_idx(size, r, c)] == g1[cell_idx(size, r, c)]);
            let clr = g1[cell_idx(size, r, c)];
            assert(clr == clr2);
            let mr = clr - 1;
            let mc = cqi[clr - 1].2 as int;
            assert(reaches(g1, size, mr, mc, r, c, clr));
            let p = choose|p: Seq<(int, int)>|
                path_ok(g1, size, p, clr) && p[0] == (mr, mc) && p[p.len() - 1] == (r, c);
            lemma_path_cells_reachable(g1, size, p, clr);
            // every cell on the path survives the first pass with its colour
            assert(path_ok(g2, size, p, clr)) by {
                assert forall|k: int| 1 <= k < p.len() implies g2[cell_idx(
                    size,
                    (#[trigger] p[k]).0,
                    p[k].1,
                )] == clr by {
                    let (pr, pc) = p[k];
                    assert(in_bounds(size, pr, pc));
                    assert(g1[cell_idx(size, pr, pc)] == clr);
                    assert(reaches(g1, size, mr, mc, pr, pc, clr));
                    assert(cell_kept(g1, cqi, size, pr, pc));
                }
            }
            assert(reaches(g2, size, mr, mc, r, c, clr)) by {
                assert(p[0] == (mr, mc) && p[p.len() - 1] == (r, c));
            }
            assert(cell_kept(g2, cqi, size, r, c));
        }
    }
    assert forall|i: int| 0 <= i < g2.len() implies g3[i] == g2[i] by {
        crate::board::lemma_cell_idx_surjective(size, i);
        let (r, c) = choose|r: int, c: int|
            in_bounds(size, r, c) && #[trigger] cell_idx(size, r, c) == i;
        assert(g3[cell_idx(size, r, c)] == g2[cell_idx(size, r, c)]);
    }
    assert(g3 =~= g2);
}

} // verus!
