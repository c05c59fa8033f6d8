//! The region grower: a randomized multi-source flood fill that extends the
//! marker-seeded colouring to the whole board while keeping every region
//! 4-connected to its marker.

use vstd::prelude::*;
use crate::board::{
    cell_idx, count_zeros, grid_sized, in_bounds, is_queen, lemma_cell_idx_bounds,
    lemma_cell_idx_distinct, lemma_cell_idx_injective, lemma_cell_idx_surjective, lemma_count_zeros_set_nonzero, lemma_queen_at, lemma_size_ok_bound,
    queen_at, size_ok, valid_placement,
};
use crate::paths::{
    has_coloured_neighbour, is_frontier_cell, lemma_frontier_exists, lemma_reaches_mono,
    lemma_reaches_self, lemma_reaches_step, reaches, step_adjacent,
};
use crate::rng_source::{rand_below, shuffle_u32s};

verus! {

/// Every value the colour grid holds is one of the `size` region ids or 0.
pub open spec fn colours_in_range(cg: Seq<u32>, size: int) -> bool {
    forall|i: int| 0 <= i < cg.len() ==> #[trigger] cg[i] <= size
}

/// Marker cells carry their own region's id: the marker of row `r` owns
/// region `r + 1`.
pub open spec fn markers_coloured(cg: Seq<u32>, q: Seq<u32>, size: int) -> bool {
    forall|r: int, c: int|
        in_bounds(size, r, c) && #[trigger] is_queen(q, size, r, c) ==> cg[cell_idx(size, r, c)]
            == (r + 1) as u32
}

/// The row of the marker that owns `colour`.
pub open spec fn marker_row(colour: u32) -> int {
    colour - 1
}

/// The column of the marker that owns `colour`.
pub open spec fn marker_col(q: Seq<u32>, size: int, colour: u32) -> int {
    queen_at(q, size, colour - 1)
}

/// Region well-formedness: colours stay in range, markers keep their own
/// region ids, and every coloured cell is reachable from its region's marker
/// through same-coloured cells.
pub open spec fn regions_wf(cg: Seq<u32>, q: Seq<u32>, size: int) -> bool {
    &&& grid_sized(cg, size)
    &&& colours_in_range(cg, size)
    &&& markers_coloured(cg, q, size)
    &&& forall|r: int, c: int|
        in_bounds(size, r, c) && cg[#[trigger] cell_idx(size, r, c)] != 0 ==> 1 <= cg[cell_idx(
            size,
            r,
            c,
        )] && reaches(
            cg,
            size,
            marker_row(cg[cell_idx(size, r, c)]),
            marker_col(q, size, cg[cell_idx(size, r, c)]),
            r,
            c,
            cg[cell_idx(size, r, c)],
        )
}

/// Every cell carries a region id.
pub open spec fn fully_coloured(cg: Seq<u32>, size: int) -> bool {
    forall|r: int, c: int|
        in_bounds(size, r, c) ==> cg[#[trigger] cell_idx(size, r, c)] != 0
}

/// The non-zero colour of the neighbour at `(r, c)`, as a zero- or
/// one-element sequence.
pub open spec fn maybe_colour(g: Seq<u32>, size: int, r: int, c: int) -> Seq<u32> {
    if in_bounds(size, r, c) && g[cell_idx(size, r, c)] != 0 {
        seq![g[cell_idx(size, r, c)]]
    } else {
        Seq::empty()
    }
}

/// The colours of the coloured orthogonal neighbours of `(r, c)`, in the
/// order up, down, left, right.
pub open spec fn neighbour_colours(g: Seq<u32>, size: int, r: int, c: int) -> Seq<u32> {
    maybe_colour(g, size, r - 1, c) + maybe_colour(g, size, r + 1, c) + maybe_colour(g, size, r, c - 1)
        + maybe_colour(g, size, r, c + 1)
}

/// Each listed colour really sits on a coloured orthogonal neighbour.
pub proof fn lemma_neighbour_colours_sound(g: Seq<u32>, size: int, r: int, c: int)
    requires
        in_bounds(size, r, c),
    ensures
        forall|k: int|
            #![trigger neighbour_colours(g, size, r, c)[k]]
            0 <= k < neighbour_colours(g, size, r, c).len() ==> exists|vr: int, vc: int|
                in_bounds(size, vr, vc) && step_adjacent((vr, vc), (r, c)) && g[#[trigger] cell_idx(
                    size,
                    vr,
                    vc,
                )] == neighbour_colours(g, size, r, c)[k] && g[cell_idx(size, vr, vc)] != 0,
{
    let m1 = maybe_colour(g, size, r - 1, c);
    let m2 = maybe_colour(g, size, r + 1, c);
    let m3 = maybe_colour(g, size, r, c - 1);
    let m4 = maybe_colour(g, size, r, c + 1);
    let all = neighbour_colours(g, size, r, c);
    assert forall|k: int| #![trigger all[k]] 0 <= k < all.len() implies exists|vr: int, vc: int|
        in_bounds(size, vr, vc) && step_adjacent((vr, vc), (r, c)) && g[#[trigger] cell_idx(
            size,
            vr,
            vc,
        )] == all[k] && g[cell_idx(size, vr, vc)] != 0 by {
        if k < m1.len() {
            assert(all[k] == m1[k]);
            assert(m1.len() == 1 && in_bounds(size, r - 1, c) && g[cell_idx(size, r - 1, c)] != 0);
            assert(step_adjacent((r - 1, c), (r, c)));
            assert(in_bounds(size, r - 1, c) && step_adjacent((r - 1, c), (r, c)) && g[cell_idx(
                size,
                r - 1,
                c,
            )] == all[k] && g[cell_idx(size, r - 1, c)] != 0);
        } else if k < m1.len() + m2.len() {
            assert(all[k] == m2[k - m1.len()]);
            assert(m2.len() == 1 && in_bounds(size, r + 1, c) && g[cell_idx(size, r + 1, c)] != 0);
            assert(in_bounds(size, r + 1, c) && step_adjacent((r + 1, c), (r, c)) && g[cell_idx(
                size,
                r + 1,
                c,
            )] == all[k] && g[cell_idx(size, r + 1, c)] != 0);
        } else if k < m1.len() + m2.len() + m3.len() {
            assert(all[k] == m3[k - m1.len() - m2.len()]);
            assert(m3.len() == 1 && in_bounds(size, r, c - 1) && g[cell_idx(size, r, c - 1)] != 0);
            assert(in_bounds(size, r, c - 1) && step_adjacent((r, c - 1), (r, c)) && g[cell_idx(
                size,
                r,
                c - 1,
            )] == all[k] && g[cell_idx(size, r, c - 1)] != 0);
        } else {
            assert(all[k] == m4[k - m1.len() - m2.len() - m3.len()]);
            assert(m4.len() == 1 && in_bounds(size, r, c + 1) && g[cell_idx(size, r, c + 1)] != 0);
            assert(in_bounds(size, r, c + 1) && step_adjacent((r, c + 1), (r, c)) && g[cell_idx(
                size,
                r,
                c + 1,
            )] == all[k] && g[cell_idx(size, r, c + 1)] != 0);
        }
    }
}

/// A frontier cell always sees at least one neighbouring colour.
pub proof fn lemma_neighbour_colours_complete(g: Seq<u32>, size: int, r: int, c: int)
    requires
        in_bounds(size, r, c),
        has_coloured_neighbour(g, size, r, c),
    ensures
        neighbour_colours(g, size, r, c).len() > 0,
{
    let (vr, vc) = choose|vr: int, vc: int|
        in_bounds(size, vr, vc) && step_adjacent((vr, vc), (r, c)) && g[#[trigger] cell_idx(
            size,
            vr,
            vc,
        )] != 0;
    if vr == r - 1 && vc == c {
        assert(maybe_colour(g, size, r - 1, c).len() == 1);
    } else if vr == r + 1 && vc == c {
        assert(maybe_colour(g, size, r + 1, c).len() == 1);
    } else if vr == r && vc == c - 1 {
        assert(maybe_colour(g, size, r, c - 1).len() == 1);
    } else {
        assert(vr == r && vc == c + 1);
        assert(maybe_colour(g, size, r, c + 1).len() == 1);
    }
}

/// The colours of the coloured cells orthogonally adjacent to `(row, col)`,
/// in the order up, down, left, right.
pub fn find_colours(colour_grid: &Vec<u32>, row: u32, col: u32, size: u32) -> (colours: Vec<u32>)
    requires
        size_ok(size),
        colour_grid@.len() == size * size,
        row < size,
        col < size,
    ensures
        colours@ == neighbour_colours(colour_grid@, size as int, row as int, col as int),
{
    let ghost g = colour_grid@;
    let ghost sz = size as int;
    let ghost m1 = maybe_colour(g, sz, row as int - 1, col as int);
    let ghost m2 = maybe_colour(g, sz, row as int + 1, col as int);
    let ghost m3 = maybe_colour(g, sz, row as int, col as int - 1);
    let ghost m4 = maybe_colour(g, sz, row as int, col as int + 1);
    let mut colours: Vec<u32> = Vec::new();
    proof {
        lemma_size_ok_bound(size);
    }
    if row > 0 {
        proof {
            lemma_cell_idx_bounds(sz, row as int - 1, col as int);
        }
        let v = colour_grid[((row - 1) * size + col) as usize];
        if v != 0 {
            colours.push(v);
        }
    }
    assert(colours@ =~= m1);
    if row + 1 < size {
        proof {
            lemma_cell_idx_bounds(sz, row as int + 1, col as int);
        }
        let v = colour_grid[((row + 1) * size + col) as usize];
        if v != 0 {
            colours.push(v);
        }
    }
    assert(colours@ =~= m1 + m2);
    if col > 0 {
        proof {
            lemma_cell_idx_bounds(sz, row as int, col as int - 1);
        }
        let v = colour_grid[(row * size + (col - 1)) as usize];
        if v != 0 {
            colours.push(v);
        }
    }
    assert(colours@ =~= m1 + m2 + m3);
    if col + 1 < size {
        proof {
            lemma_cell_idx_bounds(sz, row as int, col as int + 1);
        }
        let v = colour_grid[(row * size + (col + 1)) as usize];
        if v != 0 {
            colours.push(v);
        }
    }
    assert(colours@ =~= m1 + m2 + m3 + m4);
    colours
}

/// Whether every in-bounds orthogonal neighbour of `(row, col)` is already
/// coloured: a dead-end test for deferred frontier cells.
pub fn all_neighbours_found(colour_grid: &Vec<u32>, row: u32, col: u32, size: u32) -> (b: bool)
    requires
        size_ok(size),
        colour_grid@.len() == size * size,
        row < size,
        col < size,
    ensures
        b == forall|nr: int, nc: int|
            in_bounds(size as int, nr, nc) && step_adjacent((nr, nc), (row as int, col as int))
                ==> colour_grid@[#[trigger] cell_idx(size as int, nr, nc)] != 0,
{
    proof {
        lemma_size_ok_bound(size);
    }
    let ghost sz = size as int;
    let mut all_found = true;
    if row > 0 {
        proof {
            lemma_cell_idx_bounds(sz, row as int - 1, col as int);
        }
        if colour_grid[((row - 1) * size + col) as usize] == 0 {
            all_found = false;
        }
    }
    if row + 1 < size {
        proof {
            lemma_cell_idx_bounds(sz, row as int + 1, col as int);
        }
        if colour_grid[((row + 1) * size + col) as usize] == 0 {
            all_found = false;
        }
    }
    if col > 0 {
        proof {
            lemma_cell_idx_bounds(sz, row as int, col as int - 1);
        }
        if colour_grid[(row * size + (col - 1)) as usize] == 0 {
            all_found = false;
        }
    }
    if col + 1 < size {
        proof {
            lemma_cell_idx_bounds(sz, row as int, col as int + 1);
        }
        if colour_grid[(row * size + (col + 1)) as usize] == 0 {
            all_found = false;
        }
    }
    proof {
        if all_found {
            assert forall|nr: int, nc: int|
                in_bounds(sz, nr, nc) && step_adjacent(
                    (nr, nc),
                    (row as int, col as int),
                ) implies colour_grid@[#[trigger] cell_idx(sz, nr, nc)] != 0 by {
                if nr == row - 1 && nc == col {
                } else if nr == row + 1 && nc == col {
                } else if nr == row && nc == col - 1 {
                } else {
                    assert(nr == row && nc == col + 1);
                }
            }
        }
    }
    all_found
}

/// Queue the cell for colouring unless it was queued before.
fn push_if_not_seen(
    queue: &mut Vec<(u32, u32)>,
    seen: &mut Vec<bool>,
    row: u32,
    col: u32,
    size: u32,
)
    requires
        size_ok(size),
        old(seen)@.len() == size * size,
        row < size,
        col < size,
    ensures
        old(seen)@[cell_idx(size as int, row as int, col as int)] ==> final(queue)@ == old(queue)@
            && final(seen)@ == old(seen)@,
        !old(seen)@[cell_idx(size as int, row as int, col as int)] ==> final(queue)@ == old(
            queue,
        )@.push((row, col)) && final(seen)@ == old(seen)@.update(
            cell_idx(size as int, row as int, col as int),
            true,
        ),
{
    proof {
        lemma_cell_idx_bounds(size as int, row as int, col as int);
    }
    let idx = (row * size + col) as usize;
    if !seen[idx] {
        seen[idx] = true;
        queue.push((row, col));
    }
}

/// What one guarded `push_if_not_seen` on the neighbour `(r, c)` does to the
/// queue and the seen mask.
pub open spec fn push_step(
    size: int,
    g: Seq<u32>,
    q0: Seq<(u32, u32)>,
    s0: Seq<bool>,
    q1: Seq<(u32, u32)>,
    s1: Seq<bool>,
    r: int,
    c: int,
) -> bool {
    if in_bounds(size, r, c) && g[cell_idx(size, r, c)] == 0 && !s0[cell_idx(size, r, c)] {
        q1 == q0.push((r as u32, c as u32)) && s1 == s0.update(cell_idx(size, r, c), true)
    } else if in_bounds(size, r, c) && g[cell_idx(size, r, c)] == 0 {
        q1 == q0 && s1 == s0
    } else {
        q1 == q0 && s1 == s0
    }
}

proof fn lemma_push_step_facts(
    size: int,
    g: Seq<u32>,
    q0: Seq<(u32, u32)>,
    s0: Seq<bool>,
    q1: Seq<(u32, u32)>,
    s1: Seq<bool>,
    r: int,
    c: int,
    row: int,
    col: int,
)
    requires
        0 <= row < size,
        0 <= col < size,
        size <= 0xffff_ffff,
        g.len() == size * size,
        s0.len() == size * size,
        step_adjacent((r, c), (row, col)),
        -1 <= r <= size,
        -1 <= c <= size,
        push_step(size, g, q0, s0, q1, s1, r, c),
    ensures
        s1.len() == s0.len(),
        q1.len() >= q0.len(),
        q1.len() <= q0.len() + 1,
        forall|k: int| 0 <= k < q0.len() ==> q1[k] == q0[k],
        forall|k: int|
            q0.len() <= k < q1.len() ==> in_bounds(
                size,
                (#[trigger] q1[k]).0 as int,
                q1[k].1 as int,
            ) && step_adjacent((q1[k].0 as int, q1[k].1 as int), (row, col)) && g[cell_idx(
                size,
                q1[k].0 as int,
                q1[k].1 as int,
            )] == 0 && !s0[cell_idx(size, q1[k].0 as int, q1[k].1 as int)] && s1[cell_idx(
                size,
                q1[k].0 as int,
                q1[k].1 as int,
            )],
        forall|i: int| 0 <= i < s0.len() && s0[i] ==> s1[i],
        forall|i: int|
            0 <= i < s0.len() && s1[i] && !s0[i] ==> q1.len() == q0.len() + 1 && cell_idx(
                size,
                q1[q0.len() as int].0 as int,
                q1[q0.len() as int].1 as int,
            ) == i,
        in_bounds(size, r, c) && g[cell_idx(size, r, c)] == 0 ==> s1[cell_idx(size, r, c)],
{
    if in_bounds(size, r, c) && g[cell_idx(size, r, c)] == 0 && !s0[cell_idx(size, r, c)] {
        lemma_cell_idx_bounds(size, r, c);
        assert(q1[q0.len() as int] == (r as u32, c as u32));
    } else {
        if in_bounds(size, r, c) {
            lemma_cell_idx_bounds(size, r, c);
        }
    }
}


/// Assembles the guarantees of the four guarded neighbour pushes into the
/// single step relation `colour_cell` promises.
#[verifier::rlimit(100)]
proof fn lemma_coloured_cell_assembly(
    size: int,
    g: Seq<u32>,
    row: u32,
    col: u32,
    q0: Seq<(u32, u32)>,
    s0: Seq<bool>,
    q1: Seq<(u32, u32)>,
    s1: Seq<bool>,
    q2: Seq<(u32, u32)>,
    s2: Seq<bool>,
    q3: Seq<(u32, u32)>,
    s3: Seq<bool>,
    q4: Seq<(u32, u32)>,
    s4: Seq<bool>,
)
    requires
        0 < size <= 65535,
        0 <= row < size,
        0 <= col < size,
        g.len() == size * size,
        s0.len() == size * size,
        push_step(size, g, q0, s0, q1, s1, row as int - 1, col as int),
        push_step(size, g, q1, s1, q2, s2, row as int + 1, col as int),
        push_step(size, g, q2, s2, q3, s3, row as int, col as int - 1),
        push_step(size, g, q3, s3, q4, s4, row as int, col as int + 1),
    ensures
        coloured_cell_step(g, size, row as int, col as int, q0, s0, q4, s4),
{
    lemma_push_step_facts(size, g, q0, s0, q1, s1, row as int - 1, col as int, row as int, col as int);
    lemma_push_step_facts(size, g, q1, s1, q2, s2, row as int + 1, col as int, row as int, col as int);
    lemma_push_step_facts(size, g, q2, s2, q3, s3, row as int, col as int - 1, row as int, col as int);
    lemma_push_step_facts(size, g, q3, s3, q4, s4, row as int, col as int + 1, row as int, col as int);
assert forall|k: int|
    q0.len() <= k < q4.len() implies in_bounds(
    size,
    (#[trigger] q4[k]).0 as int,
    q4[k].1 as int,
) && step_adjacent((q4[k].0 as int, q4[k].1 as int), (row as int, col as int))
    && g[cell_idx(size, q4[k].0 as int, q4[k].1 as int)] == 0 && !s0[cell_idx(
    size,
    q4[k].0 as int,
    q4[k].1 as int,
)] && s4[cell_idx(size, q4[k].0 as int, q4[k].1 as int)] by {
    if k < q1.len() {
        assert(q2[k] == q1[k]);
        assert(q3[k] == q2[k]);
        assert(q4[k] == q3[k]);
        let e = q4[k];
        assert(in_bounds(size, e.0 as int, e.1 as int));
        lemma_cell_idx_bounds(size, e.0 as int, e.1 as int);
        assert(s1[cell_idx(size, e.0 as int, e.1 as int)]);
        assert(s2[cell_idx(size, e.0 as int, e.1 as int)]);
        assert(s3[cell_idx(size, e.0 as int, e.1 as int)]);
        assert(s4[cell_idx(size, e.0 as int, e.1 as int)]);
    } else if k < q2.len() {
        assert(q3[k] == q2[k]);
        assert(q4[k] == q3[k]);
        let e = q4[k];
        assert(in_bounds(size, e.0 as int, e.1 as int));
        lemma_cell_idx_bounds(size, e.0 as int, e.1 as int);
        assert(!s1[cell_idx(size, e.0 as int, e.1 as int)]);
        assert(!s0[cell_idx(size, e.0 as int, e.1 as int)]);
        assert(s2[cell_idx(size, e.0 as int, e.1 as int)]);
        assert(s4[cell_idx(size, e.0 as int, e.1 as int)]);
    } else if k < q3.len() {
        assert(q4[k] == q3[k]);
        let e = q4[k];
        assert(in_bounds(size, e.0 as int, e.1 as int));
        lemma_cell_idx_bounds(size, e.0 as int, e.1 as int);
        assert(!s2[cell_idx(size, e.0 as int, e.1 as int)]);
        assert(!s0[cell_idx(size, e.0 as int, e.1 as int)]);
        assert(s3[cell_idx(size, e.0 as int, e.1 as int)]);
        assert(s4[cell_idx(size, e.0 as int, e.1 as int)]);
    } else {
        let e = q4[k];
        assert(in_bounds(size, e.0 as int, e.1 as int));
        lemma_cell_idx_bounds(size, e.0 as int, e.1 as int);
        assert(!s3[cell_idx(size, e.0 as int, e.1 as int)]);
        assert(!s0[cell_idx(size, e.0 as int, e.1 as int)]);
        assert(s4[cell_idx(size, e.0 as int, e.1 as int)]);
    }
}
assert forall|k1: int, k2: int|
    q0.len() <= k1 < k2 < q4.len() implies (#[trigger] q4[k1]) != (#[trigger] q4[k2]) by {
    let i1 = cell_idx(size, q4[k1].0 as int, q4[k1].1 as int);
    let i2 = cell_idx(size, q4[k2].0 as int, q4[k2].1 as int);
    if q4[k1] == q4[k2] {
        assert(i1 == i2);
        // the earlier entry is seen from its own stage on, while the
        // later one was unseen when it was pushed
        if k1 < q1.len() {
            assert(s1[i1]);
        } else if k1 < q2.len() {
            assert(s2[i1]);
        } else {
            assert(k1 < q3.len());
            assert(s3[i1]);
        }
        if k2 < q2.len() {
            assert(k2 >= q1.len());
            assert(!s1[i2]);
        } else if k2 < q3.len() {
            assert(!s2[i2]);
        } else {
            assert(!s3[i2]);
        }
    }
}
assert forall|i: int| 0 <= i < s0.len() && s4[i] && !s0[i] implies exists|k: int|
    q0.len() <= k < q4.len() && cell_idx(
        size,
        (#[trigger] q4[k]).0 as int,
        q4[k].1 as int,
    ) == i by {
    if s1[i] && !s0[i] {
        let k = q0.len() as int;
        assert(q4[k] == q1[k]);
        assert(cell_idx(size, q4[k].0 as int, q4[k].1 as int) == i);
    } else if s2[i] && !s1[i] {
        let k = q1.len() as int;
        assert(q4[k] == q2[k]);
        assert(cell_idx(size, q4[k].0 as int, q4[k].1 as int) == i);
    } else if s3[i] && !s2[i] {
        let k = q2.len() as int;
        assert(q4[k] == q3[k]);
        assert(cell_idx(size, q4[k].0 as int, q4[k].1 as int) == i);
    } else {
        assert(s4[i] && !s3[i]);
        let k = q3.len() as int;
        assert(cell_idx(size, q4[k].0 as int, q4[k].1 as int) == i);
    }
}
assert forall|nr: int, nc: int|
    in_bounds(size, nr, nc) && step_adjacent((nr, nc), (row as int, col as int))
        && g[#[trigger] cell_idx(size, nr, nc)] == 0 implies s4[cell_idx(size, nr, nc)] by {
    lemma_cell_idx_bounds(size, nr, nc);
    if nr == row - 1 && nc == col {
        assert(s1[cell_idx(size, nr, nc)]);
    } else if nr == row + 1 && nc == col {
        assert(s2[cell_idx(size, nr, nc)]);
    } else if nr == row && nc == col - 1 {
        assert(s3[cell_idx(size, nr, nc)]);
    } else {
        assert(nr == row && nc == col + 1);
        assert(s4[cell_idx(size, nr, nc)]);
    }
}
}

#[verifier::rlimit(100)]
/// Queue every uncoloured, not yet seen orthogonal neighbour of `(row, col)`
/// for later colouring, marking each as seen.
pub fn colour_cell(
    colour_grid: &Vec<u32>,
    queue: &mut Vec<(u32, u32)>,
    seen: &mut Vec<bool>,
    row: u32,
    col: u32,
    size: u32,
)
    requires
        size_ok(size),
        colour_grid@.len() == size * size,
        old(seen)@.len() == size * size,
        row < size,
        col < size,
    ensures
        coloured_cell_step(
            colour_grid@,
            size as int,
            row as int,
            col as int,
            old(queue)@,
            old(seen)@,
            final(queue)@,
            final(seen)@,
        ),
{
    proof {
        lemma_size_ok_bound(size);
    }
    let ghost sz = size as int;
    let ghost q0 = queue@;
    let ghost s0 = seen@;
    if row > 0 {
        proof {
            lemma_cell_idx_bounds(sz, row as int - 1, col as int);
        }
        if colour_grid[((row - 1) * size + col) as usize] == 0 {
            push_if_not_seen(queue, seen, row - 1, col, size);
        }
    }
    let ghost q1 = queue@;
    let ghost s1 = seen@;
    if row + 1 < size {
        proof {
            lemma_cell_idx_bounds(sz, row as int + 1, col as int);
        }
        if colour_grid[((row + 1) * size + col) as usize] == 0 {
            push_if_not_seen(queue, seen, row + 1, col, size);
        }
    }
    let ghost q2 = queue@;
    let ghost s2 = seen@;
    if col > 0 {
        proof {
            lemma_cell_idx_bounds(sz, row as int, col as int - 1);
        }
        if colour_grid[(row * size + (col - 1)) as usize] == 0 {
            push_if_not_seen(queue, seen, row, col - 1, size);
        }
    }
    let ghost q3 = queue@;
    let ghost s3 = seen@;
    if col + 1 < size {
        proof {
            lemma_cell_idx_bounds(sz, row as int, col as int + 1);
        }
        if colour_grid[(row * size + (col + 1)) as usize] == 0 {
            push_if_not_seen(queue, seen, row, col + 1, size);
        }
    }
    let ghost q4 = queue@;
    let ghost s4 = seen@;
    proof {
        let g = colour_grid@;
        assert(push_step(sz, g, q0, s0, q1, s1, row as int - 1, col as int));
        assert(push_step(sz, g, q1, s1, q2, s2, row as int + 1, col as int));
        assert(push_step(sz, g, q2, s2, q3, s3, row as int, col as int - 1));
        assert(push_step(sz, g, q3, s3, q4, s4, row as int, col as int + 1));
        lemma_coloured_cell_assembly(
            sz,
            g,
            row,
            col,
            q0,
            s0,
            q1,
            s1,
            q2,
            s2,
            q3,
            s3,
            q4,
            s4,
        );
    }
}

/// The state the growth loop maintains: queued cells are distinct,
/// uncoloured, already seen, and touch a coloured cell; seen cells are
/// coloured or queued.
pub open spec fn frontier_state_ok(
    cg: Seq<u32>,
    size: int,
    queue: Seq<(u32, u32)>,
    seen: Seq<bool>,
) -> bool {
    &&& seen.len() == size * size
    &&& forall|k: int|
        0 <= k < queue.len() ==> in_bounds(
            size,
            (#[trigger] queue[k]).0 as int,
            queue[k].1 as int,
        ) && cg[cell_idx(size, queue[k].0 as int, queue[k].1 as int)] == 0 && seen[cell_idx(
            size,
            queue[k].0 as int,
            queue[k].1 as int,
        )] && has_coloured_neighbour(cg, size, queue[k].0 as int, queue[k].1 as int)
    &&& forall|k1: int, k2: int|
        0 <= k1 < k2 < queue.len() ==> (#[trigger] queue[k1]) != (#[trigger] queue[k2])
    &&& forall|i: int|
        0 <= i < seen.len() && #[trigger] seen[i] ==> cg[i] != 0 || exists|k: int|
            0 <= k < queue.len() && cell_idx(size, (#[trigger] queue[k]).0 as int, queue[k].1 as int)
                == i
}

/// Every uncoloured cell that touches a coloured one has been seen.
pub open spec fn frontier_complete(cg: Seq<u32>, size: int, seen: Seq<bool>) -> bool {
    forall|r: int, c: int|
        in_bounds(size, r, c) && cg[#[trigger] cell_idx(size, r, c)] == 0
            && has_coloured_neighbour(cg, size, r, c) ==> seen[cell_idx(size, r, c)]
}

/// Everything `colour_cell` guarantees, bundled: old entries stay, new
/// entries are distinct, previously unseen, uncoloured neighbours of
/// `(row, col)`, the mask only grows onto newly queued cells, and every
/// uncoloured neighbour of `(row, col)` ends up seen.
pub open spec fn coloured_cell_step(
    g: Seq<u32>,
    size: int,
    row: int,
    col: int,
    q0: Seq<(u32, u32)>,
    s0: Seq<bool>,
    q1: Seq<(u32, u32)>,
    s1: Seq<bool>,
) -> bool {
    &&& s1.len() == s0.len()
    &&& q1.len() >= q0.len()
    &&& forall|k: int| 0 <= k < q0.len() ==> q1[k] == q0[k]
    &&& forall|k: int|
        q0.len() <= k < q1.len() ==> in_bounds(size, (#[trigger] q1[k]).0 as int, q1[k].1 as int)
            && step_adjacent((q1[k].0 as int, q1[k].1 as int), (row, col)) && g[cell_idx(
            size,
            q1[k].0 as int,
            q1[k].1 as int,
        )] == 0 && !s0[cell_idx(size, q1[k].0 as int, q1[k].1 as int)] && s1[cell_idx(
            size,
            q1[k].0 as int,
            q1[k].1 as int,
        )]
    &&& forall|k1: int, k2: int|
        q0.len() <= k1 < k2 < q1.len() ==> (#[trigger] q1[k1]) != (#[trigger] q1[k2])
    &&& forall|i: int| 0 <= i < s0.len() && s0[i] ==> s1[i]
    &&& forall|i: int|
        0 <= i < s0.len() && s1[i] && !s0[i] ==> exists|k: int|
            q0.len() <= k < q1.len() && cell_idx(size, (#[trigger] q1[k]).0 as int, q1[k].1 as int)
                == i
    &&& forall|nr: int, nc: int|
        in_bounds(size, nr, nc) && step_adjacent((nr, nc), (row, col)) && g[#[trigger] cell_idx(
            size,
            nr,
            nc,
        )] == 0 ==> s1[cell_idx(size, nr, nc)]
}

/// Colouring an uncoloured cell with the colour of one of its coloured
/// neighbours preserves region well-formedness and every already-coloured
/// cell.
#[verifier::rlimit(100)]
#[verifier::spinoff_prover]
proof fn lemma_wf_after_colouring(
    cg_a: Seq<u32>,
    q: Seq<u32>,
    size: int,
    row: int,
    col: int,
    colour: u32,
    vr: int,
    vc: int,
)
    requires
        0 < size <= 65535,
        regions_wf(cg_a, q, size),
        in_bounds(size, row, col),
        cg_a[cell_idx(size, row, col)] == 0,
        in_bounds(size, vr, vc),
        step_adjacent((vr, vc), (row, col)),
        cg_a[cell_idx(size, vr, vc)] == colour,
        colour != 0,
    ensures
        regions_wf(cg_a.update(cell_idx(size, row, col), colour), q, size),
        forall|i: int|
            0 <= i < cg_a.len() && cg_a[i] != 0 ==> cg_a.update(cell_idx(size, row, col), colour)[i]
                == cg_a[i],
{
    let ci = cell_idx(size, row, col);
    let cg_new = cg_a.update(ci, colour);
    lemma_cell_idx_bounds(size, row, col);
    lemma_cell_idx_bounds(size, vr, vc);
    assert(1 <= colour <= size);
    assert forall|r2: int, c2: int|
        in_bounds(size, r2, c2) && !(r2 == row && c2 == col) implies cg_new[#[trigger] cell_idx(
        size,
        r2,
        c2,
    )] == cg_a[cell_idx(size, r2, c2)] by {
        lemma_cell_idx_bounds(size, r2, c2);
        lemma_cell_idx_distinct(size, r2, c2, row, col);
    }
    assert(markers_coloured(cg_new, q, size)) by {
        assert forall|r2: int, c2: int|
            in_bounds(size, r2, c2) && #[trigger] is_queen(q, size, r2, c2) implies cg_new[cell_idx(
            size,
            r2,
            c2,
        )] == (r2 + 1) as u32 by {
            assert(cg_a[cell_idx(size, r2, c2)] == (r2 + 1) as u32);
            if r2 == row && c2 == col {
                assert(cg_a[ci] == 0);
            }
        }
    }
    assert forall|r2: int, c2: int|
        in_bounds(size, r2, c2) && cg_new[#[trigger] cell_idx(size, r2, c2)] != 0 implies 1
        <= cg_new[cell_idx(size, r2, c2)] && reaches(
        cg_new,
        size,
        marker_row(cg_new[cell_idx(size, r2, c2)]),
        marker_col(q, size, cg_new[cell_idx(size, r2, c2)]),
        r2,
        c2,
        cg_new[cell_idx(size, r2, c2)],
    ) by {
        if r2 == row && c2 == col {
            assert(reaches(cg_a, size, marker_row(colour), marker_col(q, size, colour), vr, vc, colour));
            assert forall|ar: int, ac: int|
                in_bounds(size, ar, ac) && cg_a[cell_idx(size, ar, ac)] == colour
                    implies cg_new[#[trigger] cell_idx(size, ar, ac)] == colour by {
                lemma_cell_idx_distinct(size, ar, ac, row, col);
            }
            lemma_reaches_mono(cg_a, cg_new, size, marker_row(colour), marker_col(q, size, colour), vr, vc, colour);
            lemma_reaches_step(
                cg_new,
                size,
                marker_row(colour),
                marker_col(q, size, colour),
                vr,
                vc,
                row,
                col,
                colour,
            );
        } else {
            let cl = cg_new[cell_idx(size, r2, c2)];
            assert(cg_a[cell_idx(size, r2, c2)] == cl);
            assert(reaches(cg_a, size, marker_row(cl), marker_col(q, size, cl), r2, c2, cl));
            assert forall|ar: int, ac: int|
                in_bounds(size, ar, ac) && cg_a[cell_idx(size, ar, ac)] == cl
                    implies cg_new[#[trigger] cell_idx(size, ar, ac)] == cl by {
                lemma_cell_idx_distinct(size, ar, ac, row, col);
            }
            lemma_reaches_mono(cg_a, cg_new, size, marker_row(cl), marker_col(q, size, cl), r2, c2, cl);
        }
    }
    assert(colours_in_range(cg_new, size));
}

/// Popping a frontier cell, queueing its uncoloured neighbours and colouring
/// it keeps the frontier state well formed.
#[verifier::rlimit(100)]
proof fn lemma_frontier_state_after_colouring(
    cg_a: Seq<u32>,
    size: int,
    queue_a: Seq<(u32, u32)>,
    seen_a: Seq<bool>,
    qi: int,
    queue_b: Seq<(u32, u32)>,
    queue_c: Seq<(u32, u32)>,
    seen_c: Seq<bool>,
    row: u32,
    col: u32,
    colour: u32,
)
    requires
        0 < size <= 65535,
        cg_a.len() == size * size,
        frontier_state_ok(cg_a, size, queue_a, seen_a),
        0 <= qi < queue_a.len(),
        queue_a[qi] == (row, col),
        queue_b == queue_a.update(qi, queue_a.last()).drop_last(),
        coloured_cell_step(cg_a, size, row as int, col as int, queue_b, seen_a, queue_c, seen_c),
        colour != 0,
    ensures
        frontier_state_ok(
            cg_a.update(cell_idx(size, row as int, col as int), colour),
            size,
            queue_c,
            seen_c,
        ),
{
    let ci = cell_idx(size, row as int, col as int);
    let cg_new = cg_a.update(ci, colour);
    assert(in_bounds(size, row as int, col as int));
    lemma_cell_idx_bounds(size, row as int, col as int);
    assert forall|k: int|
        0 <= k < queue_b.len() implies (exists|k2: int|
        0 <= k2 < queue_a.len() && k2 != qi && queue_a[k2] == #[trigger] queue_b[k]) by {
        if k == qi && qi < queue_a.len() - 1 {
            assert(queue_a[queue_a.len() - 1] == queue_b[k]);
        } else {
            assert(queue_a[k] == queue_b[k]);
        }
    }
    assert forall|k: int|
        0 <= k < queue_c.len() implies in_bounds(
        size,
        (#[trigger] queue_c[k]).0 as int,
        queue_c[k].1 as int,
    ) && cg_new[cell_idx(size, queue_c[k].0 as int, queue_c[k].1 as int)] == 0 && seen_c[cell_idx(
        size,
        queue_c[k].0 as int,
        queue_c[k].1 as int,
    )] && has_coloured_neighbour(cg_new, size, queue_c[k].0 as int, queue_c[k].1 as int) by {
        let e = queue_c[k];
        if k < queue_b.len() {
            assert(queue_b[k] == e);
            let k2 = choose|k2: int|
                0 <= k2 < queue_a.len() && k2 != qi && queue_a[k2] == queue_b[k];
            assert(queue_a[k2] == e);
            assert(in_bounds(size, e.0 as int, e.1 as int));
            assert(cg_a[cell_idx(size, e.0 as int, e.1 as int)] == 0);
            assert(seen_a[cell_idx(size, e.0 as int, e.1 as int)]);
            lemma_cell_idx_bounds(size, e.0 as int, e.1 as int);
            assert(has_coloured_neighbour(cg_a, size, e.0 as int, e.1 as int));
            assert(e != (row, col)) by {
                if k2 < qi {
                    assert(queue_a[k2] != queue_a[qi]);
                } else {
                    assert(queue_a[qi] != queue_a[k2]);
                }
            }
            lemma_cell_idx_distinct(size, e.0 as int, e.1 as int, row as int, col as int);
            assert(cg_new[cell_idx(size, e.0 as int, e.1 as int)] == 0);
            assert(seen_c[cell_idx(size, e.0 as int, e.1 as int)]);
            let (vr2, vc2) = choose|vr2: int, vc2: int|
                in_bounds(size, vr2, vc2) && step_adjacent((vr2, vc2), (e.0 as int, e.1 as int))
                    && cg_a[#[trigger] cell_idx(size, vr2, vc2)] != 0;
            assert(cg_new[cell_idx(size, vr2, vc2)] != 0) by {
                lemma_cell_idx_bounds(size, vr2, vc2);
                if !(vr2 == row as int && vc2 == col as int) {
                    lemma_cell_idx_distinct(size, vr2, vc2, row as int, col as int);
                    assert(cg_new[cell_idx(size, vr2, vc2)] == cg_a[cell_idx(size, vr2, vc2)]);
                } else {
                    assert(cg_new[ci] == colour);
                }
            }
            assert(has_coloured_neighbour(cg_new, size, e.0 as int, e.1 as int));
        } else {
            assert(step_adjacent((e.0 as int, e.1 as int), (row as int, col as int)));
            lemma_cell_idx_bounds(size, e.0 as int, e.1 as int);
            assert(e.0 as int != row as int || e.1 as int != col as int);
            lemma_cell_idx_distinct(size, e.0 as int, e.1 as int, row as int, col as int);
            assert(cg_new[cell_idx(size, e.0 as int, e.1 as int)] == 0);
            assert(cg_new[ci] == colour && colour != 0);
            assert(has_coloured_neighbour(cg_new, size, e.0 as int, e.1 as int)) by {
                assert(in_bounds(size, row as int, col as int) && step_adjacent(
                    (row as int, col as int),
                    (e.0 as int, e.1 as int),
                ) && cg_new[cell_idx(size, row as int, col as int)] != 0);
            }
        }
    }
    assert forall|k1: int, k2: int|
        0 <= k1 < k2 < queue_c.len() implies (#[trigger] queue_c[k1]) != (#[trigger] queue_c[k2]) by {
        if k2 < queue_b.len() {
            assert(queue_b[k1] != queue_b[k2]) by {
                if k1 != qi && k2 != qi {
                    assert(queue_b[k1] == queue_a[k1] && queue_b[k2] == queue_a[k2]);
                } else if k1 == qi {
                    assert(queue_b[k2] == queue_a[k2]);
                    if qi < queue_a.len() - 1 {
                        assert(queue_b[k1] == queue_a[queue_a.len() - 1]);
                        assert(k2 < queue_a.len() - 1);
                    }
                } else {
                    assert(queue_b[k1] == queue_a[k1]);
                    if qi < queue_a.len() - 1 {
                        assert(queue_b[k2] == queue_a[queue_a.len() - 1]);
                        assert(k1 < queue_a.len() - 1);
                    }
                }
            }
        } else if k1 < queue_b.len() {
            let e1 = queue_c[k1];
            assert(seen_a[cell_idx(size, e1.0 as int, e1.1 as int)]);
            if queue_c[k1] == queue_c[k2] {
                assert(!seen_a[cell_idx(size, e1.0 as int, e1.1 as int)]);
            }
        }
    }
    assert forall|i: int|
        0 <= i < seen_c.len() && #[trigger] seen_c[i] implies cg_new[i] != 0 || exists|k: int|
        0 <= k < queue_c.len() && cell_idx(size, (#[trigger] queue_c[k]).0 as int, queue_c[k].1 as int)
            == i by {
        if seen_a[i] {
            if cg_a[i] != 0 {
                assert(cg_new[i] != 0);
            } else if i == ci {
                assert(cg_new[i] != 0);
            } else {
                let k = choose|k: int|
                    0 <= k < queue_a.len() && cell_idx(
                        size,
                        (#[trigger] queue_a[k]).0 as int,
                        queue_a[k].1 as int,
                    ) == i;
                if k == qi {
                    assert(cell_idx(size, row as int, col as int) == i);
                    assert(false);
                } else {
                    let k2 = if k == queue_a.len() - 1 {
                        qi as int
                    } else {
                        k
                    };
                    assert(queue_b[k2] == queue_a[k]);
                    assert(queue_c[k2] == queue_b[k2]);
                }
            }
        } else {
            let k = choose|k: int|
                queue_b.len() <= k < queue_c.len() && cell_idx(
                    size,
                    (#[trigger] queue_c[k]).0 as int,
                    queue_c[k].1 as int,
                ) == i;
            assert(0 <= k < queue_c.len());
        }
    }
}

/// Colouring the popped cell keeps the frontier completely seen.
proof fn lemma_frontier_complete_after_colouring(
    cg_a: Seq<u32>,
    size: int,
    seen_a: Seq<bool>,
    seen_c: Seq<bool>,
    row: int,
    col: int,
    colour: u32,
)
    requires
        0 < size <= 65535,
        cg_a.len() == size * size,
        seen_a.len() == size * size,
        seen_c.len() == size * size,
        frontier_complete(cg_a, size, seen_a),
        in_bounds(size, row, col),
        cg_a[cell_idx(size, row, col)] == 0,
        colour != 0,
        forall|i: int| 0 <= i < seen_a.len() && seen_a[i] ==> seen_c[i],
        forall|nr: int, nc: int|
            in_bounds(size, nr, nc) && step_adjacent((nr, nc), (row, col)) && cg_a[#[trigger] cell_idx(
                size,
                nr,
                nc,
            )] == 0 ==> seen_c[cell_idx(size, nr, nc)],
    ensures
        frontier_complete(cg_a.update(cell_idx(size, row, col), colour), size, seen_c),
{
    let ci = cell_idx(size, row, col);
    let cg_new = cg_a.update(ci, colour);
    lemma_cell_idx_bounds(size, row, col);
    assert forall|r2: int, c2: int|
        in_bounds(size, r2, c2) && cg_new[#[trigger] cell_idx(size, r2, c2)] == 0
            && has_coloured_neighbour(cg_new, size, r2, c2) implies seen_c[cell_idx(
        size,
        r2,
        c2,
    )] by {
        lemma_cell_idx_bounds(size, r2, c2);
        lemma_cell_idx_distinct(size, r2, c2, row, col);
        assert(cg_a[cell_idx(size, r2, c2)] == 0);
        let (vr2, vc2) = choose|vr2: int, vc2: int|
            in_bounds(size, vr2, vc2) && step_adjacent((vr2, vc2), (r2, c2))
                && cg_new[#[trigger] cell_idx(size, vr2, vc2)] != 0;
        if cg_a[cell_idx(size, vr2, vc2)] != 0 {
            assert(has_coloured_neighbour(cg_a, size, r2, c2));
            assert(seen_a[cell_idx(size, r2, c2)]);
        } else {
            lemma_cell_idx_bounds(size, vr2, vc2);
            assert(cell_idx(size, vr2, vc2) == ci);
            lemma_cell_idx_injective(size, vr2, vc2, row, col);
            assert(step_adjacent((r2, c2), (row, col)));
        }
    }
}

/// A guarded push of a fresh frontier cell keeps the frontier state well
/// formed.
proof fn lemma_frontier_state_after_push(
    cg: Seq<u32>,
    size: int,
    qs: Seq<(u32, u32)>,
    ss: Seq<bool>,
    q1: Seq<(u32, u32)>,
    s1: Seq<bool>,
    row: u32,
    col: u32,
)
    requires
        0 < size <= 65535,
        cg.len() == size * size,
        frontier_state_ok(cg, size, qs, ss),
        in_bounds(size, row as int, col as int),
        cg[cell_idx(size, row as int, col as int)] == 0,
        has_coloured_neighbour(cg, size, row as int, col as int),
        ss[cell_idx(size, row as int, col as int)] ==> q1 == qs && s1 == ss,
        !ss[cell_idx(size, row as int, col as int)] ==> q1 == qs.push((row, col)) && s1
            == ss.update(cell_idx(size, row as int, col as int), true),
    ensures
        frontier_state_ok(cg, size, q1, s1),
        s1[cell_idx(size, row as int, col as int)],
        forall|i: int| 0 <= i < ss.len() && ss[i] ==> s1[i],
{
    let ci = cell_idx(size, row as int, col as int);
    lemma_cell_idx_bounds(size, row as int, col as int);
    if !ss[ci] {
        assert(q1[qs.len() as int] == (row, col));
        assert forall|k: int|
            0 <= k < q1.len() implies in_bounds(
            size,
            (#[trigger] q1[k]).0 as int,
            q1[k].1 as int,
        ) && cg[cell_idx(size, q1[k].0 as int, q1[k].1 as int)] == 0 && s1[cell_idx(
            size,
            q1[k].0 as int,
            q1[k].1 as int,
        )] && has_coloured_neighbour(cg, size, q1[k].0 as int, q1[k].1 as int) by {
            if k < qs.len() {
                assert(q1[k] == qs[k]);
                lemma_cell_idx_bounds(size, qs[k].0 as int, qs[k].1 as int);
            } else {
                assert(q1[k] == (row, col));
            }
        }
        assert forall|k1: int, k2: int|
            0 <= k1 < k2 < q1.len() implies (#[trigger] q1[k1]) != (#[trigger] q1[k2]) by {
            if k2 == qs.len() {
                let e1 = q1[k1];
                assert(ss[cell_idx(size, e1.0 as int, e1.1 as int)]);
                if q1[k1] == q1[k2] {
                    assert(ss[ci]);
                }
            } else {
                assert(q1[k1] == qs[k1] && q1[k2] == qs[k2]);
            }
        }
        assert forall|i: int|
            0 <= i < s1.len() && #[trigger] s1[i] implies cg[i] != 0 || exists|k: int|
            0 <= k < q1.len() && cell_idx(size, (#[trigger] q1[k]).0 as int, q1[k].1 as int)
                == i by {
            if i == ci {
                assert(cell_idx(size, q1[qs.len() as int].0 as int, q1[qs.len() as int].1 as int)
                    == i);
            } else {
                assert(ss[i]);
                if cg[i] == 0 {
                    let k = choose|k: int|
                        0 <= k < qs.len() && cell_idx(
                            size,
                            (#[trigger] qs[k]).0 as int,
                            qs[k].1 as int,
                        ) == i;
                    assert(q1[k] == qs[k]);
                }
            }
        }
    }
}

/// One full growth step: popping a frontier cell at random, queueing its
/// uncoloured neighbours and painting it with a random neighbouring colour
/// preserves every growth invariant and colours one more cell.
proof fn lemma_grow_step(
    cg_a: Seq<u32>,
    q: Seq<u32>,
    size: int,
    queue_a: Seq<(u32, u32)>,
    seen_a: Seq<bool>,
    qi: int,
    queue_b: Seq<(u32, u32)>,
    queue_c: Seq<(u32, u32)>,
    seen_c: Seq<bool>,
    row: u32,
    col: u32,
    colour: u32,
    pick: int,
)
    requires
        0 < size <= 65535,
        regions_wf(cg_a, q, size),
        frontier_state_ok(cg_a, size, queue_a, seen_a),
        frontier_complete(cg_a, size, seen_a),
        0 <= qi < queue_a.len(),
        queue_a[qi] == (row, col),
        queue_b == queue_a.update(qi, queue_a.last()).drop_last(),
        coloured_cell_step(cg_a, size, row as int, col as int, queue_b, seen_a, queue_c, seen_c),
        0 <= pick < neighbour_colours(cg_a, size, row as int, col as int).len(),
        colour == neighbour_colours(cg_a, size, row as int, col as int)[pick],
    ensures
        colour != 0,
        regions_wf(cg_a.update(cell_idx(size, row as int, col as int), colour), q, size),
        frontier_state_ok(
            cg_a.update(cell_idx(size, row as int, col as int), colour),
            size,
            queue_c,
            seen_c,
        ),
        frontier_complete(cg_a.update(cell_idx(size, row as int, col as int), colour), size, seen_c),
        count_zeros(cg_a.update(cell_idx(size, row as int, col as int), colour)) < count_zeros(cg_a),
        forall|i: int|
            0 <= i < cg_a.len() && cg_a[i] != 0 ==> cg_a.update(
                cell_idx(size, row as int, col as int),
                colour,
            )[i] == cg_a[i],
{
    let ci = cell_idx(size, row as int, col as int);
    assert(in_bounds(size, row as int, col as int));
    lemma_cell_idx_bounds(size, row as int, col as int);
    lemma_neighbour_colours_sound(cg_a, size, row as int, col as int);
    let (vr, vc) = choose|vr: int, vc: int|
        in_bounds(size, vr, vc) && step_adjacent((vr, vc), (row as int, col as int))
            && cg_a[#[trigger] cell_idx(size, vr, vc)] == colour && cg_a[cell_idx(
            size,
            vr,
            vc,
        )] != 0;
    lemma_count_zeros_set_nonzero(cg_a, ci, colour);
    lemma_wf_after_colouring(cg_a, q, size, row as int, col as int, colour, vr, vc);
    lemma_frontier_state_after_colouring(
        cg_a,
        size,
        queue_a,
        seen_a,
        qi,
        queue_b,
        queue_c,
        seen_c,
        row,
        col,
        colour,
    );
    lemma_frontier_complete_after_colouring(
        cg_a,
        size,
        seen_a,
        seen_c,
        row as int,
        col as int,
        colour,
    );
}


/// Pop one random frontier cell, queue its uncoloured neighbours and paint
/// it with the colour of a randomly chosen coloured neighbour.
#[verifier::rlimit(100)]
fn grow_one_step(
    colour_grid: &mut Vec<u32>,
    queue: &mut Vec<(u32, u32)>,
    seen: &mut Vec<bool>,
    queens_grid: &Vec<u32>,
    size: u32,
    rng: &mut rand::rngs::StdRng,
)
    requires
        size_ok(size),
        size >= 1,
        valid_placement(queens_grid@, size as int),
        regions_wf(old(colour_grid)@, queens_grid@, size as int),
        frontier_state_ok(old(colour_grid)@, size as int, old(queue)@, old(seen)@),
        frontier_complete(old(colour_grid)@, size as int, old(seen)@),
        old(queue)@.len() > 0,
    ensures
        regions_wf(final(colour_grid)@, queens_grid@, size as int),
        frontier_state_ok(final(colour_grid)@, size as int, final(queue)@, final(seen)@),
        frontier_complete(final(colour_grid)@, size as int, final(seen)@),
        final(seen)@.len() == old(seen)@.len(),
        count_zeros(final(colour_grid)@) < count_zeros(old(colour_grid)@),
        forall|i: int|
            0 <= i < old(colour_grid)@.len() && old(colour_grid)@[i] != 0
                ==> final(colour_grid)@[i] == old(colour_grid)@[i],
{
    proof {
        lemma_size_ok_bound(size);
    }
    let ghost sz = size as int;
    let ghost q = queens_grid@;
    let ghost cg_a = colour_grid@;
    let ghost queue_a = queue@;
    let ghost seen_a = seen@;
    let qi = rand_below(rng, queue.len());
    let (row, col) = queue.swap_remove(qi);
    let ghost queue_b = queue@;
    proof {
        assert(queue_a[qi as int] == (row, col));
    }
    let colours = find_colours(colour_grid, row, col, size);
    proof {
        lemma_neighbour_colours_complete(colour_grid@, sz, row as int, col as int);
    }
    let pick = rand_below(rng, colours.len());
    let colour = colours[pick];
    colour_cell(colour_grid, queue, seen, row, col, size);
    proof {
        lemma_cell_idx_bounds(sz, row as int, col as int);
    }
    let idx = (row * size + col) as usize;
    colour_grid[idx] = colour;
    proof {
        lemma_grow_step(
            cg_a,
            q,
            sz,
            queue_a,
            seen_a,
            qi as int,
            queue_b,
            queue@,
            seen@,
            row,
            col,
            colour,
            pick as int,
        );
        assert(colour_grid@ == cg_a.update(cell_idx(sz, row as int, col as int), colour));
    }
}

/// Extend a well-formed partial colouring until every cell carries a region
/// id, repeatedly picking a random frontier cell and colouring it with the
/// colour of a randomly chosen coloured neighbour.
#[verifier::rlimit(100)]
pub fn regrow_regions(
    colour_grid: &mut Vec<u32>,
    queens_grid: &Vec<u32>,
    size: u32,
    rng: &mut rand::rngs::StdRng,
)
    requires
        size_ok(size),
        size >= 1,
        valid_placement(queens_grid@, size as int),
        regions_wf(old(colour_grid)@, queens_grid@, size as int),
    ensures
        regions_wf(final(colour_grid)@, queens_grid@, size as int),
        fully_coloured(final(colour_grid)@, size as int),
        forall|i: int|
            0 <= i < old(colour_grid)@.len() && old(colour_grid)@[i] != 0
                ==> final(colour_grid)@[i] == old(colour_grid)@[i],
{
    proof {
        lemma_size_ok_bound(size);
    }
    let ghost q = queens_grid@;
    let ghost sz = size as int;
    let ghost cg0 = colour_grid@;
    let n = (size * size) as usize;
    let mut seen: Vec<bool> = Vec::new();
    while seen.len() < n
        invariant
            seen@.len() <= n,
            forall|i: int| 0 <= i < seen@.len() ==> !(#[trigger] seen@[i]),
        decreases n - seen@.len(),
    {
        seen.push(false);
    }
    let mut queue: Vec<(u32, u32)> = Vec::new();
    let mut row: u32 = 0;
    while row < size
        invariant
            size_ok(size),
            size <= 65535,
            sz == size as int,
            row <= size,
            colour_grid@ == cg0,
            colour_grid@.len() == size * size,
            frontier_state_ok(colour_grid@, sz, queue@, seen@),
            seen@.len() == size * size,
            forall|r: int, c: int|
                in_bounds(sz, r, c) && r < row && colour_grid@[#[trigger] cell_idx(sz, r, c)] == 0
                    && has_coloured_neighbour(colour_grid@, sz, r, c) ==> seen@[cell_idx(sz, r, c)],
        decreases size - row,
    {
        let mut col: u32 = 0;
        while col < size
            invariant
                size_ok(size),
                size <= 65535,
                sz == size as int,
                row < size,
                col <= size,
                colour_grid@ == cg0,
                colour_grid@.len() == size * size,
                frontier_state_ok(colour_grid@, sz, queue@, seen@),
                seen@.len() == size * size,
                forall|r: int, c: int|
                    in_bounds(sz, r, c) && (r < row || (r == row && c < col))
                        && colour_grid@[#[trigger] cell_idx(sz, r, c)] == 0
                        && has_coloured_neighbour(colour_grid@, sz, r, c) ==> seen@[cell_idx(
                        sz,
                        r,
                        c,
                    )],
            decreases size - col,
        {
            proof {
                lemma_cell_idx_bounds(sz, row as int, col as int);
            }
            let ghost qs = queue@;
            let ghost ss = seen@;
            if colour_grid[(row * size + col) as usize] == 0 {
                let colours = find_colours(colour_grid, row, col, size);
                if colours.len() > 0 {
                    proof {
                        lemma_neighbour_colours_sound(colour_grid@, sz, row as int, col as int);
                        assert(neighbour_colours(colour_grid@, sz, row as int, col as int)[0]
                            == colours@[0]);
                        assert(has_coloured_neighbour(colour_grid@, sz, row as int, col as int))
                            by {
                            let (vr, vc) = choose|vr: int, vc: int|
                                in_bounds(sz, vr, vc) && step_adjacent(
                                    (vr, vc),
                                    (row as int, col as int),
                                ) && colour_grid@[#[trigger] cell_idx(sz, vr, vc)] == colours@[0]
                                    && colour_grid@[cell_idx(sz, vr, vc)] != 0;
                            assert(in_bounds(sz, vr, vc) && step_adjacent(
                                (vr, vc),
                                (row as int, col as int),
                            ) && colour_grid@[cell_idx(sz, vr, vc)] != 0);
                        }
                    }
                    push_if_not_seen(&mut queue, &mut seen, row, col, size);
                    proof {
                        lemma_frontier_state_after_push(
                            colour_grid@,
                            sz,
                            qs,
                            ss,
                            queue@,
                            seen@,
                            row,
                            col,
                        );
                    }
                } else {
                    proof {
                        if has_coloured_neighbour(colour_grid@, sz, row as int, col as int) {
                            lemma_neighbour_colours_complete(
                                colour_grid@,
                                sz,
                                row as int,
                                col as int,
                            );
                        }
                    }
                }
            }
            proof {
                assert forall|r: int, c: int|
                    in_bounds(sz, r, c) && (r < row || (r == row && c < col + 1))
                        && colour_grid@[#[trigger] cell_idx(sz, r, c)] == 0
                        && has_coloured_neighbour(colour_grid@, sz, r, c) implies seen@[cell_idx(
                    sz,
                    r,
                    c,
                )] by {
                    lemma_cell_idx_bounds(sz, r, c);
                }
            }
            col = col + 1;
        }
        row = row + 1;
    }
    // grow until the frontier is exhausted
    while queue.len() > 0
        invariant
            size_ok(size),
            size >= 1,
            sz == size as int,
            valid_placement(q, sz),
            q == queens_grid@,
            cg0 == old(colour_grid)@,
            cg0.len() == size * size,
            seen@.len() == size * size,
            regions_wf(colour_grid@, q, sz),
            frontier_state_ok(colour_grid@, sz, queue@, seen@),
            frontier_complete(colour_grid@, sz, seen@),
            forall|i: int| 0 <= i < cg0.len() && cg0[i] != 0 ==> colour_grid@[i] == cg0[i],
        decreases count_zeros(colour_grid@),
    {
        let ghost cg_a = colour_grid@;
        grow_one_step(colour_grid, &mut queue, &mut seen, queens_grid, size, rng);
        proof {
            assert forall|i: int|
                0 <= i < cg0.len() && cg0[i] != 0 implies colour_grid@[i] == cg0[i] by {
                assert(cg_a[i] == cg0[i]);
                assert(0 <= i < cg_a.len() && cg_a[i] != 0);
            }
        }
    }
    proof {
        if !fully_coloured(colour_grid@, sz) {
            let (br, bc) = choose|br: int, bc: int|
                in_bounds(sz, br, bc) && colour_grid@[#[trigger] cell_idx(sz, br, bc)] == 0;
            lemma_queen_at(q, sz, 0);
            let qc = queen_at(q, sz, 0);
            assert(colour_grid@[cell_idx(sz, 0, qc)] == 1u32);
            lemma_frontier_exists(colour_grid@, sz, 0, qc, br, bc);
            let (ur, uc) = choose|ur: int, uc: int| is_frontier_cell(colour_grid@, sz, ur, uc);
            assert(seen@[cell_idx(sz, ur, uc)]);
            lemma_cell_idx_bounds(sz, ur, uc);
            assert(false);
        }
    }
}

/// Partition the board into `size` connected regions, one grown from each
/// marker of the placement; the marker of row `r` seeds region `r + 1`.
pub fn grow_regions(queens_grid: &Vec<u32>, size: u32, rng: &mut rand::rngs::StdRng) -> (cg: Vec<
    u32,
>)
    requires
        size_ok(size),
        size >= 1,
        valid_placement(queens_grid@, size as int),
    ensures
        regions_wf(cg@, queens_grid@, size as int),
        fully_coloured(cg@, size as int),
{
    proof {
        lemma_size_ok_bound(size);
    }
    let ghost q = queens_grid@;
    let ghost sz = size as int;
    let n = (size * size) as usize;
    let mut cg: Vec<u32> = Vec::new();
    while cg.len() < n
        invariant
            cg@.len() <= n,
            forall|i: int| 0 <= i < cg@.len() ==> #[trigger] cg@[i] == 0,
        decreases n - cg@.len(),
    {
        cg.push(0);
    }
    proof {
        assert forall|r: int, c: int| in_bounds(sz, r, c) implies cg@[#[trigger] cell_idx(
            sz,
            r,
            c,
        )] == 0 by {
            lemma_cell_idx_bounds(sz, r, c);
        }
    }
    let mut row: u32 = 0;
    while row < size
        invariant
            size_ok(size),
            size <= 65535,
            sz == size as int,
            row <= size,
            q == queens_grid@,
            valid_placement(q, sz),
            cg@.len() == size * size,
            forall|r: int, c: int|
                in_bounds(sz, r, c) && r < row && #[trigger] is_queen(q, sz, r, c) ==> cg@[cell_idx(
                    sz,
                    r,
                    c,
                )] == (r + 1) as u32,
            forall|r: int, c: int|
                in_bounds(sz, r, c) && cg@[#[trigger] cell_idx(sz, r, c)] != 0 ==> r < row
                    && is_queen(q, sz, r, c) && cg@[cell_idx(sz, r, c)] == (r + 1) as u32,
        decreases size - row,
    {
        let mut col: u32 = 0;
        while col < size
            invariant
                size_ok(size),
                size <= 65535,
                sz == size as int,
                row < size,
                col <= size,
                q == queens_grid@,
                valid_placement(q, sz),
                cg@.len() == size * size,
                forall|r: int, c: int|
                    in_bounds(sz, r, c) && (r < row || (r == row && c < col)) && #[trigger] is_queen(
                        q,
                        sz,
                        r,
                        c,
                    ) ==> cg@[cell_idx(sz, r, c)] == (r + 1) as u32,
                forall|r: int, c: int|
                    in_bounds(sz, r, c) && cg@[#[trigger] cell_idx(sz, r, c)] != 0 ==> (r < row || (
                    r == row && c < col)) && is_queen(q, sz, r, c) && cg@[cell_idx(sz, r, c)] == (r
                        + 1) as u32,
            decreases size - col,
        {
            proof {
                lemma_cell_idx_bounds(sz, row as int, col as int);
            }
            let idx = (row * size + col) as usize;
            let ghost cg_pre = cg@;
            if queens_grid[idx] == 1 {
                cg[idx] = row + 1;
                proof {
                    assert(is_queen(q, sz, row as int, col as int));
                    assert(cg@ == cg_pre.update(cell_idx(sz, row as int, col as int), (row
                        + 1) as u32));
                    assert forall|r: int, c: int|
                        in_bounds(sz, r, c) && !(r == row && c == col) implies cg@[#[trigger] cell_idx(
                        sz,
                        r,
                        c,
                    )] == cg_pre[cell_idx(sz, r, c)] by {
                        lemma_cell_idx_bounds(sz, r, c);
                        lemma_cell_idx_distinct(sz, r, c, row as int, col as int);
                    }
                }
            } else {
                proof {
                    assert(!is_queen(q, sz, row as int, col as int)) by {
                        assert(q[cell_idx(sz, row as int, col as int)] == 0 || q[cell_idx(
                            sz,
                            row as int,
                            col as int,
                        )] == 1);
                    }
                }
            }
            col = col + 1;
        }
        row = row + 1;
    }
    proof {
        assert(regions_wf(cg@, q, sz)) by {
            assert forall|r: int, c: int|
                in_bounds(sz, r, c) && cg@[#[trigger] cell_idx(sz, r, c)] != 0 implies 1 <= cg@[cell_idx(
                sz,
                r,
                c,
            )] && reaches(
                cg@,
                sz,
                marker_row(cg@[cell_idx(sz, r, c)]),
                marker_col(q, sz, cg@[cell_idx(sz, r, c)]),
                r,
                c,
                cg@[cell_idx(sz, r, c)],
            ) by {
                assert(is_queen(q, sz, r, c));
                assert(cg@[cell_idx(sz, r, c)] == (r + 1) as u32);
                lemma_queen_at(q, sz, r);
                assert(queen_at(q, sz, r) == c);
                lemma_reaches_self(cg@, sz, r, c, (r + 1) as u32);
            }
            assert(colours_in_range(cg@, sz)) by {
                assert forall|i: int| 0 <= i < cg@.len() implies #[trigger] cg@[i] <= size by {
                    if cg@[i] != 0 {
                        lemma_cell_idx_surjective(sz, i);
                        let (r, c) = choose|r: int, c: int|
                            in_bounds(sz, r, c) && #[trigger] cell_idx(sz, r, c) == i;
                        assert(cg@[cell_idx(sz, r, c)] != 0);
                    }
                }
            }
        }
    }
    regrow_regions(&mut cg, queens_grid, size, rng);
    cg
}

/// Each region of a grid whose markers keep their own colours contains
/// exactly one marker: the one that seeded it.
pub proof fn lemma_region_unique_marker(cg: Seq<u32>, q: Seq<u32>, size: int, k: u32)
    requires
        0 < size <= 65535,
        valid_placement(q, size),
        markers_coloured(cg, q, size),
        1 <= k <= size,
    ensures
        in_bounds(size, k - 1, queen_at(q, size, k - 1)),
        is_queen(q, size, k - 1, queen_at(q, size, k - 1)),
        cg[cell_idx(size, k - 1, queen_at(q, size, k - 1))] == k,
        forall|r: int, c: int|
            in_bounds(size, r, c) && #[trigger] is_queen(q, size, r, c) && cg[cell_idx(
                size,
                r,
                c,
            )] == k ==> r == k - 1 && c == queen_at(q, size, k - 1),
{
    lemma_queen_at(q, size, k - 1);
    assert forall|r: int, c: int|
        in_bounds(size, r, c) && #[trigger] is_queen(q, size, r, c) && cg[cell_idx(size, r, c)]
            == k implies r == k - 1 && c == queen_at(q, size, k - 1) by {
        assert(cg[cell_idx(size, r, c)] == (r + 1) as u32);
    }
}

/// A permutation holds exactly the values of the original sequence.
proof fn lemma_shuffled_values(pre: Seq<u32>, post: Seq<u32>)
    requires
        pre.to_multiset() == post.to_multiset(),
    ensures
        forall|k: int| 0 <= k < post.len() ==> pre.contains(#[trigger] post[k]),
{
    broadcast use vstd::seq_lib::group_to_multiset_ensures;

    assert forall|k: int| 0 <= k < post.len() implies pre.contains(#[trigger] post[k]) by {
        assert(post.contains(post[k]));
        assert(post.to_multiset().count(post[k]) > 0);
        assert(pre.to_multiset().count(post[k]) > 0);
    }
}

fn copy_queue(v: &Vec<(u32, u32)>) -> (r: Vec<(u32, u32)>)
    ensures
        r@ == v@,
{
    let mut r: Vec<(u32, u32)> = Vec::new();
    let mut i: usize = 0;
    while i < v.len()
        invariant
            i <= v@.len(),
            r@ =~= v@.take(i as int),
        decreases v@.len() - i,
    {
        r.push(v[i]);
        proof {
            assert(r@ =~= v@.take(i as int + 1));
        }
        i = i + 1;
    }
    proof {
        assert(v@.take(v@.len() as int) =~= v@);
    }
    r
}

fn copy_mask(v: &Vec<bool>) -> (r: Vec<bool>)
    ensures
        r@ == v@,
{
    let mut r: Vec<bool> = Vec::new();
    let mut i: usize = 0;
    while i < v.len()
        invariant
            i <= v@.len(),
            r@ =~= v@.take(i as int),
        decreases v@.len() - i,
    {
        r.push(v[i]);
        proof {
            assert(r@ =~= v@.take(i as int + 1));
        }
        i = i + 1;
    }
    proof {
        assert(v@.take(v@.len() as int) =~= v@);
    }
    r
}

/// The queue left after popping `(row, col)`: still well formed, and no
/// remaining entry is the popped cell.
pub open spec fn popped_queue_ok(
    cg: Seq<u32>,
    size: int,
    queue: Seq<(u32, u32)>,
    seen: Seq<bool>,
    row: u32,
    col: u32,
) -> bool {
    colouring_queue_ok(cg, size, queue, seen) && forall|k: int|
        0 <= k < queue.len() ==> (#[trigger] queue[k]) != (row, col)
}

/// The queued cells are distinct, unassigned, already seen cells of the
/// board.
pub open spec fn colouring_queue_ok(
    cg: Seq<u32>,
    size: int,
    queue: Seq<(u32, u32)>,
    seen: Seq<bool>,
) -> bool {
    &&& seen.len() == size * size
    &&& forall|k: int|
        0 <= k < queue.len() ==> in_bounds(size, (#[trigger] queue[k]).0 as int, queue[k].1 as int)
            && cg[cell_idx(size, queue[k].0 as int, queue[k].1 as int)] == 0 && seen[cell_idx(
            size,
            queue[k].0 as int,
            queue[k].1 as int,
        )]
    &&& forall|k1: int, k2: int|
        0 <= k1 < k2 < queue.len() ==> (#[trigger] queue[k1]) != (#[trigger] queue[k2])
}

/// Colour queued cells one at a time, each with the colour of an orthogonal
/// neighbour chosen so that forcing a marker onto the freshly coloured cell
/// admits no solution of the board; a cell that takes no colour while all
/// its neighbours are coloured is a dead end.  Cells only gain colours,
/// every newly coloured cell shares its colour with an orthogonal
/// neighbour, and each one is recorded with its colour in
/// `working_solution`.
#[verifier::rlimit(100)]
pub fn colour_grid_recursively(
    colour_grid: &mut Vec<u32>,
    queue: Vec<(u32, u32)>,
    seen: Vec<bool>,
    size: u32,
    working_solution: &mut Vec<(u32, u32, u32)>,
    rng: &mut rand::rngs::StdRng,
) -> (complete: bool)
    requires
        size_ok(size),
        0 < size,
        old(colour_grid)@.len() == size * size,
        colours_in_range(old(colour_grid)@, size as int),
        colouring_queue_ok(old(colour_grid)@, size as int, queue@, seen@),
    ensures
        final(colour_grid)@.len() == size * size,
        colours_in_range(final(colour_grid)@, size as int),
        queue@.len() == 0 ==> complete && final(colour_grid)@ == old(colour_grid)@
            && final(working_solution)@ == old(working_solution)@,
        forall|i: int|
            0 <= i < old(colour_grid)@.len() && old(colour_grid)@[i] != 0
                ==> final(colour_grid)@[i] == old(colour_grid)@[i],
        forall|i: int|
            0 <= i < old(colour_grid)@.len() && #[trigger] final(colour_grid)@[i]
                != old(colour_grid)@[i] ==> final(colour_grid)@[i] != 0,
        forall|r: int, c: int|
            in_bounds(size as int, r, c) && final(colour_grid)@[#[trigger] cell_idx(
                size as int,
                r,
                c,
            )] != old(colour_grid)@[cell_idx(size as int, r, c)] ==> exists|vr: int, vc: int|
                in_bounds(size as int, vr, vc) && step_adjacent((vr, vc), (r, c))
                    && final(colour_grid)@[#[trigger] cell_idx(size as int, vr, vc)]
                    == final(colour_grid)@[cell_idx(size as int, r, c)],
        final(working_solution)@.len() >= old(working_solution)@.len(),
        forall|k: int|
            0 <= k < old(working_solution)@.len() ==> final(working_solution)@[k] == old(
                working_solution,
            )@[k],
        forall|k: int|
            old(working_solution)@.len() <= k < final(working_solution)@.len() ==> in_bounds(
                size as int,
                (#[trigger] final(working_solution)@[k]).0 as int,
                final(working_solution)@[k].1 as int,
            ) && final(colour_grid)@[cell_idx(
                size as int,
                final(working_solution)@[k].0 as int,
                final(working_solution)@[k].1 as int,
            )] == final(working_solution)@[k].2 && final(working_solution)@[k].2 != 0,
        forall|r: int, c: int|
            in_bounds(size as int, r, c) && final(colour_grid)@[#[trigger] cell_idx(
                size as int,
                r,
                c,
            )] != old(colour_grid)@[cell_idx(size as int, r, c)] ==> exists|k: int|
                old(working_solution)@.len() <= k < final(working_solution)@.len() && (
                #[trigger] final(working_solution)@[k]) == (
                r as u32,
                c as u32,
                final(colour_grid)@[cell_idx(size as int, r, c)],
                ),
    decreases count_zeros(colour_grid@),
{
    proof {
        lemma_size_ok_bound(size);
    }
    let ghost sz = size as int;
    let ghost g0 = colour_grid@;
    let ghost ws0 = working_solution@;
    let mut work_queue = queue;
    let mut work_seen = seen;
    if work_queue.len() == 0 {
        return true;
    }
    let mut fuel: usize = work_queue.len();
    while work_queue.len() > 0 && fuel > 0
        invariant
            size_ok(size),
            size <= 65535,
            0 < size,
            sz == size as int,
            g0 == old(colour_grid)@,
            ws0 == old(working_solution)@,
            queue@.len() > 0,
            working_solution@ == ws0,
            colour_grid@ == g0,
            colour_grid@.len() == size * size,
            g0.len() == size * size,
            colours_in_range(colour_grid@, sz),
            colouring_queue_ok(colour_grid@, sz, work_queue@, work_seen@),
            forall|i: int| 0 <= i < g0.len() && g0[i] != 0 ==> colour_grid@[i] == g0[i],
            forall|i: int|
                0 <= i < g0.len() && #[trigger] colour_grid@[i] != g0[i] ==> colour_grid@[i] != 0,
            forall|r: int, c: int|
                in_bounds(sz, r, c) && colour_grid@[#[trigger] cell_idx(sz, r, c)] != g0[cell_idx(
                    sz,
                    r,
                    c,
                )] ==> exists|vr: int, vc: int|
                    in_bounds(sz, vr, vc) && step_adjacent((vr, vc), (r, c)) && colour_grid@[
                    #[trigger] cell_idx(sz, vr, vc)] == colour_grid@[cell_idx(sz, r, c)],
        decreases (if work_queue@.len() > 0 {
            1int
        } else {
            0int
        }), fuel,
    {
        let ghost queue_a = work_queue@;
        let qi = rand_below(rng, work_queue.len());
        let (row, col) = work_queue.swap_remove(qi);
        let ghost cg_b = colour_grid@;
        let ghost queue_b = work_queue@;
        let ghost seen_b = work_seen@;
        proof {
            assert(queue_a[qi as int] == (row, col));
            assert forall|k: int|
                0 <= k < queue_b.len() implies in_bounds(
                sz,
                (#[trigger] queue_b[k]).0 as int,
                queue_b[k].1 as int,
            ) && cg_b[cell_idx(sz, queue_b[k].0 as int, queue_b[k].1 as int)] == 0
                && seen_b[cell_idx(sz, queue_b[k].0 as int, queue_b[k].1 as int)] && queue_b[k]
                != (row, col) by {
                if k == qi && qi < queue_a.len() - 1 {
                    assert(queue_b[k] == queue_a[queue_a.len() - 1]);
                    assert(queue_a[qi as int] != queue_a[queue_a.len() - 1]);
                } else {
                    assert(queue_b[k] == queue_a[k]);
                    assert(k != qi);
                    if k < qi {
                        assert(queue_a[k] != queue_a[qi as int]);
                    } else {
                        assert(queue_a[qi as int] != queue_a[k]);
                    }
                }
            }
            assert forall|k1: int, k2: int|
                0 <= k1 < k2 < queue_b.len() implies (#[trigger] queue_b[k1]) != (
            #[trigger] queue_b[k2]) by {
                if k1 != qi && k2 != qi {
                    assert(queue_b[k1] == queue_a[k1] && queue_b[k2] == queue_a[k2]);
                } else if k1 == qi {
                    assert(queue_b[k2] == queue_a[k2]);
                    if qi < queue_a.len() - 1 {
                        assert(queue_b[k1] == queue_a[queue_a.len() - 1]);
                        assert(k2 < queue_a.len() - 1);
                    }
                } else {
                    assert(queue_b[k1] == queue_a[k1]);
                    if qi < queue_a.len() - 1 {
                        assert(queue_b[k2] == queue_a[queue_a.len() - 1]);
                        assert(k1 < queue_a.len() - 1);
                    }
                }
            }
            assert(popped_queue_ok(cg_b, sz, queue_b, seen_b, row, col));
        }
        let mut colours = find_colours(colour_grid, row, col, size);
        let ghost pre_colours = colours@;
        shuffle_u32s(rng, &mut colours);
        proof {
            lemma_shuffled_values(pre_colours, colours@);
            lemma_neighbour_colours_sound(cg_b, sz, row as int, col as int);
        }
        let mut k: usize = 0;
        while k < colours.len()
            invariant
                size_ok(size),
                size <= 65535,
                0 < size,
                sz == size as int,
                row < size,
                col < size,
                k <= colours@.len(),
                g0 == old(colour_grid)@,
                ws0 == old(working_solution)@,
                queue@.len() > 0,
                cg_b == g0,
                cg_b == colour_grid@,
                queue_b == work_queue@,
                seen_b == work_seen@,
                ws0 == working_solution@,
                cg_b.len() == size * size,
                seen_b.len() == size * size,
                colours_in_range(cg_b, sz),
                popped_queue_ok(cg_b, sz, queue_b, seen_b, row, col),
                cg_b[cell_idx(sz, row as int, col as int)] == 0,
                forall|j: int|
                    0 <= j < colours@.len() ==> pre_colours.contains(#[trigger] colours@[j]),
                pre_colours == neighbour_colours(cg_b, sz, row as int, col as int),
                forall|j: int|
                    #![trigger pre_colours[j]]
                    0 <= j < pre_colours.len() ==> exists|vr: int, vc: int|
                        in_bounds(sz, vr, vc) && step_adjacent((vr, vc), (row as int, col as int))
                            && cg_b[#[trigger] cell_idx(sz, vr, vc)] == pre_colours[j] && cg_b[
                        cell_idx(sz, vr, vc)] != 0,
            decreases colours@.len() - k,
        {
            let colour = colours[k];
            proof {
                assert(pre_colours.contains(colour));
                let j = choose|j: int| 0 <= j < pre_colours.len() && pre_colours[j] == colour;
                assert(pre_colours[j] == colour);
            }
            let ghost (vr, vc) = choose|vr: int, vc: int|
                in_bounds(sz, vr, vc) && step_adjacent((vr, vc), (row as int, col as int))
                    && cg_b[#[trigger] cell_idx(sz, vr, vc)] == colour && cg_b[cell_idx(
                    sz,
                    vr,
                    vc,
                )] != 0;
            let cands = crate::counter::collect_candidates(colour_grid, size);
            let mut placed: Vec<(u32, u32, u32)> = Vec::new();
            placed.push((row, col, colour));
            let mut sc: u32 = 0;
            proof {
                assert(colour <= size) by {
                    lemma_cell_idx_bounds(sz, vr, vc);
                }
                assert(crate::counter::placed_wf(placed@, sz));
                assert(crate::counter::placed_pairwise_ok(placed@));
                assert(crate::counter::rows_covered_below(placed@, 0));
            }
            crate::counter::count_solutions(0, size, &cands, &mut placed, &mut sc);
            if sc == 0 {
                proof {
                    lemma_cell_idx_bounds(sz, row as int, col as int);
                }
                let idx = (row * size + col) as usize;
                colour_grid[idx] = colour;
                working_solution.push((row, col, colour));
                colour_cell(colour_grid, &mut work_queue, &mut work_seen, row, col, size);
                let ghost cg_m = colour_grid@;
                let ghost ci = cell_idx(sz, row as int, col as int);
                proof {
                    assert(cg_m == cg_b.update(ci, colour));
                    lemma_count_zeros_set_nonzero(cg_b, ci, colour);
                    assert(coloured_cell_step(
                        cg_m,
                        sz,
                        row as int,
                        col as int,
                        queue_b,
                        seen_b,
                        work_queue@,
                        work_seen@,
                    ));
                    // the recursion's work_queue is still made of distinct,
                    // unassigned, work_seen cells
                    assert(colouring_queue_ok(cg_m, sz, work_queue@, work_seen@)) by {
                        assert forall|k2: int|
                            0 <= k2 < work_queue@.len() implies in_bounds(
                            sz,
                            (#[trigger] work_queue@[k2]).0 as int,
                            work_queue@[k2].1 as int,
                        ) && cg_m[cell_idx(sz, work_queue@[k2].0 as int, work_queue@[k2].1 as int)] == 0
                            && work_seen@[cell_idx(sz, work_queue@[k2].0 as int, work_queue@[k2].1 as int)] by {
                            let e = work_queue@[k2];
                            if k2 < queue_b.len() {
                                assert(work_queue@[k2] == queue_b[k2]);
                                assert(e != (row, col));
                                lemma_cell_idx_bounds(sz, e.0 as int, e.1 as int);
                                lemma_cell_idx_distinct(
                                    sz,
                                    e.0 as int,
                                    e.1 as int,
                                    row as int,
                                    col as int,
                                ) ;
                            } else {
                                assert(step_adjacent(
                                    (e.0 as int, e.1 as int),
                                    (row as int, col as int),
                                ));
                                lemma_cell_idx_bounds(sz, e.0 as int, e.1 as int);
                                assert(e.0 as int != row as int || e.1 as int != col as int);
                                lemma_cell_idx_distinct(
                                    sz,
                                    e.0 as int,
                                    e.1 as int,
                                    row as int,
                                    col as int,
                                );
                            }
                        }
                        assert forall|k1: int, k2: int|
                            0 <= k1 < k2 < work_queue@.len() implies (#[trigger] work_queue@[k1]) != (
                        #[trigger] work_queue@[k2]) by {
                            if k2 >= queue_b.len() && k1 < queue_b.len() {
                                let e1 = work_queue@[k1];
                                assert(seen_b[cell_idx(sz, e1.0 as int, e1.1 as int)]);
                                if work_queue@[k1] == work_queue@[k2] {
                                    assert(!seen_b[cell_idx(sz, e1.0 as int, e1.1 as int)]);
                                }
                            }
                        }
                    }
                    assert(colours_in_range(cg_m, sz));
                }
                let q2 = copy_queue(&work_queue);
                let s2 = copy_mask(&work_seen);
                let complete = colour_grid_recursively(
                    colour_grid,
                    q2,
                    s2,
                    size,
                    working_solution,
                    rng,
                );
                proof {
                    let cg_f = colour_grid@;
                    // the cell coloured here and every cell the recursion
                    // coloured still has a same-coloured neighbour
                    assert(cg_f[ci] == colour) by {
                        assert(cg_m[ci] == colour && colour != 0);
                    }
                    assert forall|r2: int, c2: int|
                        in_bounds(sz, r2, c2) && cg_f[#[trigger] cell_idx(sz, r2, c2)] != g0[
                    cell_idx(sz, r2, c2)] implies exists|vr2: int, vc2: int|
                        in_bounds(sz, vr2, vc2) && step_adjacent((vr2, vc2), (r2, c2)) && cg_f[
                        #[trigger] cell_idx(sz, vr2, vc2)] == cg_f[cell_idx(sz, r2, c2)] by {
                        lemma_cell_idx_bounds(sz, r2, c2);
                        if cg_f[cell_idx(sz, r2, c2)] != cg_m[cell_idx(sz, r2, c2)] {
                            // coloured by the recursion
                        } else if cg_m[cell_idx(sz, r2, c2)] != cg_b[cell_idx(sz, r2, c2)] {
                            // the cell coloured in this step
                            assert(cell_idx(sz, r2, c2) == ci);
                            crate::board::lemma_cell_idx_injective(
                                sz,
                                r2,
                                c2,
                                row as int,
                                col as int,
                            );
                            assert(cg_m[cell_idx(sz, vr, vc)] == colour) by {
                                lemma_cell_idx_bounds(sz, vr, vc);
                                lemma_cell_idx_distinct(sz, vr, vc, row as int, col as int);
                            }
                            assert(cg_f[cell_idx(sz, vr, vc)] == colour) by {
                                lemma_cell_idx_bounds(sz, vr, vc);
                                assert(cg_m[cell_idx(sz, vr, vc)] != 0);
                            }
                            assert(in_bounds(sz, vr, vc) && step_adjacent((vr, vc), (r2, c2))
                                && cg_f[cell_idx(sz, vr, vc)] == cg_f[cell_idx(sz, r2, c2)]);
                        } else {
                            // coloured before this step: its witness kept its colour
                            assert(cg_b[cell_idx(sz, r2, c2)] != g0[cell_idx(sz, r2, c2)]);
                            let (vr2, vc2) = choose|vr2: int, vc2: int|
                                in_bounds(sz, vr2, vc2) && step_adjacent((vr2, vc2), (r2, c2))
                                    && cg_b[#[trigger] cell_idx(sz, vr2, vc2)] == cg_b[cell_idx(
                                    sz,
                                    r2,
                                    c2,
                                )];
                            lemma_cell_idx_bounds(sz, vr2, vc2);
                            assert(cg_b[cell_idx(sz, r2, c2)] != 0);
                            assert(cg_m[cell_idx(sz, vr2, vc2)] == cg_b[cell_idx(sz, vr2, vc2)])
                                by {
                                if cell_idx(sz, vr2, vc2) == ci {
                                    assert(cg_b[ci] == 0);
                                    assert(cg_b[cell_idx(sz, r2, c2)] == 0);
                                }
                            }
                            assert(cg_f[cell_idx(sz, vr2, vc2)] == cg_b[cell_idx(sz, vr2, vc2)])
                                by {
                                assert(cg_m[cell_idx(sz, vr2, vc2)] != 0);
                            }
                            assert(cg_f[cell_idx(sz, r2, c2)] == cg_b[cell_idx(sz, r2, c2)]) by {
                                assert(cg_m[cell_idx(sz, r2, c2)] != 0);
                            }
                        }
                    }
                }
                proof {
                    let cg_f = colour_grid@;
                    let ws_f = working_solution@;
                    assert forall|r2: int, c2: int|
                        in_bounds(sz, r2, c2) && cg_f[#[trigger] cell_idx(sz, r2, c2)] != g0[
                    cell_idx(sz, r2, c2)] implies exists|k2: int|
                        ws0.len() <= k2 < ws_f.len() && (#[trigger] ws_f[k2]) == (
                        r2 as u32,
                        c2 as u32,
                        cg_f[cell_idx(sz, r2, c2)],
                        ) by {
                        lemma_cell_idx_bounds(sz, r2, c2);
                        if cg_f[cell_idx(sz, r2, c2)] != cg_m[cell_idx(sz, r2, c2)] {
                            // coloured by the recursion, which recorded it
                        } else {
                            // the cell coloured in this step
                            assert(cell_idx(sz, r2, c2) == ci);
                            crate::board::lemma_cell_idx_injective(
                                sz,
                                r2,
                                c2,
                                row as int,
                                col as int,
                            );
                            assert(ws_f[ws0.len() as int] == (row, col, colour));
                            assert(cg_f[ci] == colour);
                        }
                    }
                }
                return complete;
            }
            k = k + 1;
        }
        if all_neighbours_found(colour_grid, row, col, size) {
            return false;
        }
        work_queue.push((row, col));
        proof {
            assert(work_queue@[queue_b.len() as int] == (row, col));
            assert forall|k1: int, k2: int|
                0 <= k1 < k2 < work_queue@.len() implies (#[trigger] work_queue@[k1]) != (
            #[trigger] work_queue@[k2]) by {
                if k2 == queue_b.len() {
                    assert(work_queue@[k1] == queue_b[k1]);
                    assert(queue_b[k1] != (row, col));
                } else {
                    assert(work_queue@[k1] == queue_b[k1] && work_queue@[k2] == queue_b[k2]);
                }
            }
        }
        fuel = fuel - 1;
    }
    let complete = work_queue.len() == 0;
    complete
}

} // verus!
