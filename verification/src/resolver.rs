//! The conflict resolver: when an alternate solution places a marker where
//! the true placement has none, a breadth-first search from that conflict
//! cell, barred from crossing marker cells, finds the nearest cell whose
//! region is not banned and repaints the search path to it, bridging the
//! conflict cell into that region.

use vstd::prelude::*;
use crate::board::{
    cell_idx, col_of, count_false, count_zeros, in_bounds, lemma_count_false_mark,
    lemma_count_zeros_strict, lemma_size_ok_bound, row_of, size_ok,
};
use crate::paths::{
    colour_closed, lemma_path_cells_reachable, lemma_queen_free_closed_reach,
    lemma_queen_free_self, lemma_queen_free_step, lemma_reach_closed, lemma_reaches_mono,
    lemma_reaches_self, lemma_reaches_step, lemma_reaches_symm, lemma_reaches_trans, path_ok,
    queen_free_closed, queen_free_reaches, reaches, step_adjacent,
};

verus! {

/// Whether two grids hold exactly the same values.
pub fn check_grids(grid1: &[u32], grid2: &[u32]) -> (same: bool)
    ensures
        same == (grid1@ == grid2@),
{
    if grid1.len() != grid2.len() {
        proof {
            assert(grid1@ !~= grid2@);
        }
        return false;
    }
    let mut i: usize = 0;
    while i < grid1.len()
        invariant
            grid1@.len() == grid2@.len(),
            i <= grid1@.len(),
            forall|j: int| 0 <= j < i ==> grid1@[j] == grid2@[j],
        decreases grid1@.len() - i,
    {
        if grid1[i] != grid2[i] {
            proof {
                assert(grid1@ !~= grid2@);
            }
            return false;
        }
        i = i + 1;
    }
    proof {
        assert(grid1@ =~= grid2@);
    }
    true
}

fn contains_colour(v: &Vec<u32>, x: u32) -> (found: bool)
    ensures
        found == v@.contains(x),
{
    let mut i: usize = 0;
    while i < v.len()
        invariant
            i <= v@.len(),
            forall|j: int| 0 <= j < i ==> v@[j] != x,
        decreases v@.len() - i,
    {
        if v[i] == x {
            assert(v@[i as int] == x);
            return true;
        }
        i = i + 1;
    }
    proof {
        if v@.contains(x) {
            let j = choose|j: int| 0 <= j < v@.len() && v@[j] == x;
            assert(false);
        }
    }
    false
}

/// Some cell other than the conflict cell is reachable from it by
/// orthogonal steps that avoid every marker cell, and carries a colour
/// outside the banned list.
pub open spec fn reachable_unbanned(
    g: Seq<u32>,
    queens: Seq<u32>,
    banned: Seq<u32>,
    size: int,
    sr: int,
    sc: int,
) -> bool {
    exists|r: int, c: int|
        in_bounds(size, r, c) && !(r == sr && c == sc) && #[trigger] queen_free_reaches(
            queens,
            size,
            sr,
            sc,
            r,
            c,
        ) && !banned.contains(g[cell_idx(size, r, c)])
}

/// A successful resolution step: the conflict cell takes an unbanned colour
/// that a reachable non-marker cell already carried, only non-marker cells
/// are repainted and only with that colour, and in the result the conflict
/// cell is bridged to that cell through same-coloured cells.
pub open spec fn conflict_resolved(
    g0: Seq<u32>,
    g1: Seq<u32>,
    queens: Seq<u32>,
    banned: Seq<u32>,
    size: int,
    sr: int,
    sc: int,
) -> bool {
    exists|clr: u32, er: int, ec: int, p: Seq<(int, int)>|
        #![trigger cell_idx(size, er, ec), path_ok(g1, size, p, clr)]
        in_bounds(size, er, ec) && !(er == sr && ec == sc) && queen_free_reaches(
            queens,
            size,
            sr,
            sc,
            er,
            ec,
        ) && !banned.contains(clr) && g0[cell_idx(size, er, ec)] == clr && g1[cell_idx(
            size,
            er,
            ec,
        )] == clr && g1[cell_idx(size, sr, sc)] == clr && reaches(g1, size, er, ec, sr, sc, clr)
            && path_ok(g1, size, p, clr) && p[0] == (er, ec) && p[p.len() - 1] == (sr, sc) && (
        forall|i: int|
            0 <= i < g1.len() ==> #[trigger] g1[i] == g0[i] || (queens[i] != 1 && g1[i] == clr
                && exists|k: int|
                0 <= k < p.len() && cell_idx(size, (#[trigger] p[k]).0, p[k].1) == i))
}

/// The breadth-first search bookkeeping: every visited cell avoids the
/// markers and is reachable from the conflict cell without crossing one,
/// and every visited cell but the start has a visited, orthogonally
/// adjacent parent of strictly smaller depth.
spec fn search_tree_ok(
    visited: Seq<bool>,
    parent: Seq<u32>,
    depth: Seq<nat>,
    queens: Seq<u32>,
    size: int,
    start: int,
) -> bool {
    &&& visited.len() == size * size
    &&& parent.len() == size * size
    &&& depth.len() == size * size
    &&& 0 <= start < size * size
    &&& visited[start]
    &&& forall|i: int| 0 <= i < size * size && #[trigger] visited[i] ==> queens[i] != 1
    &&& forall|i: int|
        0 <= i < size * size && #[trigger] visited[i] ==> queen_free_reaches(
            queens,
            size,
            row_of(size, start),
            col_of(size, start),
            row_of(size, i),
            col_of(size, i),
        )
    &&& forall|i: int|
        0 <= i < size * size && #[trigger] visited[i] && i != start ==> (parent[i] as int) < size
            * size && visited[parent[i] as int] && depth[parent[i] as int] < depth[i]
            && step_adjacent(
            (row_of(size, parent[i] as int), col_of(size, parent[i] as int)),
            (row_of(size, i), col_of(size, i)),
        )
}

/// Every visited cell stands somewhere in the search queue.
spec fn all_visited_queued(visited: Seq<bool>, queue: Seq<u32>, n: int) -> bool {
    forall|i: int|
        0 <= i < n && #[trigger] visited[i] ==> exists|j: int|
            0 <= j < queue.len() && (#[trigger] queue[j]) as int == i
}

/// Marking one fresh non-marker cell with a visited, adjacent parent keeps
/// the search tree well formed and the queue complete.
proof fn lemma_tree_extend(
    vp: Seq<bool>,
    visited: Seq<bool>,
    pp: Seq<u32>,
    parent: Seq<u32>,
    dp: Seq<nat>,
    depth: Seq<nat>,
    q0: Seq<u32>,
    q1: Seq<u32>,
    queens: Seq<u32>,
    size: int,
    start: int,
    next: int,
    current: u32,
)
    requires
        size * size <= 0xffff_ffff,
        search_tree_ok(vp, pp, dp, queens, size, start),
        all_visited_queued(vp, q0, size * size),
        queens.len() == size * size,
        0 <= next < size * size,
        !vp[next],
        queens[next] != 1,
        0 <= (current as int) < size * size,
        vp[current as int],
        step_adjacent(
            (row_of(size, current as int), col_of(size, current as int)),
            (row_of(size, next), col_of(size, next)),
        ),
        visited == vp.update(next, true),
        parent == pp.update(next, current),
        depth == dp.update(next, dp[current as int] + 1),
        q1 == q0.push(next as u32),
    ensures
        search_tree_ok(visited, parent, depth, queens, size, start),
        all_visited_queued(visited, q1, size * size),
{
    crate::board::lemma_flat_coords(size, next);
    assert(queens[cell_idx(size, row_of(size, next), col_of(size, next))] != 1);
    lemma_queen_free_step(
        queens,
        size,
        row_of(size, start),
        col_of(size, start),
        row_of(size, current as int),
        col_of(size, current as int),
        row_of(size, next),
        col_of(size, next),
    );
    assert forall|i: int|
        0 <= i < size * size && #[trigger] visited[i] && i != start implies (parent[i] as int)
        < size * size && visited[parent[i] as int] && depth[parent[i] as int] < depth[i]
        && step_adjacent(
        (row_of(size, parent[i] as int), col_of(size, parent[i] as int)),
        (row_of(size, i), col_of(size, i)),
    ) by {
        if i != next {
            assert(vp[i]);
            assert(pp[i] as int != next) by {
                assert(!vp[next]);
            }
            assert(parent[i] == pp[i]);
        } else {
            assert(parent[next] == current);
            assert(current as int != next);
        }
    }
    assert forall|i: int|
        0 <= i < size * size && #[trigger] visited[i] implies exists|j: int|
        0 <= j < q1.len() && (#[trigger] q1[j]) as int == i by {
        if i == next {
            assert((q1[q0.len() as int]) as int == i);
        } else {
            assert(vp[i]);
            let j = choose|j: int| 0 <= j < q0.len() && (#[trigger] q0[j]) as int == i;
            assert(q1[j] == q0[j]);
        }
    }
}

/// Mark, file under its parent, and queue one neighbour of the cell being
/// expanded, unless it is a marker cell or already visited.
#[verifier::rlimit(50)]
fn conflict_visit(
    actual_solution: &Vec<u32>,
    visited: &mut Vec<bool>,
    parent: &mut Vec<u32>,
    queue: &mut Vec<u32>,
    depth_in: Ghost<Seq<nat>>,
    size: u32,
    start: u32,
    current: u32,
    next: u32,
) -> (depth_out: Ghost<Seq<nat>>)
    requires
        size_ok(size),
        0 < size,
        actual_solution@.len() == size * size,
        current < size * size,
        next < size * size,
        old(visited)@[current as int],
        step_adjacent(
            (row_of(size as int, current as int), col_of(size as int, current as int)),
            (row_of(size as int, next as int), col_of(size as int, next as int)),
        ),
        search_state_ok(
            actual_solution@,
            size as int,
            start as int,
            old(visited)@,
            old(parent)@,
            depth_in@,
            old(queue)@,
        ),
    ensures
        search_state_ok(
            actual_solution@,
            size as int,
            start as int,
            final(visited)@,
            final(parent)@,
            depth_out@,
            final(queue)@,
        ),
        final(queue)@.len() >= old(queue)@.len(),
        forall|j: int| 0 <= j < old(queue)@.len() ==> final(queue)@[j] == old(queue)@[j],
        final(visited)@.len() == old(visited)@.len(),
        forall|i: int| 0 <= i < old(visited)@.len() && old(visited)@[i] ==> final(visited)@[i],
        actual_solution@[next as int] != 1 ==> final(visited)@[next as int],
        count_false(final(visited)@) <= count_false(old(visited)@),
        final(queue)@.len() > old(queue)@.len() ==> count_false(final(visited)@) < count_false(
            old(visited)@,
        ),
        final(queue)@.len() == old(queue)@.len() ==> final(queue)@ == old(queue)@
            && final(visited)@ == old(visited)@ && final(parent)@ == old(parent)@ && depth_out@
            == depth_in@,
{
    proof {
        lemma_size_ok_bound(size);
    }
    if actual_solution[next as usize] != 1 && !visited[next as usize] {
        let ghost vp = visited@;
        let ghost pp = parent@;
        let ghost dp = depth_in@;
        let ghost q0 = queue@;
        visited[next as usize] = true;
        parent[next as usize] = current;
        queue.push(next);
        proof {
            let depth2 = dp.update(next as int, dp[current as int] + 1);
            lemma_count_false_mark(vp, next as int);
            lemma_tree_extend(
                vp,
                visited@,
                pp,
                parent@,
                dp,
                depth2,
                q0,
                queue@,
                actual_solution@,
                size as int,
                start as int,
                next as int,
                current,
            );
        }
        Ghost(depth_in@.update(next as int, depth_in@[current as int] + 1))
    } else {
        depth_in
    }
}


/// After the four guarded neighbour visits of an expanded cell, every
/// in-bounds non-marker neighbour of that cell is visited.
proof fn lemma_neighbours_visited(
    visited: Seq<bool>,
    queens: Seq<u32>,
    size: int,
    current: int,
    r: int,
    c: int,
)
    requires
        0 < size <= 65535,
        queens.len() == size * size,
        visited.len() == size * size,
        0 <= current < size * size,
        current == size * r + c,
        0 <= c < size,
        0 <= r < size,
        current >= size && queens[current - size] != 1 ==> visited[current - size],
        current + size < size * size && queens[current + size] != 1 ==> visited[current + size],
        c > 0 && queens[current - 1] != 1 ==> visited[current - 1],
        c + 1 < size && queens[current + 1] != 1 ==> visited[current + 1],
    ensures
        forall|nr: int, nc: int|
            in_bounds(size, nr, nc) && step_adjacent((r, c), (nr, nc)) && queens[cell_idx(
                size,
                nr,
                nc,
            )] != 1 ==> visited[#[trigger] cell_idx(size, nr, nc)],
{
    assert forall|nr: int, nc: int|
        in_bounds(size, nr, nc) && step_adjacent((r, c), (nr, nc)) && queens[cell_idx(
            size,
            nr,
            nc,
        )] != 1 implies visited[#[trigger] cell_idx(size, nr, nc)] by {
        crate::board::lemma_cell_idx_bounds(size, nr, nc);
        if nr == r - 1 && nc == c {
            assert(cell_idx(size, nr, nc) == current - size && current >= size)
                by (nonlinear_arith)
                requires
                    size > 0,
                    nr >= 0,
                    nr == r - 1,
                    nc == c,
                    0 <= c,
                    current == size * r + c,
            ;
        } else if nr == r + 1 && nc == c {
            assert(cell_idx(size, nr, nc) == current + size) by (nonlinear_arith)
                requires
                    nr == r + 1,
                    nc == c,
                    current == size * r + c,
            ;
        } else if nr == r && nc == c - 1 {
            assert(cell_idx(size, nr, nc) == current - 1) by (nonlinear_arith)
                requires
                    nr == r,
                    nc == c - 1,
                    current == size * r + c,
            ;
        } else {
            assert(nr == r && nc == c + 1);
            assert(cell_idx(size, nr, nc) == current + 1) by (nonlinear_arith)
                requires
                    nr == r,
                    nc == c + 1,
                    current == size * r + c,
            ;
        }
    }
}

/// The four neighbour indices of a flattened cell, with their coordinates.
proof fn lemma_neighbour_coords(size: int, current: int)
    requires
        0 < size,
        0 <= current < size * size,
    ensures
        in_bounds(size, row_of(size, current), col_of(size, current)),
        cell_idx(size, row_of(size, current), col_of(size, current)) == current,
        current >= size ==> row_of(size, current - size) == row_of(size, current) - 1 && col_of(
            size,
            current - size,
        ) == col_of(size, current),
        current + size < size * size ==> row_of(size, current + size) == row_of(size, current) + 1
            && col_of(size, current + size) == col_of(size, current),
        col_of(size, current) > 0 ==> row_of(size, current - 1) == row_of(size, current) && col_of(
            size,
            current - 1,
        ) == col_of(size, current) - 1,
        col_of(size, current) + 1 < size ==> current + 1 < size * size && row_of(
            size,
            current + 1,
        ) == row_of(size, current) && col_of(size, current + 1) == col_of(size, current) + 1,
        row_of(size, current) + 1 < size ==> current + size < size * size,
        row_of(size, current) >= 1 ==> current >= size,
    decreases 0int,
{
    crate::board::lemma_flat_coords(size, current);
    let r = row_of(size, current);
    let c = col_of(size, current);
    assert(current == r * size + c);
    if current >= size {
        assert(current - size == (r - 1) * size + c) by (nonlinear_arith)
            requires
                current == r * size + c,
        ;
        assert(r >= 1) by (nonlinear_arith)
            requires
                size > 0,
                current == r * size + c,
                0 <= c < size,
                current >= size,
                r >= 0,
        ;
        vstd::arithmetic::div_mod::lemma_fundamental_div_mod_converse_div(
            current - size,
            size,
            r - 1,
            c,
        );
        vstd::arithmetic::div_mod::lemma_fundamental_div_mod_converse_mod(
            current - size,
            size,
            r - 1,
            c,
        );
    }
    if current + size < size * size {
        assert(current + size == (r + 1) * size + c) by (nonlinear_arith)
            requires
                current == r * size + c,
        ;
        vstd::arithmetic::div_mod::lemma_fundamental_div_mod_converse_div(
            current + size,
            size,
            r + 1,
            c,
        );
        vstd::arithmetic::div_mod::lemma_fundamental_div_mod_converse_mod(
            current + size,
            size,
            r + 1,
            c,
        );
    }
    if c > 0 {
        assert(current - 1 == r * size + (c - 1));
        vstd::arithmetic::div_mod::lemma_fundamental_div_mod_converse_div(
            current - 1,
            size,
            r,
            c - 1,
        );
        vstd::arithmetic::div_mod::lemma_fundamental_div_mod_converse_mod(
            current - 1,
            size,
            r,
            c - 1,
        );
    }
    if c + 1 < size {
        assert(current + 1 == r * size + (c + 1));
        assert(current + 1 < size * size) by (nonlinear_arith)
            requires
                current == r * size + c,
                0 <= r < size,
                0 <= c,
                c + 1 < size,
        ;
        vstd::arithmetic::div_mod::lemma_fundamental_div_mod_converse_div(
            current + 1,
            size,
            r,
            c + 1,
        );
        vstd::arithmetic::div_mod::lemma_fundamental_div_mod_converse_mod(
            current + 1,
            size,
            r,
            c + 1,
        );
    }
    if r + 1 < size {
        assert(current + size < size * size) by (nonlinear_arith)
            requires
                current == r * size + c,
                0 <= c < size,
                r + 1 < size,
                size > 0,
        ;
    }
    if r >= 1 {
        assert(current >= size) by (nonlinear_arith)
            requires
                current == r * size + c,
                0 <= c,
                r >= 1,
                size > 0,
        ;
    }
}

/// When the whole queue has been processed and every processed cell is the
/// start or banned, no reachable cell carries an unbanned colour.
proof fn lemma_no_reachable(
    g: Seq<u32>,
    queens: Seq<u32>,
    banned: Seq<u32>,
    visited: Seq<bool>,
    queue: Seq<u32>,
    size: int,
    start: int,
)
    requires
        0 < size <= 65535,
        g.len() == size * size,
        queens.len() == size * size,
        visited.len() == size * size,
        0 <= start < size * size,
        visited[start],
        all_visited_queued(visited, queue, size * size),
        forall|j: int| 0 <= j < queue.len() ==> (#[trigger] queue[j]) < size * size,
        processed_banned(g, banned, queue, queue.len() as int, start),
        processed_closed(queens, size, queue, queue.len() as int, visited),
    ensures
        !reachable_unbanned(g, queens, banned, size, row_of(size, start), col_of(size, start)),
{
    crate::board::lemma_flat_coords(size, start);
    let sr = row_of(size, start);
    let sc = col_of(size, start);
    if reachable_unbanned(g, queens, banned, size, sr, sc) {
        let (rr, cc) = choose|rr: int, cc: int|
            in_bounds(size, rr, cc) && !(rr == sr && cc == sc) && #[trigger] queen_free_reaches(
                queens,
                size,
                sr,
                sc,
                rr,
                cc,
            ) && !banned.contains(g[cell_idx(size, rr, cc)]);
        assert(queen_free_closed(queens, size, visited)) by {
            assert forall|ar: int, ac: int, br: int, bc: int|
                in_bounds(size, ar, ac) && in_bounds(size, br, bc) && step_adjacent(
                    (ar, ac),
                    (br, bc),
                ) && visited[cell_idx(size, ar, ac)] && queens[cell_idx(size, br, bc)]
                    != 1 implies visited[cell_idx(size, br, bc)] by {
                crate::board::lemma_cell_idx_bounds(size, ar, ac);
                crate::board::lemma_coords_flat(size, ar, ac);
                let j = choose|j: int|
                    0 <= j < queue.len() && (#[trigger] queue[j]) as int == cell_idx(size, ar, ac);
            }
        }
        crate::board::lemma_cell_idx_bounds(size, rr, cc);
        lemma_queen_free_closed_reach(queens, size, visited, sr, sc, rr, cc);
        let j = choose|j: int|
            0 <= j < queue.len() && (#[trigger] queue[j]) as int == cell_idx(size, rr, cc);
        if queue[j] as int == start {
            crate::board::lemma_cell_idx_injective(size, rr, cc, sr, sc);
        } else {
            assert(banned.contains(g[cell_idx(size, rr, cc)]));
        }
    }
}

/// The whole search state: a well-formed tree whose visited cells all
/// stand in the queue, which holds only visited in-range cells.
spec fn search_state_ok(
    queens: Seq<u32>,
    size: int,
    start: int,
    visited: Seq<bool>,
    parent: Seq<u32>,
    depth: Seq<nat>,
    queue: Seq<u32>,
) -> bool {
    &&& search_tree_ok(visited, parent, depth, queens, size, start)
    &&& all_visited_queued(visited, queue, size * size)
    &&& forall|j: int| 0 <= j < queue.len() ==> (#[trigger] queue[j]) < size * size
    &&& forall|j: int| 0 <= j < queue.len() ==> visited[#[trigger] queue[j] as int]
}

/// Expand one cell of the search: visit each of its orthogonal neighbours,
/// after which every non-marker neighbour of the cell is visited.
#[verifier::rlimit(100)]
fn conflict_expand(
    actual_solution: &Vec<u32>,
    visited: &mut Vec<bool>,
    parent: &mut Vec<u32>,
    queue: &mut Vec<u32>,
    depth_in: Ghost<Seq<nat>>,
    size: u32,
    start: u32,
    current: u32,
) -> (depth_out: Ghost<Seq<nat>>)
    requires
        size_ok(size),
        0 < size,
        actual_solution@.len() == size * size,
        current < size * size,
        old(visited)@[current as int],
        search_state_ok(
            actual_solution@,
            size as int,
            start as int,
            old(visited)@,
            old(parent)@,
            depth_in@,
            old(queue)@,
        ),
    ensures
        search_state_ok(
            actual_solution@,
            size as int,
            start as int,
            final(visited)@,
            final(parent)@,
            depth_out@,
            final(queue)@,
        ),
        final(visited)@.len() == old(visited)@.len(),
        forall|i: int| 0 <= i < old(visited)@.len() && old(visited)@[i] ==> final(visited)@[i],
        final(queue)@.len() >= old(queue)@.len(),
        forall|j: int| 0 <= j < old(queue)@.len() ==> final(queue)@[j] == old(queue)@[j],
        count_false(final(visited)@) <= count_false(old(visited)@),
        final(queue)@.len() > old(queue)@.len() ==> count_false(final(visited)@) < count_false(
            old(visited)@,
        ),
        final(queue)@.len() == old(queue)@.len() ==> final(queue)@ == old(queue)@
            && final(visited)@ == old(visited)@,
        forall|nr: int, nc: int|
            in_bounds(size as int, nr, nc) && step_adjacent(
                (row_of(size as int, current as int), col_of(size as int, current as int)),
                (nr, nc),
            ) && actual_solution@[cell_idx(size as int, nr, nc)] != 1
                ==> final(visited)@[#[trigger] cell_idx(size as int, nr, nc)],
{
    proof {
        lemma_size_ok_bound(size);
    }
    let n = size * size;
    let ghost sz = size as int;
    let r = current / size;
    let c = current % size;
    proof {
        lemma_neighbour_coords(sz, current as int);
        assert(row_of(sz, current as int) == r as int && col_of(sz, current as int) == c as int);
        assert(current as int + size as int <= 0xffff_ffff) by (nonlinear_arith)
            requires
                size <= 65535,
                current < n,
                n == size * size,
        ;
    }
    let mut depth = depth_in;
    // up
    if current >= size {
        depth = conflict_visit(
            actual_solution,
            visited,
            parent,
            queue,
            depth,
            size,
            start,
            current,
            current - size,
        );
    }
    // down
    if current + size < n {
        depth = conflict_visit(
            actual_solution,
            visited,
            parent,
            queue,
            depth,
            size,
            start,
            current,
            current + size,
        );
    }
    // left
    if c > 0 {
        depth = conflict_visit(
            actual_solution,
            visited,
            parent,
            queue,
            depth,
            size,
            start,
            current,
            current - 1,
        );
    }
    // right
    if c + 1 < size {
        depth = conflict_visit(
            actual_solution,
            visited,
            parent,
            queue,
            depth,
            size,
            start,
            current,
            current + 1,
        );
    }
    proof {
        lemma_neighbours_visited(visited@, actual_solution@, sz, current as int, r as int, c as int);
    }
    depth
}

/// Every processed queue entry has all its non-marker neighbours visited.
spec fn processed_closed(
    queens: Seq<u32>,
    size: int,
    queue: Seq<u32>,
    upto: int,
    visited: Seq<bool>,
) -> bool {
    forall|j: int, nr: int, nc: int|
        #![trigger queue[j], cell_idx(size, nr, nc)]
        0 <= j < upto && j < queue.len() && in_bounds(size, nr, nc) && step_adjacent(
            (row_of(size, queue[j] as int), col_of(size, queue[j] as int)),
            (nr, nc),
        ) && queens[cell_idx(size, nr, nc)] != 1 ==> visited[cell_idx(size, nr, nc)]
}

/// Every processed queue entry is the start cell or carries a banned colour.
spec fn processed_banned(
    g: Seq<u32>,
    banned: Seq<u32>,
    queue: Seq<u32>,
    upto: int,
    start: int,
) -> bool {
    forall|j: int|
        0 <= j < upto && j < queue.len() ==> (#[trigger] queue[j]) as int == start
            || banned.contains(g[queue[j] as int])
}

/// Expanding one more queue entry keeps the processed prefix closed.
proof fn lemma_processed_step(
    queens: Seq<u32>,
    size: int,
    queue0: Seq<u32>,
    queue1: Seq<u32>,
    visited0: Seq<bool>,
    visited1: Seq<bool>,
    head: int,
    current: u32,
)
    requires
        0 < size,
        visited0.len() == size * size,
        visited1.len() == size * size,
        processed_closed(queens, size, queue0, head, visited0),
        queue1.len() >= queue0.len(),
        forall|j: int| 0 <= j < queue0.len() ==> queue1[j] == queue0[j],
        0 <= head < queue0.len(),
        queue0[head] == current,
        (current as int) < size * size,
        forall|i: int| 0 <= i < size * size && visited0[i] ==> visited1[i],
        forall|nr: int, nc: int|
            in_bounds(size, nr, nc) && step_adjacent(
                (row_of(size, current as int), col_of(size, current as int)),
                (nr, nc),
            ) && queens[cell_idx(size, nr, nc)] != 1 ==> visited1[#[trigger] cell_idx(
                size,
                nr,
                nc,
            )],
    ensures
        processed_closed(queens, size, queue1, head + 1, visited1),
{
    assert forall|j: int, nr: int, nc: int|
        #![trigger queue1[j], cell_idx(size, nr, nc)]
        0 <= j < head + 1 && j < queue1.len() && in_bounds(size, nr, nc) && step_adjacent(
            (row_of(size, queue1[j] as int), col_of(size, queue1[j] as int)),
            (nr, nc),
        ) && queens[cell_idx(size, nr, nc)] != 1 implies visited1[cell_idx(size, nr, nc)] by {
        crate::board::lemma_cell_idx_bounds(size, nr, nc);
        if j < head {
            assert(queue1[j] == queue0[j]);
            assert(visited0[cell_idx(size, nr, nc)]);
        } else {
            assert(queue1[j] == current);
        }
    }
}

/// Processing a banned (or start) entry keeps the processed prefix banned.
proof fn lemma_banned_step(
    g: Seq<u32>,
    banned: Seq<u32>,
    queue0: Seq<u32>,
    queue1: Seq<u32>,
    head: int,
    start: int,
    current: u32,
)
    requires
        processed_banned(g, banned, queue0, head, start),
        queue1.len() >= queue0.len(),
        forall|j: int| 0 <= j < queue0.len() ==> queue1[j] == queue0[j],
        0 <= head < queue0.len(),
        queue0[head] == current,
        current as int == start || banned.contains(g[current as int]),
    ensures
        processed_banned(g, banned, queue1, head + 1, start),
{
    assert forall|j: int|
        0 <= j < head + 1 && j < queue1.len() implies (#[trigger] queue1[j]) as int == start
        || banned.contains(g[queue1[j] as int]) by {
        assert(queue1[j] == queue0[j]);
    }
}

/// Process one queue entry: stop on it if its colour is not banned,
/// otherwise expand its neighbours.
#[verifier::rlimit(100)]
fn conflict_step(
    colour_grid: &Vec<u32>,
    actual_solution: &Vec<u32>,
    banned_colours: &Vec<u32>,
    visited: &mut Vec<bool>,
    parent: &mut Vec<u32>,
    queue: &mut Vec<u32>,
    depth_in: Ghost<Seq<nat>>,
    size: u32,
    start: u32,
    head: usize,
) -> (res: (Option<u32>, Ghost<Seq<nat>>))
    requires
        size_ok(size),
        0 < size,
        colour_grid@.len() == size * size,
        actual_solution@.len() == size * size,
        start < size * size,
        head < old(queue)@.len(),
        search_state_ok(
            actual_solution@,
            size as int,
            start as int,
            old(visited)@,
            old(parent)@,
            depth_in@,
            old(queue)@,
        ),
        processed_banned(colour_grid@, banned_colours@, old(queue)@, head as int, start as int),
        processed_closed(actual_solution@, size as int, old(queue)@, head as int, old(visited)@),
    ensures
        search_state_ok(
            actual_solution@,
            size as int,
            start as int,
            final(visited)@,
            final(parent)@,
            res.1@,
            final(queue)@,
        ),
        final(visited)@.len() == old(visited)@.len(),
        final(queue)@.len() >= old(queue)@.len(),
        forall|j: int| 0 <= j < old(queue)@.len() ==> final(queue)@[j] == old(queue)@[j],
        count_false(final(visited)@) <= count_false(old(visited)@),
        final(queue)@.len() > old(queue)@.len() ==> count_false(final(visited)@) < count_false(
            old(visited)@,
        ),
        final(queue)@.len() == old(queue)@.len() ==> final(queue)@ == old(queue)@
            && final(visited)@ == old(visited)@,
        match res.0 {
            Some(e) => e < size * size && final(visited)@[e as int] && e != start
                && !banned_colours@.contains(colour_grid@[e as int]) && final(queue)@ == old(
                queue,
            )@ && final(visited)@ == old(visited)@,
            None => processed_banned(
                colour_grid@,
                banned_colours@,
                final(queue)@,
                head as int + 1,
                start as int,
            ) && processed_closed(
                actual_solution@,
                size as int,
                final(queue)@,
                head as int + 1,
                final(visited)@,
            ),
        },
{
    proof {
        lemma_size_ok_bound(size);
    }
    let ghost sz = size as int;
    let ghost queue_pre = queue@;
    let ghost visited_pre = visited@;
    let current = queue[head];
    if current != start && !contains_colour(banned_colours, colour_grid[current as usize]) {
        return (Some(current), depth_in);
    }
    let d = conflict_expand(
        actual_solution,
        visited,
        parent,
        queue,
        depth_in,
        size,
        start,
        current,
    );
    proof {
        lemma_processed_step(
            actual_solution@,
            sz,
            queue_pre,
            queue@,
            visited_pre,
            visited@,
            head as int,
            current,
        );
        lemma_banned_step(
            colour_grid@,
            banned_colours@,
            queue_pre,
            queue@,
            head as int,
            start as int,
            current,
        );
    }
    (None, d)
}

/// The breadth-first search of the resolver: explore outward from the
/// conflict cell without crossing marker cells, and stop at the first cell
/// whose colour is not banned.  Returns that cell (or nothing), the parent
/// array of the search tree, and the visited mask and depths that certify
/// it.
#[verifier::rlimit(100)]
fn conflict_search(
    colour_grid: &Vec<u32>,
    actual_solution: &Vec<u32>,
    banned_colours: &Vec<u32>,
    size: u32,
    start: u32,
) -> (res: (Option<u32>, Vec<u32>, Ghost<Seq<bool>>, Ghost<Seq<nat>>))
    requires
        size_ok(size),
        0 < size,
        colour_grid@.len() == size * size,
        actual_solution@.len() == size * size,
        start < size * size,
        actual_solution@[start as int] != 1,
    ensures
        search_tree_ok(
            res.2@,
            res.1@,
            res.3@,
            actual_solution@,
            size as int,
            start as int,
        ),
        match res.0 {
            Some(e) => e < size * size && res.2@[e as int] && e != start
                && !banned_colours@.contains(colour_grid@[e as int]),
            None => !reachable_unbanned(
                colour_grid@,
                actual_solution@,
                banned_colours@,
                size as int,
                row_of(size as int, start as int),
                col_of(size as int, start as int),
            ),
        },
{
    proof {
        lemma_size_ok_bound(size);
    }
    let n = size * size;
    let nn = n as usize;
    let ghost sz = size as int;
    let ghost g0 = colour_grid@;
    let ghost q = actual_solution@;
    proof {
        crate::board::lemma_flat_coords(sz, start as int);
    }
    let mut visited: Vec<bool> = Vec::new();
    while visited.len() < nn
        invariant
            visited@.len() <= nn,
            forall|i: int| 0 <= i < visited@.len() ==> !(#[trigger] visited@[i]),
        decreases nn - visited@.len(),
    {
        visited.push(false);
    }
    let mut parent: Vec<u32> = Vec::new();
    while parent.len() < nn
        invariant
            parent@.len() <= nn,
        decreases nn - parent@.len(),
    {
        parent.push(0);
    }
    let ghost mut depth: Seq<nat> = Seq::new(n as nat, |i: int| 0nat);
    visited[start as usize] = true;
    let mut queue: Vec<u32> = Vec::new();
    queue.push(start);
    proof {
        lemma_queen_free_self(q, sz, row_of(sz, start as int), col_of(sz, start as int));
        assert(search_tree_ok(visited@, parent@, depth, q, sz, start as int)) by {
            assert forall|i: int|
                0 <= i < n && #[trigger] visited@[i] implies i == start as int by {
                if i != start as int {
                    assert(!visited@[i]);
                }
            }
        }
        assert(all_visited_queued(visited@, queue@, sz * sz)) by {
            assert forall|i: int|
                0 <= i < n && #[trigger] visited@[i] implies exists|j: int|
                0 <= j < queue@.len() && (#[trigger] queue@[j]) as int == i by {
                assert((queue@[0]) as int == start as int);
            }
        }
        assert(search_state_ok(q, sz, start as int, visited@, parent@, depth, queue@));
    }
    let mut head: usize = 0;
    let mut found: Option<u32> = None;
    while head < queue.len()
        invariant_except_break
            size_ok(size),
            size <= 65535,
            0 < size,
            n == size * size,
            nn == n as usize,
            sz == size as int,
            g0 == colour_grid@,
            q == actual_solution@,
            g0.len() == n,
            q.len() == n,
            start < n,
            head <= queue@.len(),
            search_state_ok(q, sz, start as int, visited@, parent@, depth, queue@),
            processed_banned(g0, banned_colours@, queue@, head as int, start as int),
            processed_closed(q, sz, queue@, head as int, visited@),
            found is None,
        ensures
            g0 == colour_grid@,
            q == actual_solution@,
            n == size * size,
            sz == size as int,
            search_state_ok(q, sz, start as int, visited@, parent@, depth, queue@),
            match found {
                Some(e) => e < n && visited@[e as int] && e != start
                    && !banned_colours@.contains(g0[e as int]),
                None => true,
            },
            found is None ==> processed_banned(
                g0,
                banned_colours@,
                queue@,
                queue@.len() as int,
                start as int,
            ),
            found is None ==> processed_closed(q, sz, queue@, queue@.len() as int, visited@),
        decreases count_false(visited@), queue@.len() - head,
    {
        let ghost visited_pre = visited@;
        let ghost queue_pre = queue@;
        let (f, d) = conflict_step(
            colour_grid,
            actual_solution,
            banned_colours,
            &mut visited,
            &mut parent,
            &mut queue,
            Ghost(depth),
            size,
            start,
            head,
        );
        proof {
            depth = d@;
        }
        match f {
            Some(e) => {
                found = Some(e);
                break ;
            },
            None => {
                head = head + 1;
            },
        }
        proof {
            if count_false(visited@) == count_false(visited_pre) {
                assert(queue@ =~= queue_pre);
            }
        }
    }
    proof {
        if found is None {
            lemma_no_reachable(g0, q, banned_colours@, visited@, queue@, sz, start as int);
        }
    }
    (found, parent, Ghost(visited@), Ghost(depth))
}

/// Search outward from the conflict cell `start`, never crossing a marker
/// cell of `actual_solution`, for the nearest cell whose colour is not
/// banned; when one is found, repaint the search path to it with that
/// colour.  When no reachable cell carries an unbanned colour the grid is
/// left untouched; otherwise the conflict cell is repainted with such a
/// colour and bridged to a cell that already carried it, and marker cells
/// always keep their colours.
#[verifier::rlimit(100)]
pub fn change_colour(
    colour_grid: &mut Vec<u32>,
    start: u32,
    size: u32,
    actual_solution: &Vec<u32>,
    banned_colours: &Vec<u32>,
)
    requires
        size_ok(size),
        0 < size,
        old(colour_grid)@.len() == size * size,
        actual_solution@.len() == size * size,
        start < size * size,
        actual_solution@[start as int] != 1,
    ensures
        final(colour_grid)@.len() == old(colour_grid)@.len(),
        !reachable_unbanned(
            old(colour_grid)@,
            actual_solution@,
            banned_colours@,
            size as int,
            row_of(size as int, start as int),
            col_of(size as int, start as int),
        ) ==> final(colour_grid)@ == old(colour_grid)@,
        reachable_unbanned(
            old(colour_grid)@,
            actual_solution@,
            banned_colours@,
            size as int,
            row_of(size as int, start as int),
            col_of(size as int, start as int),
        ) ==> conflict_resolved(
            old(colour_grid)@,
            final(colour_grid)@,
            actual_solution@,
            banned_colours@,
            size as int,
            row_of(size as int, start as int),
            col_of(size as int, start as int),
        ),
{
    proof {
        lemma_size_ok_bound(size);
    }
    let n = size * size;
    let ghost sz = size as int;
    let ghost g0 = colour_grid@;
    let ghost q = actual_solution@;
    let ghost sr = row_of(sz, start as int);
    let ghost sc = col_of(sz, start as int);
    proof {
        crate::board::lemma_flat_coords(sz, start as int);
    }
    let (found, parent, visited_g, depth_g) = conflict_search(
        colour_grid,
        actual_solution,
        banned_colours,
        size,
        start,
    );
    let ghost visited = visited_g@;
    let ghost depth = depth_g@;
    // no reachable unbanned colour: nothing to propagate
    let end = match found {
        Some(e) => e,
        None => {
            return ;
        },
    };
    // walk the parent chain back to the conflict cell, repainting it; the
    // painted cells bridge the conflict cell into the found cell's region
    let ghost er = row_of(sz, end as int);
    let ghost ec = col_of(sz, end as int);
    proof {
        crate::board::lemma_flat_coords(sz, end as int);
        assert(!(er == sr && ec == sc)) by {
            if er == sr && ec == sc {
                assert(cell_idx(sz, er, ec) == cell_idx(sz, sr, sc));
            }
        }
    }
    let clr = colour_grid[end as usize];
    let mut current = end;
    let ghost mut bridge: Seq<(int, int)> = seq![(er, ec)];
    proof {
        assert(path_ok(colour_grid@, sz, bridge, clr));
    }
    while current != start
        invariant
            n == size * size,
            sz == size as int,
            g0.len() == n,
            q.len() == n,
            colour_grid@.len() == n,
            current < n,
            end < n,
            start < n,
            sr == row_of(sz, start as int),
            sc == col_of(sz, start as int),
            in_bounds(sz, sr, sc),
            cell_idx(sz, sr, sc) == start as int,
            er == row_of(sz, end as int),
            ec == col_of(sz, end as int),
            in_bounds(sz, er, ec),
            cell_idx(sz, er, ec) == end as int,
            q[end as int] != 1,
            g0[end as int] == clr,
            colour_grid@[end as int] == clr,
            !banned_colours@.contains(clr),
            q == actual_solution@,
            search_tree_ok(visited, parent@, depth, q, sz, start as int),
            visited[current as int],
            depth[current as int] <= depth[end as int],
            path_ok(colour_grid@, sz, bridge, clr),
            bridge[0] == (er, ec),
            bridge[bridge.len() - 1] == (row_of(sz, current as int), col_of(sz, current as int)),
            current == start ==> colour_grid@[start as int] == clr,
            forall|i: int|
                0 <= i < n ==> #[trigger] colour_grid@[i] == g0[i] || (q[i] != 1
                    && colour_grid@[i] == clr && exists|k: int|
                    0 <= k < bridge.len() && cell_idx(
                        sz,
                        (#[trigger] bridge[k]).0,
                        bridge[k].1,
                    ) == i),
        decreases depth[current as int],
    {
        let prev = parent[current as usize];
        proof {
            assert(visited[prev as int]);
            assert(q[prev as int] != 1);
            assert(depth[prev as int] < depth[current as int]);
            assert(prev != end) by {
                if prev == end {
                    assert(depth[prev as int] >= depth[current as int]);
                }
            }
        }
        let ghost cg_pre = colour_grid@;
        colour_grid[prev as usize] = clr;
        proof {
            crate::board::lemma_flat_coords(sz, prev as int);
            let pr = row_of(sz, prev as int);
            let pc = col_of(sz, prev as int);
            let bridge_pre = bridge;
            bridge = bridge.push((pr, pc));
            // existing cells of the colour keep it, so the bridge so far
            // survives the one repainted cell
            assert forall|ar: int, ac: int|
                in_bounds(sz, ar, ac) && cg_pre[cell_idx(sz, ar, ac)] == clr
                    implies colour_grid@[#[trigger] cell_idx(sz, ar, ac)] == clr by {
                crate::board::lemma_cell_idx_bounds(sz, ar, ac);
            }
            assert(colour_grid@[cell_idx(sz, pr, pc)] == clr);
            assert(path_ok(colour_grid@, sz, bridge, clr)) by {
                assert(forall|k: int| 0 <= k < bridge_pre.len() ==> bridge[k] == bridge_pre[k]);
                assert(bridge[bridge.len() - 1] == (pr, pc));
                assert forall|k: int|
                    1 <= k < bridge.len() implies colour_grid@[cell_idx(
                    sz,
                    (#[trigger] bridge[k]).0,
                    bridge[k].1,
                )] == clr by {
                    if k < bridge_pre.len() {
                        assert(cg_pre[cell_idx(sz, bridge_pre[k].0, bridge_pre[k].1)] == clr);
                    }
                }
                assert forall|k: int|
                    1 <= k < bridge.len() implies step_adjacent(
                    bridge[k - 1],
                    #[trigger] bridge[k],
                ) by {
                    if k < bridge_pre.len() {
                        assert(step_adjacent(bridge_pre[k - 1], bridge_pre[k]));
                    } else {
                        assert(bridge[k - 1] == (
                            row_of(sz, current as int),
                            col_of(sz, current as int),
                        ));
                    }
                }
            }
            assert(colour_grid@[end as int] == clr) by {
                assert(cg_pre[end as int] == clr);
            }
            assert forall|i: int|
                0 <= i < n implies #[trigger] colour_grid@[i] == g0[i] || (q[i] != 1
                && colour_grid@[i] == clr && exists|k: int|
                0 <= k < bridge.len() && cell_idx(sz, (#[trigger] bridge[k]).0, bridge[k].1)
                    == i) by {
                if colour_grid@[i] != g0[i] {
                    if i == prev as int {
                        assert(cell_idx(sz, bridge[bridge.len() - 1].0, bridge[bridge.len() - 1].1)
                            == i);
                    } else {
                        assert(cg_pre[i] == colour_grid@[i]);
                        let k = choose|k: int|
                            0 <= k < bridge_pre.len() && cell_idx(
                            sz,
                            (#[trigger] bridge_pre[k]).0,
                            bridge_pre[k].1,
                            ) == i;
                        assert(bridge[k] == bridge_pre[k]);
                    }
                }
            }
        }
        current = prev;
    }
    proof {
        assert(reachable_unbanned(g0, q, banned_colours@, sz, sr, sc)) by {
            assert(in_bounds(sz, er, ec) && !(er == sr && ec == sc) && queen_free_reaches(
                q,
                sz,
                sr,
                sc,
                er,
                ec,
            ) && !banned_colours@.contains(g0[cell_idx(sz, er, ec)]));
        }
        assert(conflict_resolved(g0, colour_grid@, q, banned_colours@, sz, sr, sc)) by {
            assert(row_of(sz, current as int) == sr && col_of(sz, current as int) == sc);
            assert(bridge[bridge.len() - 1] == (sr, sc));
            assert(reaches(colour_grid@, sz, er, ec, sr, sc, clr)) by {
                assert(path_ok(colour_grid@, sz, bridge, clr) && bridge[0] == (er, ec)
                    && bridge[bridge.len() - 1] == (sr, sc));
            }
            assert(in_bounds(sz, er, ec) && !(er == sr && ec == sc) && queen_free_reaches(
                q,
                sz,
                sr,
                sc,
                er,
                ec,
            ) && !banned_colours@.contains(clr) && g0[cell_idx(sz, er, ec)] == clr
                && colour_grid@[cell_idx(sz, er, ec)] == clr && colour_grid@[cell_idx(
                sz,
                sr,
                sc,
            )] == clr && reaches(colour_grid@, sz, er, ec, sr, sc, clr) && path_ok(
                colour_grid@,
                sz,
                bridge,
                clr,
            ) && bridge[0] == (er, ec) && bridge[bridge.len() - 1] == (sr, sc));
        }
    }
}

/// Some cell of the block of unassigned cells around `(r, c)` has an
/// orthogonal neighbour carrying `cl`.
pub open spec fn colour_adjacent_to_block(g: Seq<u32>, size: int, r: int, c: int, cl: u32) -> bool {
    exists|br: int, bc: int, ar: int, ac: int|
        #![trigger cell_idx(size, br, bc), cell_idx(size, ar, ac)]
        in_bounds(size, br, bc) && in_bounds(size, ar, ac) && reaches(g, size, r, c, br, bc, 0u32)
            && step_adjacent((br, bc), (ar, ac)) && g[cell_idx(size, ar, ac)] == cl
}

/// No cell of the block of unassigned cells around `(r, c)` lists `cl` as
/// banned.
pub open spec fn block_allows(
    g: Seq<u32>,
    conflict: Seq<Vec<u32>>,
    size: int,
    r: int,
    c: int,
    cl: u32,
) -> bool {
    forall|br: int, bc: int|
        in_bounds(size, br, bc) && #[trigger] reaches(g, size, r, c, br, bc, 0u32)
            ==> !conflict[cell_idx(size, br, bc)]@.contains(cl)
}

/// An admissible paint for the block around `(r, c)`: a real colour on a
/// cell bordering the block that no cell of the block bans.
pub open spec fn block_admissible(
    g: Seq<u32>,
    conflict: Seq<Vec<u32>>,
    size: int,
    r: int,
    c: int,
    cl: u32,
) -> bool {
    cl != 0 && colour_adjacent_to_block(g, size, r, c, cl) && block_allows(
        g,
        conflict,
        size,
        r,
        c,
        cl,
    )
}

/// The whole block of `(r, c)`, taken in the starting grid `g0`, carries
/// one admissible colour in the result `g1`.
pub open spec fn block_painted(
    g0: Seq<u32>,
    g1: Seq<u32>,
    conflict: Seq<Vec<u32>>,
    size: int,
    r: int,
    c: int,
) -> bool {
    exists|cl: u32|
        #[trigger] block_admissible(g0, conflict, size, r, c, cl) && (forall|br: int, bc: int|
            in_bounds(size, br, bc) && #[trigger] reaches(g0, size, r, c, br, bc, 0u32)
                ==> g1[cell_idx(size, br, bc)] == cl)
}

/// Cells change only from unassigned, to a real colour not banned for them
/// and present somewhere on the starting board.
#[verifier::opaque]
spec fn cells_framed(g0: Seq<u32>, cur: Seq<u32>, conflict: Seq<Vec<u32>>) -> bool {
    forall|i: int|
        0 <= i < cur.len() && #[trigger] cur[i] != g0[i] ==> g0[i] == 0 && cur[i] != 0
            && !conflict[i]@.contains(cur[i]) && (exists|j: int|
            0 <= j < g0.len() && #[trigger] g0[j] == cur[i])
}

/// Each block of unassigned cells of the starting grid is untouched or
/// painted whole.
#[verifier::opaque]
spec fn blocks_whole(g0: Seq<u32>, cur: Seq<u32>, size: int) -> bool {
    forall|r: int, c: int, r2: int, c2: int|
        #![trigger reaches(g0, size, r, c, r2, c2, 0u32)]
        in_bounds(size, r, c) && in_bounds(size, r2, c2) && g0[cell_idx(size, r, c)] == 0
            && reaches(g0, size, r, c, r2, c2, 0u32) ==> ((cur[cell_idx(size, r, c)] == 0) <==> (
        cur[cell_idx(size, r2, c2)] == 0))
}

/// Every changed cell sits in a block painted whole with one admissible
/// colour.
#[verifier::opaque]
spec fn blocks_painted(g0: Seq<u32>, cur: Seq<u32>, conflict: Seq<Vec<u32>>, size: int) -> bool {
    forall|r: int, c: int|
        in_bounds(size, r, c) && cur[#[trigger] cell_idx(size, r, c)] != g0[cell_idx(size, r, c)]
            ==> block_painted(g0, cur, conflict, size, r, c)
}

/// A walk through unassigned cells of `g0` whose start is unassigned in the
/// current grid stays unassigned throughout, provided blocks are painted
/// whole; so the walk is valid in the current grid too.
proof fn lemma_zero_reach_transfer(
    g0: Seq<u32>,
    cur: Seq<u32>,
    size: int,
    r: int,
    c: int,
    r2: int,
    c2: int,
)
    requires
        g0.len() == size * size,
        cur.len() == size * size,
        reaches(g0, size, r, c, r2, c2, 0u32),
        forall|br: int, bc: int|
            in_bounds(size, br, bc) && #[trigger] reaches(g0, size, r, c, br, bc, 0u32)
                ==> cur[cell_idx(size, br, bc)] == 0,
    ensures
        reaches(cur, size, r, c, r2, c2, 0u32),
{
    let p = choose|p: Seq<(int, int)>|
        path_ok(g0, size, p, 0u32) && p[0] == (r, c) && p[p.len() - 1] == (r2, c2);
    lemma_path_cells_reachable(g0, size, p, 0u32);
    assert(path_ok(cur, size, p, 0u32)) by {
        assert forall|k: int|
            1 <= k < p.len() implies cur[cell_idx(size, (#[trigger] p[k]).0, p[k].1)] == 0 by {
            assert(reaches(g0, size, p[0].0, p[0].1, p[k].0, p[k].1, 0u32));
        }
    }
    assert(p[0] == (r, c) && p[p.len() - 1] == (r2, c2));
}

/// After the four unconditional neighbour visits of a flooded cell, every
/// in-bounds neighbour of that cell is visited.
proof fn lemma_all_neighbours_visited(visited: Seq<bool>, size: int, current: int, r: int, c: int)
    requires
        0 < size <= 65535,
        visited.len() == size * size,
        0 <= current < size * size,
        cell_idx(size, r, c) == current,
        0 <= c < size,
        0 <= r < size,
        current >= size ==> visited[current - size],
        current + size < size * size ==> visited[current + size],
        c > 0 ==> visited[current - 1],
        c + 1 < size ==> visited[current + 1],
    ensures
        forall|nr: int, nc: int|
            in_bounds(size, nr, nc) && step_adjacent((r, c), (nr, nc)) ==> visited[
                #[trigger] cell_idx(size, nr, nc)],
{
    assert forall|nr: int, nc: int|
        in_bounds(size, nr, nc) && step_adjacent((r, c), (nr, nc)) implies visited[
        #[trigger] cell_idx(size, nr, nc)] by {
        crate::board::lemma_cell_idx_bounds(size, nr, nc);
        if nr == r - 1 && nc == c {
            assert(cell_idx(size, nr, nc) == current - size && current >= size)
                by (nonlinear_arith)
                requires
                    size > 0,
                    nr >= 0,
                    nr == r - 1,
                    nc == c,
                    0 <= c,
                    current == r * size + c,
            ;
        } else if nr == r + 1 && nc == c {
            assert(cell_idx(size, nr, nc) == current + size) by (nonlinear_arith)
                requires
                    nr == r + 1,
                    nc == c,
                    current == r * size + c,
            ;
        } else if nr == r && nc == c - 1 {
            assert(cell_idx(size, nr, nc) == current - 1) by (nonlinear_arith)
                requires
                    nr == r,
                    nc == c - 1,
                    current == r * size + c,
            ;
        } else {
            assert(nr == r && nc == c + 1);
            assert(cell_idx(size, nr, nc) == current + 1) by (nonlinear_arith)
                requires
                    nr == r,
                    nc == c + 1,
                    current == r * size + c,
            ;
        }
    }
}

/// The flood state while a block of unassigned cells is being gathered:
/// queued cells are unassigned, visited and reachable from the block's
/// first cell, and every colour seen on a visited cell is collected.
spec fn fill_state_ok(
    cur: Seq<u32>,
    size: int,
    start: int,
    visited: Seq<bool>,
    queue: Seq<u32>,
    possible: Seq<u32>,
) -> bool {
    &&& visited.len() == size * size
    &&& cur.len() == size * size
    &&& 0 <= start < size * size
    &&& cur[start] == 0
    &&& visited[start]
    &&& forall|j: int|
        0 <= j < queue.len() ==> (#[trigger] queue[j]) < size * size && cur[queue[j] as int] == 0
            && visited[queue[j] as int] && reaches(
            cur,
            size,
            row_of(size, start),
            col_of(size, start),
            row_of(size, queue[j] as int),
            col_of(size, queue[j] as int),
            0u32,
        )
    &&& forall|i: int|
        0 <= i < size * size && #[trigger] visited[i] && cur[i] == 0 ==> exists|j: int|
            0 <= j < queue.len() && (#[trigger] queue[j]) as int == i
    &&& forall|i: int|
        0 <= i < size * size && #[trigger] visited[i] && cur[i] != 0 ==> possible.contains(cur[i])
    &&& forall|k: int|
        0 <= k < possible.len() ==> (#[trigger] possible[k]) != 0 && colour_adjacent_to_block(
            cur,
            size,
            row_of(size, start),
            col_of(size, start),
            possible[k],
        )
}

/// Visit one neighbour of a flooded unassigned cell: queue it if it is
/// unassigned, collect its colour otherwise.
#[verifier::rlimit(100)]
fn fill_visit(
    colour_grid: &Vec<u32>,
    visited: &mut Vec<bool>,
    queue: &mut Vec<u32>,
    possible: &mut Vec<u32>,
    size: u32,
    start: u32,
    current: u32,
    next: u32,
)
    requires
        size_ok(size),
        0 < size,
        colour_grid@.len() == size * size,
        current < size * size,
        next < size * size,
        colour_grid@[current as int] == 0,
        reaches(
            colour_grid@,
            size as int,
            row_of(size as int, start as int),
            col_of(size as int, start as int),
            row_of(size as int, current as int),
            col_of(size as int, current as int),
            0u32,
        ),
        step_adjacent(
            (row_of(size as int, current as int), col_of(size as int, current as int)),
            (row_of(size as int, next as int), col_of(size as int, next as int)),
        ),
        fill_state_ok(
            colour_grid@,
            size as int,
            start as int,
            old(visited)@,
            old(queue)@,
            old(possible)@,
        ),
    ensures
        fill_state_ok(
            colour_grid@,
            size as int,
            start as int,
            final(visited)@,
            final(queue)@,
            final(possible)@,
        ),
        final(visited)@.len() == old(visited)@.len(),
        forall|i: int| 0 <= i < old(visited)@.len() && old(visited)@[i] ==> final(visited)@[i],
        final(queue)@.len() >= old(queue)@.len(),
        forall|j: int| 0 <= j < old(queue)@.len() ==> final(queue)@[j] == old(queue)@[j],
        final(visited)@[next as int],
        count_false(final(visited)@) <= count_false(old(visited)@),
        final(queue)@.len() > old(queue)@.len() ==> count_false(final(visited)@) < count_false(
            old(visited)@,
        ),
        count_false(final(visited)@) == count_false(old(visited)@) ==> final(visited)@ == old(
            visited,
        )@ && final(queue)@ == old(queue)@ && final(possible)@ == old(possible)@,
{
    proof {
        lemma_size_ok_bound(size);
        crate::board::lemma_flat_coords(size as int, next as int);
    }
    let ghost sz = size as int;
    if !visited[next as usize] {
        let ghost vp = visited@;
        let ghost qp = queue@;
        visited[next as usize] = true;
        proof {
            lemma_count_false_mark(vp, next as int);
        }
        let v = colour_grid[next as usize];
        if v == 0 {
            queue.push(next);
            proof {
                lemma_reaches_step(
                    colour_grid@,
                    sz,
                    row_of(sz, start as int),
                    col_of(sz, start as int),
                    row_of(sz, current as int),
                    col_of(sz, current as int),
                    row_of(sz, next as int),
                    col_of(sz, next as int),
                    0u32,
                );
                assert(queue@[qp.len() as int] == next);
                assert forall|i: int|
                    0 <= i < sz * sz && #[trigger] visited@[i] && colour_grid@[i]
                        == 0 implies exists|j: int|
                    0 <= j < queue@.len() && (#[trigger] queue@[j]) as int == i by {
                    if i == next as int {
                        assert((queue@[qp.len() as int]) as int == i);
                    } else {
                        assert(vp[i]);
                        let j = choose|j: int|
                            0 <= j < qp.len() && (#[trigger] qp[j]) as int == i;
                        assert(queue@[j] == qp[j]);
                    }
                }
            }
        } else {
            let already = contains_colour(possible, v);
            if !already {
                let ghost pp = possible@;
                possible.push(v);
                proof {
                    assert(possible@[pp.len() as int] == v);
                    crate::board::lemma_flat_coords(sz, current as int);
                    crate::board::lemma_flat_coords(sz, next as int);
                    let br = row_of(sz, current as int);
                    let bc = col_of(sz, current as int);
                    let ar = row_of(sz, next as int);
                    let ac = col_of(sz, next as int);
                    assert(cell_idx(sz, ar, ac) == next as int);
                    assert(colour_grid@[cell_idx(sz, ar, ac)] == v);
                    assert(in_bounds(sz, br, bc) && in_bounds(sz, ar, ac) && reaches(
                        colour_grid@,
                        sz,
                        row_of(sz, start as int),
                        col_of(sz, start as int),
                        br,
                        bc,
                        0u32,
                    ) && step_adjacent((br, bc), (ar, ac)) && colour_grid@[cell_idx(sz, ar, ac)]
                        == v);
                    assert(colour_adjacent_to_block(
                        colour_grid@,
                        sz,
                        row_of(sz, start as int),
                        col_of(sz, start as int),
                        v,
                    ));
                    assert forall|i: int|
                        0 <= i < sz * sz && #[trigger] visited@[i] && colour_grid@[i]
                            != 0 implies possible@.contains(colour_grid@[i]) by {
                        if i != next as int {
                            assert(pp.contains(colour_grid@[i]));
                            let k = choose|k: int|
                                0 <= k < pp.len() && pp[k] == colour_grid@[i];
                            assert(possible@[k] == pp[k]);
                        } else {
                            assert(possible@[pp.len() as int] == v);
                        }
                    }
                }
            } else {
                proof {
                    assert forall|i: int|
                        0 <= i < sz * sz && #[trigger] visited@[i] && colour_grid@[i]
                            != 0 implies possible@.contains(colour_grid@[i]) by {
                        if i != next as int {
                            assert(vp[i]);
                        }
                    }
                }
            }
        }
    }
}

/// Visit the four neighbours of a flooded unassigned cell.
#[verifier::rlimit(100)]
fn fill_expand(
    colour_grid: &Vec<u32>,
    visited: &mut Vec<bool>,
    queue: &mut Vec<u32>,
    possible: &mut Vec<u32>,
    size: u32,
    start: u32,
    current: u32,
)
    requires
        size_ok(size),
        0 < size,
        colour_grid@.len() == size * size,
        current < size * size,
        colour_grid@[current as int] == 0,
        reaches(
            colour_grid@,
            size as int,
            row_of(size as int, start as int),
            col_of(size as int, start as int),
            row_of(size as int, current as int),
            col_of(size as int, current as int),
            0u32,
        ),
        fill_state_ok(
            colour_grid@,
            size as int,
            start as int,
            old(visited)@,
            old(queue)@,
            old(possible)@,
        ),
    ensures
        fill_state_ok(
            colour_grid@,
            size as int,
            start as int,
            final(visited)@,
            final(queue)@,
            final(possible)@,
        ),
        final(visited)@.len() == old(visited)@.len(),
        forall|i: int| 0 <= i < old(visited)@.len() && old(visited)@[i] ==> final(visited)@[i],
        final(queue)@.len() >= old(queue)@.len(),
        forall|j: int| 0 <= j < old(queue)@.len() ==> final(queue)@[j] == old(queue)@[j],
        count_false(final(visited)@) <= count_false(old(visited)@),
        final(queue)@.len() > old(queue)@.len() ==> count_false(final(visited)@) < count_false(
            old(visited)@,
        ),
        count_false(final(visited)@) == count_false(old(visited)@) ==> final(visited)@ == old(
            visited,
        )@ && final(queue)@ == old(queue)@,
        forall|nr: int, nc: int|
            in_bounds(size as int, nr, nc) && step_adjacent(
                (row_of(size as int, current as int), col_of(size as int, current as int)),
                (nr, nc),
            ) ==> final(visited)@[#[trigger] cell_idx(size as int, nr, nc)],
{
    proof {
        lemma_size_ok_bound(size);
    }
    let n = size * size;
    let ghost sz = size as int;
    let r = current / size;
    let c = current % size;
    proof {
        lemma_neighbour_coords(sz, current as int);
        assert(row_of(sz, current as int) == r as int && col_of(sz, current as int) == c as int);
        assert(current as int + size as int <= 0xffff_ffff) by (nonlinear_arith)
            requires
                size <= 65535,
                current < n,
                n == size * size,
        ;
    }
    if current >= size {
        fill_visit(colour_grid, visited, queue, possible, size, start, current, current - size);
    }
    if current + size < n {
        fill_visit(colour_grid, visited, queue, possible, size, start, current, current + size);
    }
    if c > 0 {
        fill_visit(colour_grid, visited, queue, possible, size, start, current, current - 1);
    }
    if c + 1 < size {
        fill_visit(colour_grid, visited, queue, possible, size, start, current, current + 1);
    }
    proof {
        lemma_all_neighbours_visited(visited@, sz, current as int, r as int, c as int);
    }
}

/// For a cell unassigned in the current grid, its block of unassigned
/// cells in the starting grid and in the current grid coincide.
proof fn lemma_same_block(g0: Seq<u32>, cur: Seq<u32>, size: int, r: int, c: int)
    requires
        0 < size,
        g0.len() == size * size,
        cur.len() == size * size,
        forall|i: int| 0 <= i < cur.len() && #[trigger] cur[i] == 0 ==> g0[i] == 0,
        blocks_whole(g0, cur, size),
        in_bounds(size, r, c),
        cur[cell_idx(size, r, c)] == 0,
    ensures
        forall|br: int, bc: int|
            in_bounds(size, br, bc) ==> (reaches(cur, size, r, c, br, bc, 0u32)
                <==> #[trigger] reaches(g0, size, r, c, br, bc, 0u32)),
{
    reveal(blocks_whole);
    crate::board::lemma_cell_idx_bounds(size, r, c);
    assert forall|br: int, bc: int|
        in_bounds(size, br, bc) implies (reaches(cur, size, r, c, br, bc, 0u32)
        <==> #[trigger] reaches(g0, size, r, c, br, bc, 0u32)) by {
        if reaches(cur, size, r, c, br, bc, 0u32) {
            assert forall|ar: int, ac: int|
                in_bounds(size, ar, ac) && cur[cell_idx(size, ar, ac)] == 0u32 implies g0[
            #[trigger] cell_idx(size, ar, ac)] == 0u32 by {
                crate::board::lemma_cell_idx_bounds(size, ar, ac);
            }
            lemma_reaches_mono(cur, g0, size, r, c, br, bc, 0u32);
        }
        if reaches(g0, size, r, c, br, bc, 0u32) {
            assert(g0[cell_idx(size, r, c)] == 0);
            assert forall|ar: int, ac: int|
                in_bounds(size, ar, ac) && #[trigger] reaches(g0, size, r, c, ar, ac, 0u32)
                    implies cur[cell_idx(size, ar, ac)] == 0 by {
                assert((cur[cell_idx(size, r, c)] == 0) <==> (cur[cell_idx(size, ar, ac)] == 0));
            }
            lemma_zero_reach_transfer(g0, cur, size, r, c, br, bc);
        }
    }
}

/// Every processed queue entry has all its neighbours visited.
spec fn fill_processed(size: int, queue: Seq<u32>, upto: int, visited: Seq<bool>) -> bool {
    forall|j: int, nr: int, nc: int|
        #![trigger queue[j], cell_idx(size, nr, nc)]
        0 <= j < upto && j < queue.len() && in_bounds(size, nr, nc) && step_adjacent(
            (row_of(size, queue[j] as int), col_of(size, queue[j] as int)),
            (nr, nc),
        ) ==> visited[cell_idx(size, nr, nc)]
}

proof fn lemma_fill_processed_step(
    size: int,
    queue0: Seq<u32>,
    queue1: Seq<u32>,
    visited0: Seq<bool>,
    visited1: Seq<bool>,
    head: int,
    current: u32,
)
    requires
        0 < size,
        visited0.len() == size * size,
        visited1.len() == size * size,
        fill_processed(size, queue0, head, visited0),
        queue1.len() >= queue0.len(),
        forall|j: int| 0 <= j < queue0.len() ==> queue1[j] == queue0[j],
        0 <= head < queue0.len(),
        queue0[head] == current,
        (current as int) < size * size,
        forall|i: int| 0 <= i < size * size && visited0[i] ==> visited1[i],
        forall|nr: int, nc: int|
            in_bounds(size, nr, nc) && step_adjacent(
                (row_of(size, current as int), col_of(size, current as int)),
                (nr, nc),
            ) ==> visited1[#[trigger] cell_idx(size, nr, nc)],
    ensures
        fill_processed(size, queue1, head + 1, visited1),
{
    assert forall|j: int, nr: int, nc: int|
        #![trigger queue1[j], cell_idx(size, nr, nc)]
        0 <= j < head + 1 && j < queue1.len() && in_bounds(size, nr, nc) && step_adjacent(
            (row_of(size, queue1[j] as int), col_of(size, queue1[j] as int)),
            (nr, nc),
        ) implies visited1[cell_idx(size, nr, nc)] by {
        crate::board::lemma_cell_idx_bounds(size, nr, nc);
        if j < head {
            assert(queue1[j] == queue0[j]);
            assert(visited0[cell_idx(size, nr, nc)]);
        } else {
            assert(queue1[j] == current);
        }
    }
}

/// Painting a gathered block with an admissible bordering colour keeps the
/// filling well formed: the frame, the all-or-nothing block discipline, and
/// the block-painted record all carry over.
#[verifier::rlimit(100)]
proof fn lemma_block_paint(
    g0: Seq<u32>,
    cur: Seq<u32>,
    cur2: Seq<u32>,
    conflict: Seq<Vec<u32>>,
    size: int,
    start: int,
    region: Seq<u32>,
    cl: u32,
)
    requires
        0 < size <= 65535,
        g0.len() == size * size,
        cur.len() == size * size,
        cur2.len() == size * size,
        conflict.len() == size * size,
        cells_framed(g0, cur, conflict),
        blocks_whole(g0, cur, size),
        blocks_painted(g0, cur, conflict, size),
        0 <= start < size * size,
        cur[start] == 0,
        forall|j: int|
            0 <= j < region.len() ==> (#[trigger] region[j]) < size * size && cur[region[j] as int]
                == 0 && reaches(
                cur,
                size,
                row_of(size, start),
                col_of(size, start),
                row_of(size, region[j] as int),
                col_of(size, region[j] as int),
                0u32,
            ),
        forall|br: int, bc: int|
            in_bounds(size, br, bc) && #[trigger] reaches(
                cur,
                size,
                row_of(size, start),
                col_of(size, start),
                br,
                bc,
                0u32,
            ) ==> exists|j: int|
                0 <= j < region.len() && (#[trigger] region[j]) as int == cell_idx(size, br, bc),
        cl != 0,
        colour_adjacent_to_block(cur, size, row_of(size, start), col_of(size, start), cl),
        forall|j: int|
            0 <= j < region.len() ==> !conflict[(#[trigger] region[j]) as int]@.contains(cl),
        forall|i: int|
            0 <= i < size * size ==> #[trigger] cur2[i] == cur[i] || (cur2[i] == cl && exists|
                j: int,
            | 0 <= j < region.len() && (#[trigger] region[j]) as int == i),
        forall|j: int| 0 <= j < region.len() ==> cur2[(#[trigger] region[j]) as int] == cl,
    ensures
        cells_framed(g0, cur2, conflict),
        blocks_whole(g0, cur2, size),
        blocks_painted(g0, cur2, conflict, size),
{
    reveal(cells_framed);
    reveal(blocks_whole);
    reveal(blocks_painted);
    let rs = row_of(size, start);
    let cs = col_of(size, start);
    crate::board::lemma_flat_coords(size, start);
    assert forall|i: int|
        0 <= i < cur.len() && #[trigger] cur[i] == 0 implies g0[i] == 0 by {}
    lemma_same_block(g0, cur, size, rs, cs);
    assert(g0[cell_idx(size, rs, cs)] == 0);
    // the region is exactly the block of `start`, in both grids
    assert forall|br: int, bc: int|
        in_bounds(size, br, bc) && #[trigger] reaches(g0, size, rs, cs, br, bc, 0u32)
            implies cur2[cell_idx(size, br, bc)] == cl && (exists|j: int|
        0 <= j < region.len() && (#[trigger] region[j]) as int == cell_idx(size, br, bc)) by {
        assert(reaches(cur, size, rs, cs, br, bc, 0u32));
    }
    // membership of a cell in the start block, by coordinates
    assert forall|j: int| 0 <= j < region.len() implies reaches(
        g0,
        size,
        rs,
        cs,
        row_of(size, region[j] as int),
        col_of(size, region[j] as int),
        0u32,
    ) && in_bounds(size, row_of(size, region[j] as int), col_of(size, region[j] as int)) by {
        crate::board::lemma_flat_coords(size, region[j] as int);
    }
    // frame
    assert(cells_framed(g0, cur2, conflict)) by {
        assert forall|i: int|
            0 <= i < cur2.len() && #[trigger] cur2[i] != g0[i] implies g0[i] == 0 && cur2[i] != 0
            && !conflict[i]@.contains(cur2[i]) && (exists|j: int|
            0 <= j < g0.len() && #[trigger] g0[j] == cur2[i]) by {
            if cur2[i] == cur[i] {
            } else {
                let j = choose|j: int|
                    0 <= j < region.len() && (#[trigger] region[j]) as int == i;
                assert(cur[i] == 0);
                assert(!conflict[i]@.contains(cl));
                let (br, bc, ar, ac) = choose|br: int, bc: int, ar: int, ac: int|
                    #![trigger cell_idx(size, br, bc), cell_idx(size, ar, ac)]
                    in_bounds(size, br, bc) && in_bounds(size, ar, ac) && reaches(
                        cur,
                        size,
                        rs,
                        cs,
                        br,
                        bc,
                        0u32,
                    ) && step_adjacent((br, bc), (ar, ac)) && cur[cell_idx(size, ar, ac)] == cl;
                crate::board::lemma_cell_idx_bounds(size, ar, ac);
                if cur[cell_idx(size, ar, ac)] == g0[cell_idx(size, ar, ac)] {
                    assert(g0[cell_idx(size, ar, ac)] == cl);
                } else {
                    assert(exists|j2: int|
                        0 <= j2 < g0.len() && #[trigger] g0[j2] == cur[cell_idx(size, ar, ac)]);
                }
            }
        }
    }
    // all-or-nothing blocks
    assert(blocks_whole(g0, cur2, size)) by {
        assert forall|r: int, c: int, r2: int, c2: int|
            #![trigger reaches(g0, size, r, c, r2, c2, 0u32)]
            in_bounds(size, r, c) && in_bounds(size, r2, c2) && g0[cell_idx(size, r, c)] == 0
                && reaches(g0, size, r, c, r2, c2, 0u32) implies ((cur2[cell_idx(size, r, c)]
            == 0) <==> (cur2[cell_idx(size, r2, c2)] == 0)) by {
            crate::board::lemma_cell_idx_bounds(size, r, c);
            crate::board::lemma_cell_idx_bounds(size, r2, c2);
            if reaches(g0, size, rs, cs, r, c, 0u32) {
                // the pair lies in the painted block
                lemma_reaches_trans(g0, size, rs, cs, r, c, r2, c2, 0u32);
                assert(cur2[cell_idx(size, r, c)] == cl);
                assert(cur2[cell_idx(size, r2, c2)] == cl);
            } else {
                // the pair lies in an untouched block
                assert(cur2[cell_idx(size, r, c)] == cur[cell_idx(size, r, c)]) by {
                    if cur2[cell_idx(size, r, c)] != cur[cell_idx(size, r, c)] {
                        let j = choose|j: int|
                            0 <= j < region.len() && (#[trigger] region[j]) as int == cell_idx(
                            size,
                            r,
                            c,
                            );
                        crate::board::lemma_coords_flat(size, r, c);
                        lemma_reaches_symm(g0, size, r, c, rs, cs, 0u32);
                        assert(reaches(g0, size, r, c, rs, cs, 0u32));
                        assert(reaches(g0, size, rs, cs, r, c, 0u32)) by {
                            lemma_reaches_symm(g0, size, r, c, rs, cs, 0u32);
                        }
                    }
                }
                assert(cur2[cell_idx(size, r2, c2)] == cur[cell_idx(size, r2, c2)]) by {
                    if cur2[cell_idx(size, r2, c2)] != cur[cell_idx(size, r2, c2)] {
                        let j = choose|j: int|
                            0 <= j < region.len() && (#[trigger] region[j]) as int == cell_idx(
                            size,
                            r2,
                            c2,
                            );
                        crate::board::lemma_coords_flat(size, r2, c2);
                        assert(reaches(g0, size, rs, cs, r2, c2, 0u32));
                        lemma_reaches_symm(g0, size, rs, cs, r2, c2, 0u32);
                        assert(reaches(g0, size, r2, c2, rs, cs, 0u32));
                        lemma_reaches_trans(g0, size, r, c, r2, c2, rs, cs, 0u32);
                        assert(reaches(g0, size, r, c, rs, cs, 0u32));
                        lemma_reaches_symm(g0, size, r, c, rs, cs, 0u32);
                    }
                }
            }
        }
    }
    // block-painted record
    assert(blocks_painted(g0, cur2, conflict, size)) by {
        assert forall|r: int, c: int|
            in_bounds(size, r, c) && cur2[#[trigger] cell_idx(size, r, c)] != g0[cell_idx(
                size,
                r,
                c,
            )] implies block_painted(g0, cur2, conflict, size, r, c) by {
            crate::board::lemma_cell_idx_bounds(size, r, c);
            if cur2[cell_idx(size, r, c)] == cur[cell_idx(size, r, c)] {
                // painted in an earlier pass: its block is untouched now
                assert(block_painted(g0, cur, conflict, size, r, c));
                let clw = choose|clw: u32|
                    #[trigger] block_admissible(g0, conflict, size, r, c, clw) && (forall|
                        br: int,
                        bc: int,
                    |
                        in_bounds(size, br, bc) && #[trigger] reaches(
                            g0,
                            size,
                            r,
                            c,
                            br,
                            bc,
                            0u32,
                        ) ==> cur[cell_idx(size, br, bc)] == clw);
                assert forall|br: int, bc: int|
                    in_bounds(size, br, bc) && #[trigger] reaches(g0, size, r, c, br, bc, 0u32)
                        implies cur2[cell_idx(size, br, bc)] == clw by {
                    crate::board::lemma_cell_idx_bounds(size, br, bc);
                    assert(cur[cell_idx(size, br, bc)] == clw);
                    if cur2[cell_idx(size, br, bc)] != cur[cell_idx(size, br, bc)] {
                        let j = choose|j: int|
                            0 <= j < region.len() && (#[trigger] region[j]) as int == cell_idx(
                            size,
                            br,
                            bc,
                            );
                        assert(cur[cell_idx(size, br, bc)] == 0);
                        assert(clw != 0);
                    }
                }
                assert(block_painted(g0, cur2, conflict, size, r, c));
            } else {
                // painted in this pass: its block is the start block
                let j0 = choose|j: int|
                    0 <= j < region.len() && (#[trigger] region[j]) as int == cell_idx(size, r, c);
                crate::board::lemma_coords_flat(size, r, c);
                assert(reaches(g0, size, rs, cs, r, c, 0u32));
                lemma_reaches_symm(g0, size, rs, cs, r, c, 0u32);
                assert(reaches(g0, size, r, c, rs, cs, 0u32));
                // the chosen colour is admissible for this block too
                assert(colour_adjacent_to_block(g0, size, r, c, cl)) by {
                    let (br, bc, ar, ac) = choose|br: int, bc: int, ar: int, ac: int|
                        #![trigger cell_idx(size, br, bc), cell_idx(size, ar, ac)]
                        in_bounds(size, br, bc) && in_bounds(size, ar, ac) && reaches(
                            cur,
                            size,
                            rs,
                            cs,
                            br,
                            bc,
                            0u32,
                        ) && step_adjacent((br, bc), (ar, ac)) && cur[cell_idx(size, ar, ac)]
                            == cl;
                    assert(reaches(g0, size, rs, cs, br, bc, 0u32));
                    lemma_reaches_trans(g0, size, r, c, rs, cs, br, bc, 0u32);
                    assert(reaches(g0, size, r, c, br, bc, 0u32));
                    crate::board::lemma_cell_idx_bounds(size, ar, ac);
                    assert(g0[cell_idx(size, ar, ac)] == cl) by {
                        if g0[cell_idx(size, ar, ac)] != cur[cell_idx(size, ar, ac)] {
                            assert(g0[cell_idx(size, ar, ac)] == 0);
                            lemma_reaches_step(
                                g0,
                                size,
                                rs,
                                cs,
                                br,
                                bc,
                                ar,
                                ac,
                                0u32,
                            );
                            assert(reaches(g0, size, rs, cs, ar, ac, 0u32));
                            assert(cur2[cell_idx(size, ar, ac)] == cl);
                            assert(exists|j: int|
                                0 <= j < region.len() && (#[trigger] region[j]) as int == cell_idx(
                                size,
                                ar,
                                ac,
                                ));
                            assert(cur[cell_idx(size, ar, ac)] == 0);
                        }
                    }
                }
                assert(block_allows(g0, conflict, size, r, c, cl)) by {
                    assert forall|br: int, bc: int|
                        in_bounds(size, br, bc) && #[trigger] reaches(
                            g0,
                            size,
                            r,
                            c,
                            br,
                            bc,
                            0u32,
                        ) implies !conflict[cell_idx(size, br, bc)]@.contains(cl) by {
                        lemma_reaches_trans(g0, size, rs, cs, r, c, br, bc, 0u32);
                        let j = choose|j: int|
                            0 <= j < region.len() && (#[trigger] region[j]) as int == cell_idx(
                            size,
                            br,
                            bc,
                            );
                    }
                }
                assert(block_admissible(g0, conflict, size, r, c, cl));
                assert forall|br: int, bc: int|
                    in_bounds(size, br, bc) && #[trigger] reaches(g0, size, r, c, br, bc, 0u32)
                        implies cur2[cell_idx(size, br, bc)] == cl by {
                    lemma_reaches_trans(g0, size, rs, cs, r, c, br, bc, 0u32);
                }
                assert(block_painted(g0, cur2, conflict, size, r, c));
            }
        }
    }
}

/// After the flood has drained its queue, the queue holds exactly the
/// block of the first unassigned cell, and every colour bordering the
/// block was collected.
#[verifier::rlimit(100)]
proof fn lemma_flood_block_facts(
    cg: Seq<u32>,
    size: int,
    start: int,
    visited: Seq<bool>,
    queue: Seq<u32>,
    possible: Seq<u32>,
    head: int,
)
    requires
        0 < size <= 65535,
        cg.len() == size * size,
        0 <= start < size * size,
        fill_state_ok(cg, size, start, visited, queue, possible),
        fill_processed(size, queue, head, visited),
        head >= queue.len(),
    ensures
        forall|br: int, bc: int|
            in_bounds(size, br, bc) && #[trigger] reaches(
                cg,
                size,
                row_of(size, start),
                col_of(size, start),
                br,
                bc,
                0u32,
            ) ==> exists|j: int|
                0 <= j < queue.len() && (#[trigger] queue[j]) as int == cell_idx(size, br, bc),
        forall|cl: u32|
            cl != 0 && #[trigger] colour_adjacent_to_block(
                cg,
                size,
                row_of(size, start),
                col_of(size, start),
                cl,
            ) ==> possible.contains(cl),
{
    let rs = row_of(size, start);
    let cs = col_of(size, start);
    crate::board::lemma_flat_coords(size, start);
    let mask2 = Seq::new((size * size) as nat, |i2: int| visited[i2] && cg[i2] == 0);
    assert(colour_closed(cg, size, mask2, 0u32)) by {
        assert forall|ar: int, ac: int, br: int, bc: int|
            in_bounds(size, ar, ac) && in_bounds(size, br, bc) && step_adjacent(
                (ar, ac),
                (br, bc),
            ) && mask2[cell_idx(size, ar, ac)] && cg[cell_idx(size, br, bc)]
                == 0u32 implies mask2[cell_idx(size, br, bc)] by {
            crate::board::lemma_cell_idx_bounds(size, ar, ac);
            crate::board::lemma_cell_idx_bounds(size, br, bc);
            crate::board::lemma_coords_flat(size, ar, ac);
            let j = choose|j: int|
                0 <= j < queue.len() && (#[trigger] queue[j]) as int == cell_idx(size, ar, ac);
            assert(j < head);
            assert(visited[cell_idx(size, br, bc)]);
        }
    }
    assert(mask2[cell_idx(size, rs, cs)]);
    assert forall|br: int, bc: int|
        in_bounds(size, br, bc) && #[trigger] reaches(cg, size, rs, cs, br, bc, 0u32)
            implies exists|j: int|
        0 <= j < queue.len() && (#[trigger] queue[j]) as int == cell_idx(size, br, bc) by {
        lemma_reach_closed(cg, size, mask2, rs, cs, br, bc, 0u32);
        crate::board::lemma_cell_idx_bounds(size, br, bc);
    }
    assert forall|cl: u32|
        cl != 0 && #[trigger] colour_adjacent_to_block(cg, size, rs, cs, cl)
            implies possible.contains(cl) by {
        let (br, bc, ar, ac) = choose|br: int, bc: int, ar: int, ac: int|
            #![trigger cell_idx(size, br, bc), cell_idx(size, ar, ac)]
            in_bounds(size, br, bc) && in_bounds(size, ar, ac) && reaches(
                cg,
                size,
                rs,
                cs,
                br,
                bc,
                0u32,
            ) && step_adjacent((br, bc), (ar, ac)) && cg[cell_idx(size, ar, ac)] == cl;
        let j = choose|j: int|
            0 <= j < queue.len() && (#[trigger] queue[j]) as int == cell_idx(size, br, bc);
        assert(j < head);
        crate::board::lemma_coords_flat(size, br, bc);
        assert(visited[cell_idx(size, ar, ac)]);
        crate::board::lemma_cell_idx_bounds(size, ar, ac);
    }
}

/// When every collected colour is banned somewhere in the gathered block,
/// the first remaining block admits no colour at all.
#[verifier::rlimit(100)]
proof fn lemma_block_unpaintable(
    cg: Seq<u32>,
    conflict: Seq<Vec<u32>>,
    size: int,
    start: int,
    queue: Seq<u32>,
    possible: Seq<u32>,
)
    requires
        0 < size <= 65535,
        cg.len() == size * size,
        conflict.len() == size * size,
        0 <= start < size * size,
        cg[start] == 0,
        forall|i: int| 0 <= i < start ==> cg[i] != 0,
        fill_state_ok(cg, size, start, Seq::new((size * size) as nat, |i: int| true), queue, possible) || (forall|j: int|
            0 <= j < queue.len() ==> (#[trigger] queue[j]) < size * size && reaches(
                cg,
                size,
                row_of(size, start),
                col_of(size, start),
                row_of(size, queue[j] as int),
                col_of(size, queue[j] as int),
                0u32,
            )),
        forall|cl: u32|
            cl != 0 && #[trigger] colour_adjacent_to_block(
                cg,
                size,
                row_of(size, start),
                col_of(size, start),
                cl,
            ) ==> possible.contains(cl),
        forall|k: int|
            #![trigger possible[k]]
            0 <= k < possible.len() ==> exists|j: int|
                0 <= j < queue.len() && conflict[(#[trigger] queue[j]) as int]@.contains(
                    possible[k],
                ),
    ensures
        forall|i0: int|
            0 <= i0 < size * size && cg[i0] == 0 && (forall|i: int| 0 <= i < i0 ==> cg[i] != 0)
                ==> !(exists|cl: u32|
                #[trigger] block_admissible(
                    cg,
                    conflict,
                    size,
                    row_of(size, i0),
                    col_of(size, i0),
                    cl,
                )),
{
    let rs = row_of(size, start);
    let cs = col_of(size, start);
    crate::board::lemma_flat_coords(size, start);
    assert forall|i0: int|
        0 <= i0 < size * size && cg[i0] == 0 && (forall|i: int| 0 <= i < i0 ==> cg[i] != 0)
            implies !(exists|cl: u32|
        #[trigger] block_admissible(cg, conflict, size, row_of(size, i0), col_of(size, i0), cl)) by {
        assert(i0 == start) by {
            if i0 < start {
                assert(cg[i0] != 0);
            }
            if i0 > start {
                assert(cg[start] != 0);
            }
        }
        if exists|cl: u32|
            #[trigger] block_admissible(cg, conflict, size, rs, cs, cl) {
            let cl = choose|cl: u32| #[trigger] block_admissible(cg, conflict, size, rs, cs, cl);
            assert(colour_adjacent_to_block(cg, size, rs, cs, cl));
            assert(possible.contains(cl));
            let k = choose|k: int| 0 <= k < possible.len() && possible[k] == cl;
            assert(exists|j: int|
                0 <= j < queue.len() && conflict[(#[trigger] queue[j]) as int]@.contains(
                    possible[k],
                ));
            let j = choose|j: int|
                0 <= j < queue.len() && conflict[(#[trigger] queue[j]) as int]@.contains(
                    possible[k],
                );
            crate::board::lemma_flat_coords(size, queue[j] as int);
            assert(reaches(
                cg,
                size,
                rs,
                cs,
                row_of(size, queue[j] as int),
                col_of(size, queue[j] as int),
                0u32,
            ));
            assert(!conflict[cell_idx(
                size,
                row_of(size, queue[j] as int),
                col_of(size, queue[j] as int),
            )]@.contains(cl));
        }
    }
}

/// One filling pass: flood the first block of unassigned cells and paint
/// it whole with a neighbouring colour no cell of the block bans.  Returns
/// whether a block was painted; when none was, the grid is untouched and
/// the first remaining block (if any) admits no colour.
#[verifier::rlimit(100)]
fn fill_pass(
    colour_grid: &mut Vec<u32>,
    size: u32,
    conflict_grid: &Vec<Vec<u32>>,
    base: Ghost<Seq<u32>>,
) -> (more: bool)
    requires
        size_ok(size),
        0 < size,
        old(colour_grid)@.len() == size * size,
        conflict_grid@.len() == size * size,
        base@.len() == size * size,
        cells_framed(base@, old(colour_grid)@, conflict_grid@),
        blocks_whole(base@, old(colour_grid)@, size as int),
        blocks_painted(base@, old(colour_grid)@, conflict_grid@, size as int),
    ensures
        final(colour_grid)@.len() == size * size,
        cells_framed(base@, final(colour_grid)@, conflict_grid@),
        blocks_whole(base@, final(colour_grid)@, size as int),
        blocks_painted(base@, final(colour_grid)@, conflict_grid@, size as int),
        more ==> count_zeros(final(colour_grid)@) < count_zeros(old(colour_grid)@),
        !more ==> final(colour_grid)@ == old(colour_grid)@ && (forall|i0: int|
            0 <= i0 < size * size && final(colour_grid)@[i0] == 0 && (forall|i: int|
                0 <= i < i0 ==> final(colour_grid)@[i] != 0) ==> !(exists|cl: u32|
                #[trigger] block_admissible(
                    final(colour_grid)@,
                    conflict_grid@,
                    size as int,
                    row_of(size as int, i0),
                    col_of(size as int, i0),
                    cl,
                ))),
{
    proof {
        lemma_size_ok_bound(size);
    }
    let n = size * size;
    let nn = n as usize;
    let ghost sz = size as int;
    let ghost g0 = base@;
    // find the first unassigned cell
    let mut start: u32 = 0;
    let mut found_start = false;
    let mut i: u32 = 0;
    while i < n && !found_start
        invariant
            n == size * size,
            colour_grid@.len() == n,
            i <= n,
            !found_start ==> forall|j: int| 0 <= j < i ==> colour_grid@[j] != 0,
            found_start ==> start < n && colour_grid@[start as int] == 0 && (forall|j: int|
                0 <= j < start ==> colour_grid@[j] != 0),
        decreases (if found_start {
            0int
        } else {
            1int
        }), n - i,
    {
        if colour_grid[i as usize] == 0 {
            start = i;
            found_start = true;
        } else {
            i = i + 1;
        }
    }
    if !found_start {
        proof {
            assert forall|i0: int|
                0 <= i0 < n && colour_grid@[i0] == 0 && (forall|i2: int|
                    0 <= i2 < i0 ==> colour_grid@[i2] != 0) implies !(exists|cl: u32|
                #[trigger] block_admissible(
                    colour_grid@,
                    conflict_grid@,
                    sz,
                    row_of(sz, i0),
                    col_of(sz, i0),
                    cl,
                )) by {
                assert(colour_grid@[i0] != 0);
            }
        }
        return false;
    }
    let ghost cg = colour_grid@;
    let ghost rs = row_of(sz, start as int);
    let ghost cs = col_of(sz, start as int);
    proof {
        crate::board::lemma_flat_coords(sz, start as int);
    }
    // flood the block of unassigned cells around `start`
    let mut visited: Vec<bool> = Vec::new();
    while visited.len() < nn
        invariant
            visited@.len() <= nn,
            forall|k: int| 0 <= k < visited@.len() ==> !(#[trigger] visited@[k]),
        decreases nn - visited@.len(),
    {
        visited.push(false);
    }
    let mut queue: Vec<u32> = Vec::new();
    let mut possible: Vec<u32> = Vec::new();
    visited[start as usize] = true;
    queue.push(start);
    proof {
        lemma_reaches_self(cg, sz, rs, cs, 0u32);
        assert(queue@[0] == start);
        assert(fill_state_ok(cg, sz, start as int, visited@, queue@, possible@)) by {
            assert forall|i2: int|
                0 <= i2 < sz * sz && #[trigger] visited@[i2] implies i2 == start as int by {
                if i2 != start as int {
                    assert(!visited@[i2]);
                }
            }
            assert((queue@[0]) as int == start as int);
        }
    }
    let mut head: usize = 0;
    while head < queue.len()
        invariant
            size_ok(size),
            size <= 65535,
            0 < size,
            n == size * size,
            nn == n as usize,
            sz == size as int,
            cg == colour_grid@,
            cg.len() == n,
            start < n,
            head <= queue@.len(),
            fill_state_ok(cg, sz, start as int, visited@, queue@, possible@),
            fill_processed(sz, queue@, head as int, visited@),
        decreases count_false(visited@), queue@.len() - head,
    {
        let ghost visited_pre = visited@;
        let ghost queue_pre = queue@;
        let current = queue[head];
        head = head + 1;
        fill_expand(colour_grid, &mut visited, &mut queue, &mut possible, size, start, current);
        proof {
            lemma_fill_processed_step(
                sz,
                queue_pre,
                queue@,
                visited_pre,
                visited@,
                head - 1,
                current,
            );
            if count_false(visited@) == count_false(visited_pre) {
                assert(queue@ =~= queue_pre);
            }
        }
    }
    proof {
        lemma_flood_block_facts(cg, sz, start as int, visited@, queue@, possible@, head as int);
    }
    // look for a colour admissible for the whole block
    let mut applied = false;
    let mut chosen: u32 = 0;
    let mut ci: usize = 0;
    while ci < possible.len() && !applied
        invariant
            n == size * size,
            sz == size as int,
            conflict_grid@.len() == n,
            colour_grid@ == cg,
            cg.len() == n,
            ci <= possible@.len(),
            forall|j: int| 0 <= j < queue@.len() ==> (#[trigger] queue@[j]) < n,
            !applied ==> forall|k: int|
                #![trigger possible@[k]]
                0 <= k < ci ==> exists|j: int|
                    0 <= j < queue@.len() && conflict_grid@[(#[trigger] queue@[j]) as int]@.contains(
                        possible@[k],
                    ),
            applied ==> possible@.contains(chosen) && (forall|j: int|
                0 <= j < queue@.len() ==> !conflict_grid@[(#[trigger] queue@[j]) as int]@.contains(
                    chosen,
                )),
        decreases (if applied {
            0int
        } else {
            1int
        }), possible@.len() - ci,
    {
        let colour = possible[ci];
        let mut all_ok = true;
        let mut ri: usize = 0;
        while ri < queue.len() && all_ok
            invariant
                n == size * size,
                conflict_grid@.len() == n,
                ri <= queue@.len(),
                forall|j: int| 0 <= j < queue@.len() ==> (#[trigger] queue@[j]) < n,
                all_ok ==> forall|k: int|
                    0 <= k < ri ==> !conflict_grid@[(#[trigger] queue@[k]) as int]@.contains(
                        colour,
                    ),
                !all_ok ==> exists|j: int|
                    0 <= j < queue@.len() && conflict_grid@[(#[trigger] queue@[j]) as int]@.contains(
                        colour,
                    ),
            decreases (if all_ok {
                1int
            } else {
                0int
            }), queue@.len() - ri,
        {
            if contains_colour(&conflict_grid[queue[ri] as usize], colour) {
                proof {
                    assert(conflict_grid@[(queue@[ri as int]) as int]@.contains(colour));
                }
                all_ok = false;
            } else {
                ri = ri + 1;
            }
        }
        if all_ok {
            chosen = colour;
            applied = true;
            proof {
                assert(possible@[ci as int] == chosen);
            }
        } else {
            ci = ci + 1;
        }
    }
    if applied {
        // paint the whole block with the chosen colour
        proof {
            assert(possible@.contains(chosen));
            let kc = choose|k: int| 0 <= k < possible@.len() && possible@[k] == chosen;
            assert(chosen != 0 && colour_adjacent_to_block(cg, sz, rs, cs, chosen));
        }
        let mut pi: usize = 0;
        while pi < queue.len()
            invariant
                n == size * size,
                sz == size as int,
                colour_grid@.len() == n,
                cg.len() == n,
                pi <= queue@.len(),
                chosen != 0,
                forall|j: int| 0 <= j < queue@.len() ==> (#[trigger] queue@[j]) < n,
                forall|i2: int|
                    0 <= i2 < n ==> #[trigger] colour_grid@[i2] == cg[i2] || (colour_grid@[i2]
                        == chosen && exists|j: int|
                        0 <= j < queue@.len() && (#[trigger] queue@[j]) as int == i2),
                forall|k: int|
                    0 <= k < pi ==> colour_grid@[(#[trigger] queue@[k]) as int] == chosen,
            decreases queue@.len() - pi,
        {
            let cell = queue[pi];
            colour_grid[cell as usize] = chosen;
            proof {
                assert(queue@[pi as int] == cell);
            }
            pi = pi + 1;
        }
        proof {
            lemma_block_paint(
                g0,
                cg,
                colour_grid@,
                conflict_grid@,
                sz,
                start as int,
                queue@,
                chosen,
            );
            assert(colour_grid@[start as int] == chosen) by {
                assert(visited@[start as int] && cg[start as int] == 0);
                let j = choose|j: int|
                    0 <= j < queue@.len() && (#[trigger] queue@[j]) as int == start as int;
                assert(colour_grid@[(queue@[j]) as int] == chosen);
            }
            assert forall|i2: int|
                0 <= i2 < n && colour_grid@[i2] == 0 implies cg[i2] == 0 by {}
            lemma_count_zeros_strict(cg, colour_grid@, start as int);
        }
    } else {
        // the first remaining block admits no colour: stop
        proof {
            assert(forall|j: int|
                0 <= j < queue@.len() ==> (#[trigger] queue@[j]) < size * size && reaches(
                    cg,
                    sz,
                    row_of(sz, start as int),
                    col_of(sz, start as int),
                    row_of(sz, queue@[j] as int),
                    col_of(sz, queue@[j] as int),
                    0u32,
                ));
            lemma_block_unpaintable(cg, conflict_grid@, sz, start as int, queue@, possible@);
        }
        return false;
    }
    true
}

/// Flood every maximal block of unassigned cells, in scan order, and paint
/// each whole with one neighbouring colour that no cell of the block bans;
/// stop at the first block for which no such colour exists.
pub fn fill_grid(colour_grid: &mut Vec<u32>, size: u32, conflict_grid: &Vec<Vec<u32>>)
    requires
        size_ok(size),
        0 < size,
        old(colour_grid)@.len() == size * size,
        conflict_grid@.len() == size * size,
    ensures
        final(colour_grid)@.len() == old(colour_grid)@.len(),
        forall|i: int|
            0 <= i < final(colour_grid)@.len() && #[trigger] final(colour_grid)@[i]
                != old(colour_grid)@[i] ==> old(colour_grid)@[i] == 0 && final(colour_grid)@[i]
                != 0 && !conflict_grid@[i]@.contains(final(colour_grid)@[i]) && (exists|j: int|
                0 <= j < old(colour_grid)@.len()
                    && #[trigger] old(colour_grid)@[j] == final(colour_grid)@[i]),
        forall|r: int, c: int|
            in_bounds(size as int, r, c) && final(colour_grid)@[#[trigger] cell_idx(
                size as int,
                r,
                c,
            )] != old(colour_grid)@[cell_idx(size as int, r, c)] ==> block_painted(
                old(colour_grid)@,
                final(colour_grid)@,
                conflict_grid@,
                size as int,
                r,
                c,
            ),
        forall|i0: int|
            0 <= i0 < size * size && final(colour_grid)@[i0] == 0 && (forall|i: int|
                0 <= i < i0 ==> final(colour_grid)@[i] != 0) ==> !(exists|cl: u32|
                #[trigger] block_admissible(
                    final(colour_grid)@,
                    conflict_grid@,
                    size as int,
                    row_of(size as int, i0),
                    col_of(size as int, i0),
                    cl,
                )),
{
    proof {
        lemma_size_ok_bound(size);
        reveal(cells_framed);
        reveal(blocks_whole);
        reveal(blocks_painted);
    }
    let ghost sz = size as int;
    let ghost g0 = colour_grid@;
    loop
        invariant
            size_ok(size),
            0 < size,
            sz == size as int,
            g0 == old(colour_grid)@,
            g0.len() == size * size,
            colour_grid@.len() == size * size,
            conflict_grid@.len() == size * size,
            cells_framed(g0, colour_grid@, conflict_grid@),
            blocks_whole(g0, colour_grid@, sz),
            blocks_painted(g0, colour_grid@, conflict_grid@, sz),
        decreases count_zeros(colour_grid@),
    {
        let more = fill_pass(colour_grid, size, conflict_grid, Ghost(g0));
        if !more {
            proof {
                reveal(cells_framed);
                reveal(blocks_painted);
            }
            return ;
        }
    }
}

} // verus!
