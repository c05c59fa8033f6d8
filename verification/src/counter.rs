//! The exhaustive solution counter: row-by-row search over the coloured
//! cells of a region grid, counting candidate solutions up to a cap of two.
//! Its contract pins the count exactly: 0 means no solution, 1 means a
//! unique one, 2 means at least two distinct ones exist.

use vstd::prelude::*;
use crate::board::{cell_idx, in_bounds, lemma_cell_idx_bounds, lemma_size_ok_bound, size_ok};

verus! {

/// Two candidate marker cells clash: same row, same column, same region, or
/// within one cell of each other.
pub open spec fn triples_clash(a: (u32, u32, u32), b: (u32, u32, u32)) -> bool {
    ||| a.0 == b.0
    ||| a.1 == b.1
    ||| a.2 == b.2
    ||| ((a.0 == b.0 + 1 || b.0 == a.0 + 1) && (a.1 == b.1 + 1 || b.1 == a.1 + 1))
}

/// Whether two candidate cells, each given as (row, column, region id),
/// clash with each other.
pub fn check_clash(cell1: (u32, u32, u32), cell2: (u32, u32, u32)) -> (r: bool)
    ensures
        r == triples_clash(cell1, cell2),
{
    let (row1, col1, colour1) = cell1;
    let (row2, col2, colour2) = cell2;
    if row1 == row2 {
        return true;
    }
    if col1 == col2 {
        return true;
    }
    if colour1 == colour2 {
        return true;
    }
    let row_adjacent = (row1 > row2 && row1 - row2 == 1) || (row2 > row1 && row2 - row1 == 1);
    let col_adjacent = (col1 > col2 && col1 - col2 == 1) || (col2 > col1 && col2 - col1 == 1);
    if row_adjacent && col_adjacent {
        return true;
    }
    false
}

/// A candidate cell is inside the board and its region id is one of the
/// `size` region ids (or 0 for a forced cell on an uncoloured square).
pub open spec fn triple_wf(t: (u32, u32, u32), size: int) -> bool {
    t.0 < size && t.1 < size && t.2 <= size
}

pub open spec fn cands_wf(cands: Seq<(u32, u32, u32)>, size: int) -> bool {
    forall|k: int| 0 <= k < cands.len() ==> triple_wf(#[trigger] cands[k], size)
}

pub open spec fn cands_distinct(cands: Seq<(u32, u32, u32)>) -> bool {
    forall|k1: int, k2: int|
        0 <= k1 < k2 < cands.len() ==> (#[trigger] cands[k1]) != (#[trigger] cands[k2])
}

pub open spec fn placed_wf(placed: Seq<(u32, u32, u32)>, size: int) -> bool {
    forall|k: int| 0 <= k < placed.len() ==> triple_wf(#[trigger] placed[k], size)
}

/// No two already-placed cells clash.
pub open spec fn placed_pairwise_ok(placed: Seq<(u32, u32, u32)>) -> bool {
    forall|k1: int, k2: int|
        0 <= k1 < k2 < placed.len() ==> !triples_clash(
            #[trigger] placed[k1],
            #[trigger] placed[k2],
        )
}

pub open spec fn has_row(placed: Seq<(u32, u32, u32)>, r: int) -> bool {
    exists|k: int| 0 <= k < placed.len() && (#[trigger] placed[k]).0 == r
}

pub open spec fn rows_covered_below(placed: Seq<(u32, u32, u32)>, row: int) -> bool {
    forall|r: int| 0 <= r < row ==> #[trigger] has_row(placed, r)
}

/// The candidate cell an assignment puts in row `r`.
pub open spec fn sol_triple(sol: Seq<(u32, u32)>, r: int) -> (u32, u32, u32) {
    (r as u32, sol[r].0, sol[r].1)
}

/// `sol` assigns one candidate cell (column and region id) to every row,
/// keeps everything in `placed`, draws everything else from `cands`, and is
/// free of clashes.
pub open spec fn completes(
    cands: Seq<(u32, u32, u32)>,
    placed: Seq<(u32, u32, u32)>,
    size: int,
    sol: Seq<(u32, u32)>,
) -> bool {
    &&& sol.len() == size
    &&& forall|r: int|
        0 <= r < size ==> cands.contains(#[trigger] sol_triple(sol, r)) || placed.contains(
            sol_triple(sol, r),
        )
    &&& forall|k: int|
        0 <= k < placed.len() ==> (#[trigger] placed[k]).0 < size && sol[placed[k].0 as int] == (
        placed[k].1,
        placed[k].2,
        )
    &&& forall|r1: int, r2: int|
        #![trigger sol_triple(sol, r1), sol_triple(sol, r2)]
        0 <= r1 < r2 < size ==> !triples_clash(sol_triple(sol, r1), sol_triple(sol, r2))
}

pub open spec fn some_completion(
    cands: Seq<(u32, u32, u32)>,
    placed: Seq<(u32, u32, u32)>,
    size: int,
) -> bool {
    exists|sol: Seq<(u32, u32)>| completes(cands, placed, size, sol)
}

pub open spec fn two_completions(
    cands: Seq<(u32, u32, u32)>,
    placed: Seq<(u32, u32, u32)>,
    size: int,
) -> bool {
    exists|s1: Seq<(u32, u32)>, s2: Seq<(u32, u32)>|
        completes(cands, placed, size, s1) && completes(cands, placed, size, s2) && s1 != s2
}

/// How a capped count moves: unchanged when no completion exists, one more
/// (up to the cap of 2) when exactly one exists, and pinned at 2 when two or
/// more exist.
pub open spec fn capped_count_step(c0: int, c1: int, ex_one: bool, ex_two: bool) -> bool {
    if c0 >= 2 {
        c1 == c0
    } else if !ex_one {
        c1 == c0
    } else if !ex_two {
        c1 == c0 + 1
    } else {
        c1 == 2
    }
}

/// Completions whose row-`cr` cell comes from one of the first `hi`
/// candidates.
pub open spec fn completes_among(
    cands: Seq<(u32, u32, u32)>,
    placed: Seq<(u32, u32, u32)>,
    size: int,
    cr: int,
    hi: int,
    sol: Seq<(u32, u32)>,
) -> bool {
    completes(cands, placed, size, sol) && exists|j: int|
        0 <= j < hi && (#[trigger] cands[j]).0 == cr && sol[cr] == (cands[j].1, cands[j].2)
}

pub open spec fn some_among(
    cands: Seq<(u32, u32, u32)>,
    placed: Seq<(u32, u32, u32)>,
    size: int,
    cr: int,
    hi: int,
) -> bool {
    exists|sol: Seq<(u32, u32)>| completes_among(cands, placed, size, cr, hi, sol)
}

pub open spec fn two_among(
    cands: Seq<(u32, u32, u32)>,
    placed: Seq<(u32, u32, u32)>,
    size: int,
    cr: int,
    hi: int,
) -> bool {
    exists|s1: Seq<(u32, u32)>, s2: Seq<(u32, u32)>|
        completes_among(cands, placed, size, cr, hi, s1) && completes_among(
            cands,
            placed,
            size,
            cr,
            hi,
            s2,
        ) && s1 != s2
}

/// Completions that put the value `v` (column and region id) in row `cr`.
pub open spec fn completes_with(
    cands: Seq<(u32, u32, u32)>,
    placed: Seq<(u32, u32, u32)>,
    size: int,
    cr: int,
    v: (u32, u32),
    sol: Seq<(u32, u32)>,
) -> bool {
    completes(cands, placed, size, sol) && sol[cr] == v
}

pub open spec fn some_with(
    cands: Seq<(u32, u32, u32)>,
    placed: Seq<(u32, u32, u32)>,
    size: int,
    cr: int,
    v: (u32, u32),
) -> bool {
    exists|sol: Seq<(u32, u32)>| completes_with(cands, placed, size, cr, v, sol)
}

pub open spec fn two_with(
    cands: Seq<(u32, u32, u32)>,
    placed: Seq<(u32, u32, u32)>,
    size: int,
    cr: int,
    v: (u32, u32),
) -> bool {
    exists|s1: Seq<(u32, u32)>, s2: Seq<(u32, u32)>|
        completes_with(cands, placed, size, cr, v, s1) && completes_with(
            cands,
            placed,
            size,
            cr,
            v,
            s2,
        ) && s1 != s2
}

/// Pushing a candidate for row `cr` restricts the completions to exactly
/// those that put its value in that row.
proof fn lemma_push_completion(
    cands: Seq<(u32, u32, u32)>,
    placed: Seq<(u32, u32, u32)>,
    size: int,
    t: (u32, u32, u32),
    cr: int,
)
    requires
        0 <= cr < size,
        t.0 == cr,
        cands.contains(t),
    ensures
        forall|sol: Seq<(u32, u32)>|
            #![trigger completes(cands, placed.push(t), size, sol)]
            #![trigger completes(cands, placed, size, sol)]
            completes(cands, placed.push(t), size, sol) <==> (completes(cands, placed, size, sol)
                && sol[cr] == (t.1, t.2)),
{
    let placed2 = placed.push(t);
    assert forall|sol: Seq<(u32, u32)>|
        #![trigger completes(cands, placed2, size, sol)]
        #![trigger completes(cands, placed, size, sol)]
        completes(cands, placed2, size, sol) <==> (completes(cands, placed, size, sol) && sol[cr]
            == (t.1, t.2)) by {
        if completes(cands, placed2, size, sol) {
            assert(placed2[placed.len() as int] == t);
            assert(sol[t.0 as int] == (t.1, t.2));
            assert forall|r: int|
                0 <= r < size implies cands.contains(#[trigger] sol_triple(sol, r))
                || placed.contains(sol_triple(sol, r)) by {
                if placed2.contains(sol_triple(sol, r)) {
                    let k = choose|k: int|
                        0 <= k < placed2.len() && placed2[k] == sol_triple(sol, r);
                    if k < placed.len() {
                        assert(placed[k] == sol_triple(sol, r));
                        assert(placed.contains(sol_triple(sol, r)));
                    } else {
                        assert(sol_triple(sol, r) == t);
                    }
                }
            }
            assert forall|k: int|
                0 <= k < placed.len() implies (#[trigger] placed[k]).0 < size && sol[placed[k].0
                as int] == (placed[k].1, placed[k].2) by {
                assert(placed2[k] == placed[k]);
            }
            assert(completes(cands, placed, size, sol));
        }
        if completes(cands, placed, size, sol) && sol[cr] == (t.1, t.2) {
            assert forall|r: int|
                0 <= r < size implies cands.contains(#[trigger] sol_triple(sol, r))
                || placed2.contains(sol_triple(sol, r)) by {
                if placed.contains(sol_triple(sol, r)) {
                    let k = choose|k: int| 0 <= k < placed.len() && placed[k] == sol_triple(sol, r);
                    assert(placed2[k] == sol_triple(sol, r));
                    assert(placed2.contains(sol_triple(sol, r)));
                }
            }
            assert forall|k: int|
                0 <= k < placed2.len() implies (#[trigger] placed2[k]).0 < size && sol[placed2[k].0
                as int] == (placed2[k].1, placed2[k].2) by {
                if k < placed.len() {
                    assert(placed2[k] == placed[k]);
                } else {
                    assert(placed2[k] == t);
                }
            }
            assert(completes(cands, placed2, size, sol));
        }
    }
}

/// The existential versions of the previous lemma.
proof fn lemma_push_some_two(
    cands: Seq<(u32, u32, u32)>,
    placed: Seq<(u32, u32, u32)>,
    size: int,
    t: (u32, u32, u32),
    cr: int,
)
    requires
        0 <= cr < size,
        t.0 == cr,
        cands.contains(t),
    ensures
        some_completion(cands, placed.push(t), size) == some_with(
            cands,
            placed,
            size,
            cr,
            (t.1, t.2),
        ),
        two_completions(cands, placed.push(t), size) == two_with(cands, placed, size, cr, (t.1, t.2)),
{
    lemma_push_completion(cands, placed, size, t, cr);
    let v = (t.1, t.2);
    if some_completion(cands, placed.push(t), size) {
        let sol = choose|sol: Seq<(u32, u32)>| completes(cands, placed.push(t), size, sol);
        assert(completes_with(cands, placed, size, cr, v, sol));
        assert(some_with(cands, placed, size, cr, v));
    }
    if some_with(cands, placed, size, cr, v) {
        let sol = choose|sol: Seq<(u32, u32)>| completes_with(cands, placed, size, cr, v, sol);
        assert(completes(cands, placed.push(t), size, sol));
        assert(some_completion(cands, placed.push(t), size));
    }
    if two_completions(cands, placed.push(t), size) {
        let (s1, s2) = choose|s1: Seq<(u32, u32)>, s2: Seq<(u32, u32)>|
            completes(cands, placed.push(t), size, s1) && completes(cands, placed.push(t), size, s2)
                && s1 != s2;
        assert(completes_with(cands, placed, size, cr, v, s1));
        assert(completes_with(cands, placed, size, cr, v, s2));
        assert(two_with(cands, placed, size, cr, v));
    }
    if two_with(cands, placed, size, cr, v) {
        let (s1, s2) = choose|s1: Seq<(u32, u32)>, s2: Seq<(u32, u32)>|
            completes_with(cands, placed, size, cr, v, s1) && completes_with(
                cands,
                placed,
                size,
                cr,
                v,
                s2,
            ) && s1 != s2;
        assert(completes(cands, placed.push(t), size, s1));
        assert(completes(cands, placed.push(t), size, s2));
        assert(two_completions(cands, placed.push(t), size));
    }
}

/// A candidate that clashes with an already-placed cell appears in no
/// completion.
proof fn lemma_clash_no_completion(
    cands: Seq<(u32, u32, u32)>,
    placed: Seq<(u32, u32, u32)>,
    size: int,
    t: (u32, u32, u32),
    cr: int,
    k: int,
)
    requires
        0 <= cr < size,
        t.0 == cr,
        !has_row(placed, cr),
        0 <= k < placed.len(),
        triples_clash(placed[k], t),
    ensures
        !some_with(cands, placed, size, cr, (t.1, t.2)),
{
    if some_with(cands, placed, size, cr, (t.1, t.2)) {
        let sol = choose|sol: Seq<(u32, u32)>|
            completes_with(cands, placed, size, cr, (t.1, t.2), sol);
        let pr = placed[k].0 as int;
        assert(placed[k].0 < size && sol[pr] == (placed[k].1, placed[k].2));
        assert(sol_triple(sol, pr) == placed[k]);
        assert(sol_triple(sol, cr) == t);
        assert(pr != cr) by {
            if pr == cr {
                assert(has_row(placed, cr));
            }
        }
        if pr < cr {
            assert(!triples_clash(sol_triple(sol, pr), sol_triple(sol, cr)));
        } else {
            assert(!triples_clash(sol_triple(sol, cr), sol_triple(sol, pr)));
        }
    }
}

/// Extending the candidate window by a candidate of the current row adds
/// exactly the completions that use its value.
proof fn lemma_among_extend(
    cands: Seq<(u32, u32, u32)>,
    placed: Seq<(u32, u32, u32)>,
    size: int,
    cr: int,
    i: int,
)
    requires
        0 <= i < cands.len(),
        cands_distinct(cands),
        0 <= cr < size,
        cands[i].0 == cr,
    ensures
        some_among(cands, placed, size, cr, i + 1) == (some_among(cands, placed, size, cr, i)
            || some_with(cands, placed, size, cr, (cands[i].1, cands[i].2))),
        two_among(cands, placed, size, cr, i + 1) == (two_among(cands, placed, size, cr, i)
            || two_with(cands, placed, size, cr, (cands[i].1, cands[i].2)) || (some_among(
            cands,
            placed,
            size,
            cr,
            i,
        ) && some_with(cands, placed, size, cr, (cands[i].1, cands[i].2)))),
{
    let hi = i + 1;
    let v = (cands[i].1, cands[i].2);
    // a completion among the first hi candidates is among the first i or
    // carries the new value, and never both
    assert forall|sol: Seq<(u32, u32)>|
        #![trigger completes_among(cands, placed, size, cr, hi, sol)]
        #![trigger completes_among(cands, placed, size, cr, i, sol)]
        #![trigger completes_with(cands, placed, size, cr, v, sol)]
        completes_among(cands, placed, size, cr, hi, sol) <==> (completes_among(
            cands,
            placed,
            size,
            cr,
            i,
            sol,
        ) || completes_with(cands, placed, size, cr, v, sol)) by {
        if completes_among(cands, placed, size, cr, hi, sol) {
            let j = choose|j: int|
                0 <= j < hi && (#[trigger] cands[j]).0 == cr && sol[cr] == (cands[j].1, cands[j].2);
            if j < i {
                assert(completes_among(cands, placed, size, cr, i, sol));
            } else {
                assert(completes_with(cands, placed, size, cr, v, sol));
            }
        }
        if completes_among(cands, placed, size, cr, i, sol) {
            let j = choose|j: int|
                0 <= j < i && (#[trigger] cands[j]).0 == cr && sol[cr] == (cands[j].1, cands[j].2);
            assert(0 <= j < hi && cands[j].0 == cr && sol[cr] == (cands[j].1, cands[j].2));
            assert(completes_among(cands, placed, size, cr, hi, sol));
        }
        if completes_with(cands, placed, size, cr, v, sol) {
            assert(0 <= i < hi && cands[i].0 == cr && sol[cr] == (cands[i].1, cands[i].2));
            assert(completes_among(cands, placed, size, cr, hi, sol));
        }
    }
    // the two sides are disjoint: an earlier candidate with the same row and
    // value would be a duplicate
    assert forall|sol: Seq<(u32, u32)>|
        #[trigger] completes_among(cands, placed, size, cr, i, sol) implies !completes_with(
        cands,
        placed,
        size,
        cr,
        v,
        sol,
    ) by {
        if completes_with(cands, placed, size, cr, v, sol) {
            let j = choose|j: int|
                0 <= j < i && (#[trigger] cands[j]).0 == cr && sol[cr] == (cands[j].1, cands[j].2);
            assert(cands[j] == cands[i]);
        }
    }
    // some: both directions by exhibiting witnesses
    if some_among(cands, placed, size, cr, hi) {
        let sol = choose|sol: Seq<(u32, u32)>| completes_among(cands, placed, size, cr, hi, sol);
        if completes_among(cands, placed, size, cr, i, sol) {
            assert(some_among(cands, placed, size, cr, i));
        } else {
            assert(completes_with(cands, placed, size, cr, v, sol));
            assert(some_with(cands, placed, size, cr, v));
        }
    }
    if some_among(cands, placed, size, cr, i) {
        let sol = choose|sol: Seq<(u32, u32)>| completes_among(cands, placed, size, cr, i, sol);
        assert(completes_among(cands, placed, size, cr, hi, sol));
        assert(some_among(cands, placed, size, cr, hi));
    }
    if some_with(cands, placed, size, cr, v) {
        let sol = choose|sol: Seq<(u32, u32)>| completes_with(cands, placed, size, cr, v, sol);
        assert(completes_among(cands, placed, size, cr, hi, sol));
        assert(some_among(cands, placed, size, cr, hi));
    }
    // two: case analysis with witnesses
    if two_among(cands, placed, size, cr, hi) {
        let (s1, s2) = choose|s1: Seq<(u32, u32)>, s2: Seq<(u32, u32)>|
            completes_among(cands, placed, size, cr, hi, s1) && completes_among(
                cands,
                placed,
                size,
                cr,
                hi,
                s2,
            ) && s1 != s2;
        if completes_among(cands, placed, size, cr, i, s1) && completes_among(
            cands,
            placed,
            size,
            cr,
            i,
            s2,
        ) {
            assert(two_among(cands, placed, size, cr, i));
        } else if completes_with(cands, placed, size, cr, v, s1) && completes_with(
            cands,
            placed,
            size,
            cr,
            v,
            s2,
        ) {
            assert(two_with(cands, placed, size, cr, v));
        } else {
            assert(some_among(cands, placed, size, cr, i) && some_with(cands, placed, size, cr, v));
        }
    }
    if two_among(cands, placed, size, cr, i) {
        let (s1, s2) = choose|s1: Seq<(u32, u32)>, s2: Seq<(u32, u32)>|
            completes_among(cands, placed, size, cr, i, s1) && completes_among(
                cands,
                placed,
                size,
                cr,
                i,
                s2,
            ) && s1 != s2;
        assert(completes_among(cands, placed, size, cr, hi, s1));
        assert(completes_among(cands, placed, size, cr, hi, s2));
        assert(two_among(cands, placed, size, cr, hi));
    }
    if two_with(cands, placed, size, cr, v) {
        let (s1, s2) = choose|s1: Seq<(u32, u32)>, s2: Seq<(u32, u32)>|
            completes_with(cands, placed, size, cr, v, s1) && completes_with(
                cands,
                placed,
                size,
                cr,
                v,
                s2,
            ) && s1 != s2;
        assert(completes_among(cands, placed, size, cr, hi, s1));
        assert(completes_among(cands, placed, size, cr, hi, s2));
        assert(two_among(cands, placed, size, cr, hi));
    }
    if some_among(cands, placed, size, cr, i) && some_with(cands, placed, size, cr, v) {
        let s1 = choose|sol: Seq<(u32, u32)>| completes_among(cands, placed, size, cr, i, sol);
        let s2 = choose|sol: Seq<(u32, u32)>| completes_with(cands, placed, size, cr, v, sol);
        assert(s1 != s2);
        assert(completes_among(cands, placed, size, cr, hi, s1));
        assert(completes_among(cands, placed, size, cr, hi, s2));
        assert(two_among(cands, placed, size, cr, hi));
    }
}

/// A candidate of another row adds no completion to the window.
proof fn lemma_among_skip(
    cands: Seq<(u32, u32, u32)>,
    placed: Seq<(u32, u32, u32)>,
    size: int,
    cr: int,
    i: int,
)
    requires
        0 <= i < cands.len(),
        cands[i].0 != cr,
    ensures
        some_among(cands, placed, size, cr, i + 1) == some_among(cands, placed, size, cr, i),
        two_among(cands, placed, size, cr, i + 1) == two_among(cands, placed, size, cr, i),
{
    let hi = i + 1;
    assert forall|sol: Seq<(u32, u32)>|
        #![trigger completes_among(cands, placed, size, cr, hi, sol)]
        #![trigger completes_among(cands, placed, size, cr, i, sol)]
        completes_among(cands, placed, size, cr, hi, sol) <==> completes_among(
            cands,
            placed,
            size,
            cr,
            i,
            sol,
        ) by {
        if completes_among(cands, placed, size, cr, hi, sol) {
            let j = choose|j: int|
                0 <= j < hi && (#[trigger] cands[j]).0 == cr && sol[cr] == (cands[j].1, cands[j].2);
            assert(j != i);
            assert(completes_among(cands, placed, size, cr, i, sol));
        }
        if completes_among(cands, placed, size, cr, i, sol) {
            let j = choose|j: int|
                0 <= j < i && (#[trigger] cands[j]).0 == cr && sol[cr] == (cands[j].1, cands[j].2);
            assert(0 <= j < hi && cands[j].0 == cr && sol[cr] == (cands[j].1, cands[j].2));
            assert(completes_among(cands, placed, size, cr, hi, sol));
        }
    }
    if some_among(cands, placed, size, cr, hi) {
        let sol = choose|sol: Seq<(u32, u32)>| completes_among(cands, placed, size, cr, hi, sol);
        assert(completes_among(cands, placed, size, cr, i, sol));
        assert(some_among(cands, placed, size, cr, i));
    }
    if some_among(cands, placed, size, cr, i) {
        let sol = choose|sol: Seq<(u32, u32)>| completes_among(cands, placed, size, cr, i, sol);
        assert(completes_among(cands, placed, size, cr, hi, sol));
        assert(some_among(cands, placed, size, cr, hi));
    }
    if two_among(cands, placed, size, cr, hi) {
        let (s1, s2) = choose|s1: Seq<(u32, u32)>, s2: Seq<(u32, u32)>|
            completes_among(cands, placed, size, cr, hi, s1) && completes_among(
                cands,
                placed,
                size,
                cr,
                hi,
                s2,
            ) && s1 != s2;
        assert(completes_among(cands, placed, size, cr, i, s1));
        assert(completes_among(cands, placed, size, cr, i, s2));
        assert(two_among(cands, placed, size, cr, i));
    }
    if two_among(cands, placed, size, cr, i) {
        let (s1, s2) = choose|s1: Seq<(u32, u32)>, s2: Seq<(u32, u32)>|
            completes_among(cands, placed, size, cr, i, s1) && completes_among(
                cands,
                placed,
                size,
                cr,
                i,
                s2,
            ) && s1 != s2;
        assert(completes_among(cands, placed, size, cr, hi, s1));
        assert(completes_among(cands, placed, size, cr, hi, s2));
        assert(two_among(cands, placed, size, cr, hi));
    }
}

/// Once every candidate has been tried, the window holds every completion:
/// the current row's cell must come from the candidate list.
proof fn lemma_among_full(
    cands: Seq<(u32, u32, u32)>,
    placed: Seq<(u32, u32, u32)>,
    size: int,
    cr: int,
)
    requires
        0 < size <= 65535,
        0 <= cr < size,
        !has_row(placed, cr),
    ensures
        some_among(cands, placed, size, cr, cands.len() as int) == some_completion(
            cands,
            placed,
            size,
        ),
        two_among(cands, placed, size, cr, cands.len() as int) == two_completions(
            cands,
            placed,
            size,
        ),
{
    assert forall|sol: Seq<(u32, u32)>|
        #[trigger] completes(cands, placed, size, sol) implies completes_among(
        cands,
        placed,
        size,
        cr,
        cands.len() as int,
        sol,
    ) by {
        assert(cands.contains(sol_triple(sol, cr)) || placed.contains(sol_triple(sol, cr)));
        if placed.contains(sol_triple(sol, cr)) {
            let k = choose|k: int| 0 <= k < placed.len() && placed[k] == sol_triple(sol, cr);
            assert(placed[k].0 == cr as u32);
            assert(has_row(placed, cr));
        }
        let j = choose|j: int| 0 <= j < cands.len() && cands[j] == sol_triple(sol, cr);
        assert(cands[j].0 == cr && sol[cr] == (cands[j].1, cands[j].2));
    }
    if some_completion(cands, placed, size) {
        let sol = choose|sol: Seq<(u32, u32)>| completes(cands, placed, size, sol);
        assert(completes_among(cands, placed, size, cr, cands.len() as int, sol));
        assert(some_among(cands, placed, size, cr, cands.len() as int));
    }
    if some_among(cands, placed, size, cr, cands.len() as int) {
        let sol = choose|sol: Seq<(u32, u32)>|
            completes_among(cands, placed, size, cr, cands.len() as int, sol);
        assert(some_completion(cands, placed, size));
    }
    if two_completions(cands, placed, size) {
        let (s1, s2) = choose|s1: Seq<(u32, u32)>, s2: Seq<(u32, u32)>|
            completes(cands, placed, size, s1) && completes(cands, placed, size, s2) && s1 != s2;
        assert(completes_among(cands, placed, size, cr, cands.len() as int, s1));
        assert(completes_among(cands, placed, size, cr, cands.len() as int, s2));
        assert(two_among(cands, placed, size, cr, cands.len() as int));
    }
    if two_among(cands, placed, size, cr, cands.len() as int) {
        let (s1, s2) = choose|s1: Seq<(u32, u32)>, s2: Seq<(u32, u32)>|
            completes_among(cands, placed, size, cr, cands.len() as int, s1) && completes_among(
                cands,
                placed,
                size,
                cr,
                cands.len() as int,
                s2,
            ) && s1 != s2;
        assert(two_completions(cands, placed, size));
    }
}

/// Two capped counting steps in sequence form one step over the union of
/// what they found.
proof fn lemma_capped_compose(
    c0: int,
    c1: int,
    c2: int,
    a1: bool,
    a2: bool,
    b1: bool,
    b2: bool,
)
    requires
        0 <= c0 <= 2,
        a2 ==> a1,
        b2 ==> b1,
        capped_count_step(c0, c1, a1, a2),
        capped_count_step(c1, c2, b1, b2),
    ensures
        capped_count_step(c0, c2, a1 || b1, a2 || b2 || (a1 && b1)),
{
}


proof fn lemma_two_implies_some(
    cands: Seq<(u32, u32, u32)>,
    placed: Seq<(u32, u32, u32)>,
    size: int,
    cr: int,
    hi: int,
    v: (u32, u32),
)
    ensures
        two_among(cands, placed, size, cr, hi) ==> some_among(cands, placed, size, cr, hi),
        two_with(cands, placed, size, cr, v) ==> some_with(cands, placed, size, cr, v),
        two_completions(cands, placed, size) ==> some_completion(cands, placed, size),
{
    if two_among(cands, placed, size, cr, hi) {
        let (s1, s2) = choose|s1: Seq<(u32, u32)>, s2: Seq<(u32, u32)>|
            completes_among(cands, placed, size, cr, hi, s1) && completes_among(
                cands,
                placed,
                size,
                cr,
                hi,
                s2,
            ) && s1 != s2;
        assert(some_among(cands, placed, size, cr, hi));
    }
    if two_with(cands, placed, size, cr, v) {
        let (s1, s2) = choose|s1: Seq<(u32, u32)>, s2: Seq<(u32, u32)>|
            completes_with(cands, placed, size, cr, v, s1) && completes_with(
                cands,
                placed,
                size,
                cr,
                v,
                s2,
            ) && s1 != s2;
        assert(some_with(cands, placed, size, cr, v));
    }
    if two_completions(cands, placed, size) {
        let (s1, s2) = choose|s1: Seq<(u32, u32)>, s2: Seq<(u32, u32)>|
            completes(cands, placed, size, s1) && completes(cands, placed, size, s2) && s1 != s2;
        assert(some_completion(cands, placed, size));
    }
}

/// The value each placed cell assigns to its row.
pub open spec fn placed_sol(placed: Seq<(u32, u32, u32)>, size: int) -> Seq<(u32, u32)> {
    Seq::new(
        size as nat,
        |r: int|
            {
                let k = choose|k: int| 0 <= k < placed.len() && (#[trigger] placed[k]).0 == r;
                (placed[k].1, placed[k].2)
            },
    )
}

/// When the placed cells already cover every row, they form the one and
/// only completion.
proof fn lemma_full_placed_unique(
    cands: Seq<(u32, u32, u32)>,
    placed: Seq<(u32, u32, u32)>,
    size: int,
)
    requires
        0 < size,
        placed_wf(placed, size),
        placed_pairwise_ok(placed),
        rows_covered_below(placed, size),
    ensures
        completes(cands, placed, size, placed_sol(placed, size)),
        forall|sol: Seq<(u32, u32)>|
            #[trigger] completes(cands, placed, size, sol) ==> sol == placed_sol(placed, size),
{
    let ps = placed_sol(placed, size);
    // rows are pairwise distinct among placed cells
    assert forall|k1: int, k2: int|
        0 <= k1 < placed.len() && 0 <= k2 < placed.len() && k1 != k2 implies (#[trigger] placed[k1]).0
        != (#[trigger] placed[k2]).0 by {
        if k1 < k2 {
            assert(!triples_clash(placed[k1], placed[k2]));
        } else {
            assert(!triples_clash(placed[k2], placed[k1]));
        }
    }
    assert forall|r: int| 0 <= r < size implies ps[r] == {
        let k = choose|k: int| 0 <= k < placed.len() && (#[trigger] placed[k]).0 == r;
        (placed[k].1, placed[k].2)
    } by {}
    assert forall|r: int| 0 <= r < size implies #[trigger] sol_triple(ps, r) == placed[choose|k: int|
        0 <= k < placed.len() && (#[trigger] placed[k]).0 == r] by {
        assert(has_row(placed, r));
        let k = choose|k: int| 0 <= k < placed.len() && (#[trigger] placed[k]).0 == r;
        assert(placed[k].0 == r as u32) by {
            assert(placed[k].0 == r);
        }
        assert(sol_triple(ps, r) == (r as u32, placed[k].1, placed[k].2));
    }
    assert(completes(cands, placed, size, ps)) by {
        assert forall|r: int|
            0 <= r < size implies cands.contains(#[trigger] sol_triple(ps, r)) || placed.contains(
            sol_triple(ps, r),
        ) by {
            assert(has_row(placed, r));
            let k = choose|k: int| 0 <= k < placed.len() && (#[trigger] placed[k]).0 == r;
            assert(sol_triple(ps, r) == placed[k]);
            assert(placed.contains(placed[k]));
        }
        assert forall|k: int|
            0 <= k < placed.len() implies (#[trigger] placed[k]).0 < size && ps[placed[k].0
            as int] == (placed[k].1, placed[k].2) by {
            let r = placed[k].0 as int;
            assert(has_row(placed, r));
            let k2 = choose|k2: int| 0 <= k2 < placed.len() && (#[trigger] placed[k2]).0 == r;
            assert(k2 == k) by {
                if k2 != k {
                    assert(placed[k2].0 != placed[k].0);
                }
            }
        }
        assert forall|r1: int, r2: int|
            #![trigger sol_triple(ps, r1), sol_triple(ps, r2)]
            0 <= r1 < r2 < size implies !triples_clash(sol_triple(ps, r1), sol_triple(ps, r2)) by {
            assert(has_row(placed, r1));
            assert(has_row(placed, r2));
            let k1 = choose|k: int| 0 <= k < placed.len() && (#[trigger] placed[k]).0 == r1;
            let k2 = choose|k: int| 0 <= k < placed.len() && (#[trigger] placed[k]).0 == r2;
            assert(sol_triple(ps, r1) == placed[k1]);
            assert(sol_triple(ps, r2) == placed[k2]);
            assert(k1 != k2);
            if k1 < k2 {
                assert(!triples_clash(placed[k1], placed[k2]));
            } else {
                assert(!triples_clash(placed[k2], placed[k1]));
            }
        }
    }
    assert forall|sol: Seq<(u32, u32)>|
        #[trigger] completes(cands, placed, size, sol) implies sol == ps by {
        assert forall|r: int| 0 <= r < size implies sol[r] == ps[r] by {
            assert(has_row(placed, r));
            let k = choose|k: int| 0 <= k < placed.len() && (#[trigger] placed[k]).0 == r;
            assert(placed[k].0 < size && sol[placed[k].0 as int] == (placed[k].1, placed[k].2));
            assert(sol[r] == (placed[k].1, placed[k].2));
        }
        assert(sol =~= ps);
    }
}

/// Whether any placed cell sits in the given row.
fn placed_has_row(placed: &Vec<(u32, u32, u32)>, row: u32) -> (b: bool)
    ensures
        b == has_row(placed@, row as int),
{
    let mut k: usize = 0;
    while k < placed.len()
        invariant
            k <= placed@.len(),
            forall|j: int| 0 <= j < k ==> (#[trigger] placed@[j]).0 != row,
        decreases placed@.len() - k,
    {
        if placed[k].0 == row {
            assert(placed@[k as int].0 == row as int);
            return true;
        }
        k = k + 1;
    }
    false
}

/// Whether the candidate clashes with any already-placed cell.
fn clashes_with_placed(placed: &Vec<(u32, u32, u32)>, t: (u32, u32, u32)) -> (b: bool)
    ensures
        b == exists|k: int|
            0 <= k < placed@.len() && triples_clash(#[trigger] placed@[k], t),
{
    let mut k: usize = 0;
    while k < placed.len()
        invariant
            k <= placed@.len(),
            forall|j: int| 0 <= j < k ==> !triples_clash(#[trigger] placed@[j], t),
        decreases placed@.len() - k,
    {
        if check_clash(placed[k], t) {
            return true;
        }
        k = k + 1;
    }
    false
}

/// Count, into `solution_count` and capped at 2, the assignments that place
/// one candidate cell in every row not already covered by `placed`, without
/// clashes.  The count moves exactly by the number of such completions, so
/// 0, 1 and 2 tell no solution, a unique one and an ambiguous board apart.
pub fn count_solutions(
    row: u32,
    size: u32,
    candidates: &Vec<(u32, u32, u32)>,
    placed: &mut Vec<(u32, u32, u32)>,
    solution_count: &mut u32,
)
    requires
        0 < size <= 65535,
        row <= size,
        *old(solution_count) <= 2,
        cands_wf(candidates@, size as int),
        cands_distinct(candidates@),
        placed_wf(old(placed)@, size as int),
        placed_pairwise_ok(old(placed)@),
        rows_covered_below(old(placed)@, row as int),
    ensures
        final(placed)@ == old(placed)@,
        *final(solution_count) <= 2,
        capped_count_step(
            *old(solution_count) as int,
            *final(solution_count) as int,
            some_completion(candidates@, old(placed)@, size as int),
            two_completions(candidates@, old(placed)@, size as int),
        ),
    decreases size - row,
{
    if *solution_count > 1 {
        return;
    }
    let ghost placed0 = placed@;
    let ghost c0 = *solution_count as int;
    // skip rows already filled
    let mut current_row = row;
    loop
        invariant_except_break
            row <= current_row <= size,
            placed@ == placed0,
            rows_covered_below(placed0, current_row as int),
        ensures
            placed@ == placed0,
            row <= current_row <= size,
            rows_covered_below(placed0, current_row as int),
            current_row == size || !has_row(placed0, current_row as int),
        decreases size - current_row,
    {
        if current_row == size {
            break;
        }
        if !placed_has_row(placed, current_row) {
            break;
        }
        assert(has_row(placed0, current_row as int));
        assert forall|r: int|
            0 <= r < current_row + 1 implies #[trigger] has_row(placed0, r) by {}
        current_row = current_row + 1;
    }
    if current_row == size {
        // every row is covered by a placed cell: the one completion they
        // spell out has been found
        *solution_count = *solution_count + 1;
        proof {
            lemma_full_placed_unique(candidates@, placed0, size as int);
            let ps = placed_sol(placed0, size as int);
            assert(some_completion(candidates@, placed0, size as int));
            if two_completions(candidates@, placed0, size as int) {
                let (s1, s2) = choose|s1: Seq<(u32, u32)>, s2: Seq<(u32, u32)>|
                    completes(candidates@, placed0, size as int, s1) && completes(
                        candidates@,
                        placed0,
                        size as int,
                        s2,
                    ) && s1 != s2;
                assert(s1 == ps && s2 == ps);
            }
        }
        return;
    }
    let ghost cr = current_row as int;
    let mut i: usize = 0;
    while i < candidates.len()
        invariant
            0 < size <= 65535,
            row <= current_row < size,
            cr == current_row as int,
            i <= candidates@.len(),
            cands_wf(candidates@, size as int),
            cands_distinct(candidates@),
            placed@ == placed0,
            placed_wf(placed0, size as int),
            placed_pairwise_ok(placed0),
            rows_covered_below(placed0, current_row as int),
            !has_row(placed0, cr),
            *solution_count <= 2,
            c0 == *old(solution_count) as int,
            c0 <= 2,
            capped_count_step(
                c0,
                *solution_count as int,
                some_among(candidates@, placed0, size as int, cr, i as int),
                two_among(candidates@, placed0, size as int, cr, i as int),
            ),
        decreases candidates@.len() - i,
    {
        let t = candidates[i];
        let ghost cnt_before = *solution_count as int;
        if t.0 == current_row {
            if !clashes_with_placed(placed, t) {
                placed.push(t);
                proof {
                    assert forall|k1: int, k2: int|
                        0 <= k1 < k2 < placed@.len() implies !triples_clash(
                        #[trigger] placed@[k1],
                        #[trigger] placed@[k2],
                    ) by {
                        if k2 == placed0.len() {
                            assert(placed@[k1] == placed0[k1]);
                            assert(!triples_clash(placed0[k1], t));
                        } else {
                            assert(placed@[k1] == placed0[k1] && placed@[k2] == placed0[k2]);
                        }
                    }
                    assert forall|r: int|
                        0 <= r < current_row + 1 implies #[trigger] has_row(placed@, r) by {
                        if r < current_row {
                            assert(has_row(placed0, r));
                            let k = choose|k: int|
                                0 <= k < placed0.len() && (#[trigger] placed0[k]).0 == r;
                            assert(placed@[k] == placed0[k]);
                        } else {
                            assert(placed@[placed0.len() as int] == t);
                        }
                    }
                }
                count_solutions(current_row + 1, size, candidates, placed, solution_count);
                placed.pop();
                proof {
                    assert(placed@ =~= placed0);
                    assert(candidates@.contains(t)) by {
                        assert(candidates@[i as int] == t);
                    }
                    lemma_push_some_two(candidates@, placed0, size as int, t, cr);
                    lemma_among_extend(candidates@, placed0, size as int, cr, i as int);
                    lemma_two_implies_some(
                        candidates@,
                        placed0,
                        size as int,
                        cr,
                        i as int,
                        (t.1, t.2),
                    );
                    lemma_capped_compose(
                        c0,
                        cnt_before,
                        *solution_count as int,
                        some_among(candidates@, placed0, size as int, cr, i as int),
                        two_among(candidates@, placed0, size as int, cr, i as int),
                        some_with(candidates@, placed0, size as int, cr, (t.1, t.2)),
                        two_with(candidates@, placed0, size as int, cr, (t.1, t.2)),
                    );
                }
            } else {
                proof {
                    let k = choose|k: int|
                        0 <= k < placed0.len() && triples_clash(#[trigger] placed0[k], t);
                    lemma_clash_no_completion(candidates@, placed0, size as int, t, cr, k);
                    lemma_among_extend(candidates@, placed0, size as int, cr, i as int);
                    assert(!two_with(candidates@, placed0, size as int, cr, (t.1, t.2))) by {
                        if two_with(candidates@, placed0, size as int, cr, (t.1, t.2)) {
                            let (s1, s2) = choose|s1: Seq<(u32, u32)>, s2: Seq<(u32, u32)>|
                                completes_with(
                                    candidates@,
                                    placed0,
                                    size as int,
                                    cr,
                                    (t.1, t.2),
                                    s1,
                                ) && completes_with(
                                    candidates@,
                                    placed0,
                                    size as int,
                                    cr,
                                    (t.1, t.2),
                                    s2,
                                ) && s1 != s2;
                            assert(some_with(candidates@, placed0, size as int, cr, (t.1, t.2)));
                        }
                    }
                }
            }
        } else {
            proof {
                lemma_among_skip(candidates@, placed0, size as int, cr, i as int);
            }
        }
        i = i + 1;
    }
    proof {
        lemma_among_full(candidates@, placed0, size as int, cr);
    }
}

/// A candidate solution of a coloured grid: one coloured cell per row,
/// carrying that cell's region id, with no clashes.
pub open spec fn grid_sol_ok(cg: Seq<u32>, size: int, sol: Seq<(u32, u32)>) -> bool {
    &&& sol.len() == size
    &&& forall|r: int|
        0 <= r < size ==> (#[trigger] sol[r]).0 < size && cg[cell_idx(size, r, sol[r].0 as int)]
            == sol[r].1 && sol[r].1 != 0
    &&& forall|r1: int, r2: int|
        #![trigger sol_triple(sol, r1), sol_triple(sol, r2)]
        0 <= r1 < r2 < size ==> !triples_clash(sol_triple(sol, r1), sol_triple(sol, r2))
}

pub open spec fn grid_some_solution(cg: Seq<u32>, size: int) -> bool {
    exists|sol: Seq<(u32, u32)>| grid_sol_ok(cg, size, sol)
}

pub open spec fn grid_two_solutions(cg: Seq<u32>, size: int) -> bool {
    exists|s1: Seq<(u32, u32)>, s2: Seq<(u32, u32)>|
        grid_sol_ok(cg, size, s1) && grid_sol_ok(cg, size, s2) && s1 != s2
}

/// The coloured cells of the grid, row-major, each as (row, column, region
/// id): the candidate cells of the row-by-row search.
pub fn collect_candidates(colour_grid: &Vec<u32>, size: u32) -> (cands: Vec<(u32, u32, u32)>)
    requires
        size_ok(size),
        colour_grid@.len() == size * size,
        forall|i: int| 0 <= i < colour_grid@.len() ==> #[trigger] colour_grid@[i] <= size,
    ensures
        cands_wf(cands@, size as int),
        cands_distinct(cands@),
        forall|k: int|
            0 <= k < cands@.len() ==> colour_grid@[cell_idx(
                size as int,
                (#[trigger] cands@[k]).0 as int,
                cands@[k].1 as int,
            )] == cands@[k].2 && cands@[k].2 != 0 && cands@[k].0 < size && cands@[k].1 < size,
        forall|r: int, c: int|
            in_bounds(size as int, r, c) && colour_grid@[#[trigger] cell_idx(size as int, r, c)]
                != 0 ==> cands@.contains(
                (r as u32, c as u32, colour_grid@[cell_idx(size as int, r, c)]),
            ),
{
    proof {
        lemma_size_ok_bound(size);
    }
    let ghost sz = size as int;
    let mut cands: Vec<(u32, u32, u32)> = Vec::new();
    let mut row: u32 = 0;
    while row < size
        invariant
            size_ok(size),
            size <= 65535,
            sz == size as int,
            row <= size,
            colour_grid@.len() == size * size,
            forall|i: int| 0 <= i < colour_grid@.len() ==> #[trigger] colour_grid@[i] <= size,
            forall|k: int|
                0 <= k < cands@.len() ==> colour_grid@[cell_idx(
                    sz,
                    (#[trigger] cands@[k]).0 as int,
                    cands@[k].1 as int,
                )] == cands@[k].2 && cands@[k].2 != 0 && cands@[k].0 < size && cands@[k].1 < size
                    && cands@[k].0 < row,
            forall|r: int, c: int|
                in_bounds(sz, r, c) && r < row && colour_grid@[#[trigger] cell_idx(sz, r, c)] != 0
                    ==> cands@.contains((r as u32, c as u32, colour_grid@[cell_idx(sz, r, c)])),
            cands_distinct(cands@),
        decreases size - row,
    {
        let mut col: u32 = 0;
        while col < size
            invariant
                size_ok(size),
                size <= 65535,
                sz == size as int,
                row < size,
                col <= size,
                colour_grid@.len() == size * size,
                forall|i: int| 0 <= i < colour_grid@.len() ==> #[trigger] colour_grid@[i] <= size,
                forall|k: int|
                    0 <= k < cands@.len() ==> colour_grid@[cell_idx(
                        sz,
                        (#[trigger] cands@[k]).0 as int,
                        cands@[k].1 as int,
                    )] == cands@[k].2 && cands@[k].2 != 0 && cands@[k].0 < size && cands@[k].1
                        < size && (cands@[k].0 < row || (cands@[k].0 == row && cands@[k].1 < col)),
                forall|r: int, c: int|
                    in_bounds(sz, r, c) && (r < row || (r == row && c < col))
                        && colour_grid@[#[trigger] cell_idx(sz, r, c)] != 0 ==> cands@.contains(
                        (r as u32, c as u32, colour_grid@[cell_idx(sz, r, c)]),
                    ),
                cands_distinct(cands@),
            decreases size - col,
        {
            proof {
                lemma_cell_idx_bounds(sz, row as int, col as int);
            }
            let v = colour_grid[(row * size + col) as usize];
            let ghost cands_pre = cands@;
            if v != 0 {
                cands.push((row, col, v));
                proof {
                    assert(cands@[cands_pre.len() as int] == (row, col, v));
                    assert forall|k1: int, k2: int|
                        0 <= k1 < k2 < cands@.len() implies (#[trigger] cands@[k1])
                        != (#[trigger] cands@[k2]) by {
                        if k2 == cands_pre.len() {
                            assert(cands@[k1] == cands_pre[k1]);
                        } else {
                            assert(cands@[k1] == cands_pre[k1] && cands@[k2] == cands_pre[k2]);
                        }
                    }
                }
            }
            proof {
                assert forall|r: int, c: int|
                    in_bounds(sz, r, c) && (r < row || (r == row && c < col + 1))
                        && colour_grid@[#[trigger] cell_idx(sz, r, c)] != 0 implies cands@.contains(
                    (r as u32, c as u32, colour_grid@[cell_idx(sz, r, c)]),
                ) by {
                    if r == row && c == col {
                        assert(cands@[cands_pre.len() as int] == (
                            r as u32,
                            c as u32,
                            colour_grid@[cell_idx(sz, r, c)],
                        ));
                    } else {
                        assert(cands_pre.contains(
                            (r as u32, c as u32, colour_grid@[cell_idx(sz, r, c)]),
                        ));
                        let k = choose|k: int|
                            0 <= k < cands_pre.len() && cands_pre[k] == (
                            r as u32,
                            c as u32,
                            colour_grid@[cell_idx(sz, r, c)],
                            );
                        assert(cands@[k] == cands_pre[k]);
                    }
                }
            }
            col = col + 1;
        }
        row = row + 1;
    }
    proof {
        assert forall|k: int| 0 <= k < cands@.len() implies triple_wf(#[trigger] cands@[k], sz) by {
            lemma_cell_idx_bounds(sz, cands@[k].0 as int, cands@[k].1 as int);
        }
    }
    cands
}

/// The search candidates drawn from a grid describe exactly the grid's own
/// candidate solutions.
proof fn lemma_grid_bridge(cg: Seq<u32>, size: int, cands: Seq<(u32, u32, u32)>)
    requires
        0 < size <= 65535,
        cg.len() == size * size,
        forall|k: int|
            0 <= k < cands.len() ==> cg[cell_idx(
                size,
                (#[trigger] cands[k]).0 as int,
                cands[k].1 as int,
            )] == cands[k].2 && cands[k].2 != 0 && cands[k].0 < size && cands[k].1 < size,
        forall|r: int, c: int|
            in_bounds(size, r, c) && cg[#[trigger] cell_idx(size, r, c)] != 0 ==> cands.contains(
                (r as u32, c as u32, cg[cell_idx(size, r, c)]),
            ),
    ensures
        forall|sol: Seq<(u32, u32)>|
            #![trigger completes(cands, Seq::<(u32, u32, u32)>::empty(), size, sol)]
            #![trigger grid_sol_ok(cg, size, sol)]
            completes(cands, Seq::<(u32, u32, u32)>::empty(), size, sol) <==> grid_sol_ok(
                cg,
                size,
                sol,
            ),
{
    let nobody = Seq::<(u32, u32, u32)>::empty();
    assert forall|sol: Seq<(u32, u32)>|
        #![trigger completes(cands, nobody, size, sol)]
        #![trigger grid_sol_ok(cg, size, sol)]
        completes(cands, nobody, size, sol) <==> grid_sol_ok(cg, size, sol) by {
        if completes(cands, nobody, size, sol) {
            assert forall|r: int|
                0 <= r < size implies (#[trigger] sol[r]).0 < size && cg[cell_idx(
                size,
                r,
                sol[r].0 as int,
            )] == sol[r].1 && sol[r].1 != 0 by {
                assert(cands.contains(sol_triple(sol, r)) || nobody.contains(sol_triple(sol, r)));
                if nobody.contains(sol_triple(sol, r)) {
                    let k = choose|k: int| 0 <= k < nobody.len() && nobody[k] == sol_triple(sol, r);
                    assert(false);
                }
                let k = choose|k: int| 0 <= k < cands.len() && cands[k] == sol_triple(sol, r);
                assert(cands[k].0 == r as u32 && cands[k].1 == sol[r].0 && cands[k].2 == sol[r].1);
            }
            assert(grid_sol_ok(cg, size, sol));
        }
        if grid_sol_ok(cg, size, sol) {
            assert forall|r: int|
                0 <= r < size implies cands.contains(#[trigger] sol_triple(sol, r))
                || nobody.contains(sol_triple(sol, r)) by {
                assert(in_bounds(size, r, sol[r].0 as int));
                assert(cg[cell_idx(size, r, sol[r].0 as int)] != 0);
                assert(cands.contains(
                    (r as u32, (sol[r].0 as int) as u32, cg[cell_idx(size, r, sol[r].0 as int)]),
                ));
                assert((r as u32, (sol[r].0 as int) as u32, cg[cell_idx(size, r, sol[r].0 as int)])
                    == sol_triple(sol, r));
            }
            assert forall|k: int|
                0 <= k < nobody.len() implies (#[trigger] nobody[k]).0 < size && sol[nobody[k].0
                as int] == (nobody[k].1, nobody[k].2) by {}
            assert(completes(cands, nobody, size, sol));
        }
    }
}

/// Count the candidate solutions of a coloured grid, capped at 2.  The
/// result is 0 exactly when the grid has no solution, 1 exactly when it has
/// a unique one, and 2 exactly when it is ambiguous.
pub fn count_grid_solutions(colour_grid: &Vec<u32>, size: u32) -> (n: u32)
    requires
        size_ok(size),
        0 < size,
        colour_grid@.len() == size * size,
        forall|i: int| 0 <= i < colour_grid@.len() ==> #[trigger] colour_grid@[i] <= size,
    ensures
        n <= 2,
        (n == 0) == !grid_some_solution(colour_grid@, size as int),
        (n == 1) == (grid_some_solution(colour_grid@, size as int) && !grid_two_solutions(
            colour_grid@,
            size as int,
        )),
        (n == 2) == grid_two_solutions(colour_grid@, size as int),
{
    proof {
        lemma_size_ok_bound(size);
    }
    let cands = collect_candidates(colour_grid, size);
    let mut placed: Vec<(u32, u32, u32)> = Vec::new();
    let mut count: u32 = 0;
    count_solutions(0, size, &cands, &mut placed, &mut count);
    proof {
        let sz = size as int;
        let nobody = Seq::<(u32, u32, u32)>::empty();
        assert(placed@ =~= nobody);
        lemma_grid_bridge(colour_grid@, sz, cands@);
        assert(some_completion(cands@, nobody, sz) == grid_some_solution(colour_grid@, sz)) by {
            if some_completion(cands@, nobody, sz) {
                let sol = choose|sol: Seq<(u32, u32)>| completes(cands@, nobody, sz, sol);
                assert(grid_sol_ok(colour_grid@, sz, sol));
            }
            if grid_some_solution(colour_grid@, sz) {
                let sol = choose|sol: Seq<(u32, u32)>| grid_sol_ok(colour_grid@, sz, sol);
                assert(completes(cands@, nobody, sz, sol));
            }
        }
        assert(two_completions(cands@, nobody, sz) == grid_two_solutions(colour_grid@, sz)) by {
            if two_completions(cands@, nobody, sz) {
                let (s1, s2) = choose|s1: Seq<(u32, u32)>, s2: Seq<(u32, u32)>|
                    completes(cands@, nobody, sz, s1) && completes(cands@, nobody, sz, s2) && s1
                        != s2;
                assert(grid_sol_ok(colour_grid@, sz, s1) && grid_sol_ok(colour_grid@, sz, s2));
            }
            if grid_two_solutions(colour_grid@, sz) {
                let (s1, s2) = choose|s1: Seq<(u32, u32)>, s2: Seq<(u32, u32)>|
                    grid_sol_ok(colour_grid@, sz, s1) && grid_sol_ok(colour_grid@, sz, s2) && s1
                        != s2;
                assert(completes(cands@, nobody, sz, s1) && completes(cands@, nobody, sz, s2));
            }
        }
        lemma_two_implies_some(cands@, nobody, sz, 0, 0, (0u32, 0u32));
    }
    count
}

/// Number of rows below `hi` that no placed cell covers; placing a cell in
/// an uncovered row shrinks it.
pub open spec fn count_uncovered(placed: Seq<(u32, u32, u32)>, hi: nat) -> nat
    decreases hi,
{
    if hi == 0 {
        0
    } else {
        count_uncovered(placed, (hi - 1) as nat) + (if has_row(placed, hi - 1) {
            0nat
        } else {
            1nat
        })
    }
}

proof fn lemma_count_uncovered_le(p1: Seq<(u32, u32, u32)>, p2: Seq<(u32, u32, u32)>, hi: nat)
    requires
        forall|r: int| #[trigger] has_row(p1, r) ==> has_row(p2, r),
    ensures
        count_uncovered(p2, hi) <= count_uncovered(p1, hi),
    decreases hi,
{
    if hi > 0 {
        lemma_count_uncovered_le(p1, p2, (hi - 1) as nat);
    }
}

proof fn lemma_count_uncovered_strict(
    p1: Seq<(u32, u32, u32)>,
    p2: Seq<(u32, u32, u32)>,
    hi: nat,
    r0: int,
)
    requires
        forall|r: int| #[trigger] has_row(p1, r) ==> has_row(p2, r),
        0 <= r0 < hi,
        !has_row(p1, r0),
        has_row(p2, r0),
    ensures
        count_uncovered(p2, hi) < count_uncovered(p1, hi),
    decreases hi,
{
    if r0 == hi - 1 {
        lemma_count_uncovered_le(p1, p2, (hi - 1) as nat);
    } else {
        lemma_count_uncovered_strict(p1, p2, (hi - 1) as nat, r0);
    }
}

/// Keep the candidates that do not clash with the newly placed cell.  Order
/// and distinctness are preserved, and nothing compatible is lost.
fn filter_non_clashing(cands: &Vec<(u32, u32, u32)>, t: (u32, u32, u32)) -> (rest: Vec<
    (u32, u32, u32),
>)
    requires
        cands_distinct(cands@),
    ensures
        forall|k: int|
            0 <= k < rest@.len() ==> !triples_clash(#[trigger] rest@[k], t) && cands@.contains(
                rest@[k],
            ),
        forall|j: int|
            0 <= j < cands@.len() && !triples_clash(#[trigger] cands@[j], t) ==> rest@.contains(
                cands@[j],
            ),
        cands_distinct(rest@),
{
    let mut rest: Vec<(u32, u32, u32)> = Vec::new();
    let mut i: usize = 0;
    while i < cands.len()
        invariant
            i <= cands@.len(),
            cands_distinct(cands@),
            forall|k: int|
                0 <= k < rest@.len() ==> !triples_clash(#[trigger] rest@[k], t)
                    && cands@.contains(rest@[k]),
            forall|j: int|
                0 <= j < i && !triples_clash(#[trigger] cands@[j], t) ==> rest@.contains(
                    cands@[j],
                ),
            forall|k: int|
                0 <= k < rest@.len() ==> exists|j: int|
                    0 <= j < i && (#[trigger] rest@[k]) == cands@[j],
            cands_distinct(rest@),
        decreases cands@.len() - i,
    {
        let cand = cands[i];
        let ghost rest_pre = rest@;
        if !check_clash(cand, t) {
            rest.push(cand);
            proof {
                assert(rest@[rest_pre.len() as int] == cand);
                assert(cands@.contains(cand)) by {
                    assert(cands@[i as int] == cand);
                }
                assert forall|k1: int, k2: int|
                    0 <= k1 < k2 < rest@.len() implies (#[trigger] rest@[k1]) != (
                #[trigger] rest@[k2]) by {
                    if k2 == rest_pre.len() {
                        assert(rest@[k1] == rest_pre[k1]);
                        let j = choose|j: int|
                            0 <= j < i && (#[trigger] rest_pre[k1]) == cands@[j];
                        assert(cands@[j] != cands@[i as int]);
                    } else {
                        assert(rest@[k1] == rest_pre[k1] && rest@[k2] == rest_pre[k2]);
                    }
                }
                assert forall|k: int|
                    0 <= k < rest@.len() implies exists|j: int|
                    0 <= j < i + 1 && (#[trigger] rest@[k]) == cands@[j] by {
                    if k < rest_pre.len() {
                        assert(rest@[k] == rest_pre[k]);
                        let j = choose|j: int|
                            0 <= j < i && (#[trigger] rest_pre[k]) == cands@[j];
                    } else {
                        assert(rest@[k] == cands@[i as int]);
                    }
                }
                assert forall|j: int|
                    0 <= j < i + 1 && !triples_clash(#[trigger] cands@[j], t) implies rest@.contains(
                    cands@[j],
                ) by {
                    if j < i {
                        assert(rest_pre.contains(cands@[j]));
                        let k = choose|k: int|
                            0 <= k < rest_pre.len() && rest_pre[k] == cands@[j];
                        assert(rest@[k] == rest_pre[k]);
                    } else {
                        assert(rest@[rest_pre.len() as int] == cands@[j]);
                    }
                }
            }
        } else {
            proof {
                assert forall|j: int|
                    0 <= j < i + 1 && !triples_clash(#[trigger] cands@[j], t) implies rest@.contains(
                    cands@[j],
                ) by {}
            }
        }
        i = i + 1;
    }
    rest
}

/// Filtering the candidates against the newly placed cell loses no
/// completion of the extended partial assignment.
proof fn lemma_filter_completion(
    cands: Seq<(u32, u32, u32)>,
    rest: Seq<(u32, u32, u32)>,
    placed: Seq<(u32, u32, u32)>,
    size: int,
    t: (u32, u32, u32),
)
    requires
        0 <= (t.0 as int) < size,
        forall|k: int|
            0 <= k < rest.len() ==> !triples_clash(#[trigger] rest[k], t) && cands.contains(
                rest[k],
            ),
        forall|j: int|
            0 <= j < cands.len() && !triples_clash(#[trigger] cands[j], t) ==> rest.contains(
                cands[j],
            ),
    ensures
        some_completion(rest, placed.push(t), size) == some_completion(cands, placed.push(t), size),
{
    let placed2 = placed.push(t);
    assert forall|sol: Seq<(u32, u32)>|
        #![trigger completes(rest, placed2, size, sol)]
        #![trigger completes(cands, placed2, size, sol)]
        completes(rest, placed2, size, sol) <==> completes(cands, placed2, size, sol) by {
        if completes(rest, placed2, size, sol) {
            assert forall|r: int|
                0 <= r < size implies cands.contains(#[trigger] sol_triple(sol, r))
                || placed2.contains(sol_triple(sol, r)) by {
                if rest.contains(sol_triple(sol, r)) {
                    let k = choose|k: int| 0 <= k < rest.len() && rest[k] == sol_triple(sol, r);
                    assert(cands.contains(rest[k]));
                }
            }
            assert(completes(cands, placed2, size, sol));
        }
        if completes(cands, placed2, size, sol) {
            assert(placed2[placed.len() as int] == t);
            assert(sol[t.0 as int] == (t.1, t.2));
            assert(sol_triple(sol, t.0 as int) == t);
            assert forall|r: int|
                0 <= r < size implies rest.contains(#[trigger] sol_triple(sol, r))
                || placed2.contains(sol_triple(sol, r)) by {
                if cands.contains(sol_triple(sol, r)) && !placed2.contains(sol_triple(sol, r)) {
                    let j = choose|j: int| 0 <= j < cands.len() && cands[j] == sol_triple(sol, r);
                    assert(r != t.0 as int) by {
                        if r == t.0 as int {
                            assert(placed2.contains(sol_triple(sol, r)));
                        }
                    }
                    assert(!triples_clash(cands[j], t)) by {
                        if r < t.0 as int {
                            assert(!triples_clash(
                                sol_triple(sol, r),
                                sol_triple(sol, t.0 as int),
                            ));
                        } else {
                            assert(!triples_clash(
                                sol_triple(sol, t.0 as int),
                                sol_triple(sol, r),
                            ));
                        }
                    }
                    assert(rest.contains(cands[j]));
                }
            }
            assert(completes(rest, placed2, size, sol));
        }
    }
    if some_completion(rest, placed2, size) {
        let sol = choose|sol: Seq<(u32, u32)>| completes(rest, placed2, size, sol);
        assert(completes(cands, placed2, size, sol));
    }
    if some_completion(cands, placed2, size) {
        let sol = choose|sol: Seq<(u32, u32)>| completes(cands, placed2, size, sol);
        assert(completes(rest, placed2, size, sol));
    }
}

/// Whether the partial assignment in `building_solution` cannot be extended
/// to cover every row with candidates from `possible_queens`: the search
/// returns false exactly when a clash-free completion exists.  The `rows`
/// list mirrors the rows of the cells already placed.
#[verifier::rlimit(100)]
pub fn check_valid_addition(
    building_solution: &mut Vec<(u32, u32, u32)>,
    possible_queens: &mut Vec<(u32, u32, u32)>,
    size: u32,
    rows: &mut Vec<u32>,
) -> (no_solution: bool)
    requires
        0 < size <= 65535,
        cands_wf(old(possible_queens)@, size as int),
        cands_distinct(old(possible_queens)@),
        placed_wf(old(building_solution)@, size as int),
        placed_pairwise_ok(old(building_solution)@),
        old(rows)@.len() == old(building_solution)@.len(),
        forall|k: int|
            0 <= k < old(rows)@.len() ==> (#[trigger] old(rows)@[k]) == old(
                building_solution,
            )@[k].0,
    ensures
        final(building_solution)@ == old(building_solution)@,
        final(possible_queens)@ == old(possible_queens)@,
        final(rows)@ == old(rows)@,
        no_solution == !some_completion(
            old(possible_queens)@,
            old(building_solution)@,
            size as int,
        ),
    decreases count_uncovered(old(building_solution)@, size as nat),
{
    let ghost placed0 = building_solution@;
    let ghost cands = possible_queens@;
    let ghost sz = size as int;
    // find the first row not yet assigned
    let mut next_row: u32 = 0;
    let mut have_row = false;
    let mut r: u32 = 0;
    while r < size && !have_row
        invariant
            r <= size,
            building_solution@ == placed0,
            !have_row ==> forall|rr: int| 0 <= rr < r ==> #[trigger] has_row(placed0, rr),
            have_row ==> next_row < size && !has_row(placed0, next_row as int),
        decreases (if have_row {
            0int
        } else {
            1int
        }), size - r,
    {
        if !placed_has_row(building_solution, r) {
            next_row = r;
            have_row = true;
        } else {
            r = r + 1;
        }
    }
    if !have_row {
        // every row is covered: the placed cells are themselves a completion
        proof {
            lemma_full_placed_unique(cands, placed0, sz);
        }
        return false;
    }
    let ghost cr = next_row as int;
    // try each candidate of that row
    let mut i: usize = 0;
    while i < possible_queens.len()
        invariant
            0 < size <= 65535,
            sz == size as int,
            cr == next_row as int,
            next_row < size,
            i <= possible_queens@.len(),
            placed0 == old(building_solution)@,
            cands == old(possible_queens)@,
            building_solution@ == placed0,
            possible_queens@ == cands,
            rows@ == old(rows)@,
            cands_wf(cands, sz),
            cands_distinct(cands),
            placed_wf(placed0, sz),
            placed_pairwise_ok(placed0),
            old(rows)@.len() == placed0.len(),
            forall|k: int|
                0 <= k < old(rows)@.len() ==> (#[trigger] old(rows)@[k]) == placed0[k].0,
            !has_row(placed0, cr),
            !some_among(cands, placed0, sz, cr, i as int),
        decreases cands.len() - i,
    {
        let t = possible_queens[i];
        if t.0 == next_row {
            if !clashes_with_placed(building_solution, t) {
                rows.push(next_row);
                building_solution.push(t);
                let mut rest = filter_non_clashing(possible_queens, t);
                proof {
                    assert forall|k1: int, k2: int|
                        0 <= k1 < k2 < building_solution@.len() implies !triples_clash(
                        #[trigger] building_solution@[k1],
                        #[trigger] building_solution@[k2],
                    ) by {
                        if k2 == placed0.len() {
                            assert(building_solution@[k1] == placed0[k1]);
                            assert(!triples_clash(placed0[k1], t));
                        } else {
                            assert(building_solution@[k1] == placed0[k1]
                                && building_solution@[k2] == placed0[k2]);
                        }
                    }
                    assert forall|rr: int|
                        #[trigger] has_row(placed0, rr) implies has_row(
                        building_solution@,
                        rr,
                    ) by {
                        let k = choose|k: int|
                            0 <= k < placed0.len() && (#[trigger] placed0[k]).0 == rr;
                        assert(building_solution@[k] == placed0[k]);
                    }
                    assert(has_row(building_solution@, cr)) by {
                        assert(building_solution@[placed0.len() as int] == t);
                    }
                    lemma_count_uncovered_strict(
                        placed0,
                        building_solution@,
                        size as nat,
                        cr,
                    );
                }
                let sub = check_valid_addition(building_solution, &mut rest, size, rows);
                building_solution.pop();
                rows.pop();
                proof {
                    assert(building_solution@ =~= placed0);
                    assert(rows@ =~= old(rows)@);
                }
                if !sub {
                    proof {
                        lemma_filter_completion(cands, rest@, placed0, sz, t);
                        assert(cands.contains(t)) by {
                            assert(cands[i as int] == t);
                        }
                        lemma_push_some_two(cands, placed0, sz, t, cr);
                        let sol = choose|sol: Seq<(u32, u32)>|
                            completes_with(cands, placed0, sz, cr, (t.1, t.2), sol);
                        assert(completes(cands, placed0, sz, sol));
                        assert(some_completion(cands, placed0, sz));
                    }
                    return false;
                }
                proof {
                    lemma_filter_completion(cands, rest@, placed0, sz, t);
                    assert(cands.contains(t)) by {
                        assert(cands[i as int] == t);
                    }
                    lemma_push_some_two(cands, placed0, sz, t, cr);
                    lemma_among_extend(cands, placed0, sz, cr, i as int);
                }
            } else {
                proof {
                    let k = choose|k: int|
                        0 <= k < placed0.len() && triples_clash(#[trigger] placed0[k], t);
                    lemma_clash_no_completion(cands, placed0, sz, t, cr, k);
                    lemma_among_extend(cands, placed0, sz, cr, i as int);
                }
            }
        } else {
            proof {
                lemma_among_skip(cands, placed0, sz, cr, i as int);
            }
        }
        i = i + 1;
    }
    proof {
        lemma_among_full(cands, placed0, sz, cr);
    }
    true
}

} // verus!
