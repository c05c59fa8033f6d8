//! The board model: flattened cell indexing, adjacency, and the marker
//! placement invariant that the whole pipeline revolves around.

use vstd::prelude::*;

verus! {

/// Flattened index of the cell in row `r`, column `c` of a board `size` cells wide.
pub open spec fn cell_idx(size: int, r: int, c: int) -> int {
    r * size + c
}

pub open spec fn in_bounds(size: int, r: int, c: int) -> bool {
    0 <= r < size && 0 <= c < size
}

/// A grid that covers a `size` by `size` board, one value per cell.
pub open spec fn grid_sized(g: Seq<u32>, size: int) -> bool {
    g.len() == size * size
}

/// The board fits the `u32` index arithmetic the executable code performs.
pub open spec fn size_ok(size: u32) -> bool {
    (size as int) * (size as int) <= u32::MAX as int
}

pub proof fn lemma_size_ok_bound(size: u32)
    requires
        size_ok(size),
    ensures
        size <= 65535,
{
    assert(size <= 65535) by (nonlinear_arith)
        requires
            (size as int) * (size as int) <= u32::MAX as int,
    ;
}

pub proof fn lemma_cell_idx_bounds(size: int, r: int, c: int)
    requires
        in_bounds(size, r, c),
    ensures
        0 <= cell_idx(size, r, c) < size * size,
{
    assert(0 <= r * size + c < size * size) by (nonlinear_arith)
        requires
            0 <= r < size && 0 <= c < size,
    ;
}

pub proof fn lemma_cell_idx_injective(size: int, r1: int, c1: int, r2: int, c2: int)
    requires
        in_bounds(size, r1, c1),
        in_bounds(size, r2, c2),
        cell_idx(size, r1, c1) == cell_idx(size, r2, c2),
    ensures
        r1 == r2 && c1 == c2,
{
    assert(r1 == r2 && c1 == c2) by (nonlinear_arith)
        requires
            0 <= r1 < size && 0 <= c1 < size,
            0 <= r2 < size && 0 <= c2 < size,
            r1 * size + c1 == r2 * size + c2,
    ;
}

/// Distinct in-bounds positions have distinct flattened indices.
pub proof fn lemma_cell_idx_distinct(size: int, r1: int, c1: int, r2: int, c2: int)
    requires
        in_bounds(size, r1, c1),
        in_bounds(size, r2, c2),
        r1 != r2 || c1 != c2,
    ensures
        cell_idx(size, r1, c1) != cell_idx(size, r2, c2),
{
    if cell_idx(size, r1, c1) == cell_idx(size, r2, c2) {
        lemma_cell_idx_injective(size, r1, c1, r2, c2);
    }
}

/// Number of unassigned cells; region growth strictly shrinks it.
pub open spec fn count_zeros(s: Seq<u32>) -> nat
    decreases s.len(),
{
    if s.len() == 0 {
        0
    } else {
        count_zeros(s.drop_last()) + (if s.last() == 0 {
            1nat
        } else {
            0nat
        })
    }
}

pub proof fn lemma_count_zeros_set_nonzero(s: Seq<u32>, i: int, v: u32)
    requires
        0 <= i < s.len(),
        s[i] == 0,
        v != 0,
    ensures
        count_zeros(s.update(i, v)) < count_zeros(s),
    decreases s.len(),
{
    let s2 = s.update(i, v);
    if i == s.len() - 1 {
        assert(s2.drop_last() =~= s.drop_last());
        assert(s2.last() == v);
        assert(s.last() == 0);
    } else {
        assert(s2.drop_last() =~= s.drop_last().update(i, v));
        assert(s2.last() == s.last());
        lemma_count_zeros_set_nonzero(s.drop_last(), i, v);
    }
}

/// Number of cells a flood fill has not marked yet; each marking shrinks it.
pub open spec fn count_false(s: Seq<bool>) -> nat
    decreases s.len(),
{
    if s.len() == 0 {
        0
    } else {
        count_false(s.drop_last()) + (if s.last() {
            0nat
        } else {
            1nat
        })
    }
}

pub proof fn lemma_count_false_mark(s: Seq<bool>, i: int)
    requires
        0 <= i < s.len(),
        !s[i],
    ensures
        count_false(s.update(i, true)) < count_false(s),
    decreases s.len(),
{
    let s2 = s.update(i, true);
    if i == s.len() - 1 {
        assert(s2.drop_last() =~= s.drop_last());
    } else {
        assert(s2.drop_last() =~= s.drop_last().update(i, true));
        assert(s2.last() == s.last());
        lemma_count_false_mark(s.drop_last(), i);
    }
}

/// A grid with no new zeroes has no more zeroes than before.
pub proof fn lemma_count_zeros_le(a: Seq<u32>, b: Seq<u32>)
    requires
        a.len() == b.len(),
        forall|i: int| 0 <= i < b.len() && b[i] == 0 ==> a[i] == 0,
    ensures
        count_zeros(b) <= count_zeros(a),
    decreases a.len(),
{
    if a.len() > 0 {
        lemma_count_zeros_le(a.drop_last(), b.drop_last());
    }
}

/// A grid with no new zeroes and at least one zero filled in has strictly
/// fewer zeroes.
pub proof fn lemma_count_zeros_strict(a: Seq<u32>, b: Seq<u32>, i0: int)
    requires
        a.len() == b.len(),
        forall|i: int| 0 <= i < b.len() && b[i] == 0 ==> a[i] == 0,
        0 <= i0 < a.len(),
        a[i0] == 0,
        b[i0] != 0,
    ensures
        count_zeros(b) < count_zeros(a),
    decreases a.len(),
{
    if i0 == a.len() - 1 {
        lemma_count_zeros_le(a.drop_last(), b.drop_last());
    } else {
        lemma_count_zeros_strict(a.drop_last(), b.drop_last(), i0);
    }
}

/// The row and column of a flattened cell index.
pub open spec fn row_of(size: int, i: int) -> int {
    i / size
}

pub open spec fn col_of(size: int, i: int) -> int {
    i % size
}

/// A flattened index below `size * size` names an in-bounds cell, and
/// flattening its coordinates gives the index back.
pub proof fn lemma_flat_coords(size: int, i: int)
    requires
        size > 0,
        0 <= i < size * size,
    ensures
        in_bounds(size, row_of(size, i), col_of(size, i)),
        cell_idx(size, row_of(size, i), col_of(size, i)) == i,
{
    vstd::arithmetic::div_mod::lemma_fundamental_div_mod(i, size);
    vstd::arithmetic::div_mod::lemma_mod_bound(i, size);
    let r = i / size;
    let c = i % size;
    assert(0 <= r < size) by (nonlinear_arith)
        requires
            size > 0,
            0 <= i < size * size,
            i == size * r + c,
            0 <= c < size,
    ;
    assert(cell_idx(size, r, c) == i) by (nonlinear_arith)
        requires
            i == size * r + c,
    ;
}

/// Conversely, the coordinates of an in-bounds cell are recovered from its
/// flattened index.
pub proof fn lemma_coords_flat(size: int, r: int, c: int)
    requires
        in_bounds(size, r, c),
    ensures
        row_of(size, cell_idx(size, r, c)) == r,
        col_of(size, cell_idx(size, r, c)) == c,
{
    assert(cell_idx(size, r, c) == r * size + c);
    vstd::arithmetic::div_mod::lemma_fundamental_div_mod_converse_div(r * size + c, size, r, c);
    vstd::arithmetic::div_mod::lemma_fundamental_div_mod_converse_mod(r * size + c, size, r, c);
}

/// Every flattened index below `size * size` is the index of some cell.
pub proof fn lemma_cell_idx_surjective(size: int, i: int)
    requires
        size > 0,
        0 <= i < size * size,
    ensures
        exists|r: int, c: int| in_bounds(size, r, c) && #[trigger] cell_idx(size, r, c) == i,
{
    vstd::arithmetic::div_mod::lemma_fundamental_div_mod(i, size);
    vstd::arithmetic::div_mod::lemma_mod_bound(i, size);
    let r = i / size;
    let c = i % size;
    assert(0 <= r < size) by (nonlinear_arith)
        requires
            size > 0,
            0 <= i < size * size,
            i == size * r + c,
            0 <= c < size,
    ;
    assert(cell_idx(size, r, c) == i) by (nonlinear_arith)
        requires
            i == size * r + c,
    ;
    assert(in_bounds(size, r, c) && cell_idx(size, r, c) == i);
}

/// The two positions lie within one step of each other in both coordinates
/// (Chebyshev distance at most 1); this includes the position itself.
pub open spec fn chebyshev_close(r1: int, c1: int, r2: int, c2: int) -> bool {
    -1 <= r1 - r2 <= 1 && -1 <= c1 - c2 <= 1
}

/// Every cell of the grid holds 0 or 1.
pub open spec fn binary_grid(q: Seq<u32>, size: int) -> bool {
    grid_sized(q, size) && forall|i: int| 0 <= i < q.len() ==> q[i] == 0 || q[i] == 1
}

pub open spec fn is_queen(q: Seq<u32>, size: int, r: int, c: int) -> bool {
    q[cell_idx(size, r, c)] == 1
}

/// Row `r` holds at least one marker.
pub open spec fn row_has_queen(q: Seq<u32>, size: int, r: int) -> bool {
    exists|c: int| 0 <= c < size && is_queen(q, size, r, c)
}

/// The pairwise rules every placement, full or partial, obeys: at most one
/// marker per row, pairwise distinct columns, and no two markers within
/// Chebyshev distance 1 of each other.
pub open spec fn placement_constraints(q: Seq<u32>, size: int) -> bool {
    &&& forall|r: int, c1: int, c2: int|
        #![trigger is_queen(q, size, r, c1), is_queen(q, size, r, c2)]
        0 <= r < size && 0 <= c1 < size && 0 <= c2 < size && is_queen(q, size, r, c1)
            && is_queen(q, size, r, c2) ==> c1 == c2
    &&& forall|r1: int, c1: int, r2: int, c2: int|
        #![trigger is_queen(q, size, r1, c1), is_queen(q, size, r2, c2)]
        in_bounds(size, r1, c1) && in_bounds(size, r2, c2) && r1 != r2 && is_queen(
            q,
            size,
            r1,
            c1,
        ) && is_queen(q, size, r2, c2) ==> c1 != c2 && !chebyshev_close(r1, c1, r2, c2)
}

/// The marker placement the puzzle must uniquely reproduce: exactly one
/// marker per row, and the pairwise rules above.
pub open spec fn valid_placement(q: Seq<u32>, size: int) -> bool {
    &&& binary_grid(q, size)
    &&& forall|r: int| 0 <= r < size ==> #[trigger] row_has_queen(q, size, r)
    &&& placement_constraints(q, size)
}

/// The column of the unique marker in row `r` of a valid placement.
pub open spec fn queen_at(q: Seq<u32>, size: int, r: int) -> int {
    choose|c: int| 0 <= c < size && is_queen(q, size, r, c)
}

pub proof fn lemma_queen_at(q: Seq<u32>, size: int, r: int)
    requires
        valid_placement(q, size),
        0 <= r < size,
    ensures
        0 <= queen_at(q, size, r) < size,
        is_queen(q, size, r, queen_at(q, size, r)),
        forall|c: int| 0 <= c < size && is_queen(q, size, r, c) ==> c == queen_at(q, size, r),
{
    assert(row_has_queen(q, size, r));
    assert(exists|c: int| 0 <= c < size && is_queen(q, size, r, c));
}

} // verus!
