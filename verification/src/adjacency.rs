//! Index arithmetic for the grid.
//!
//! Tiles are addressed by a linearized index `row * width + col`. This
//! module defines the decomposition of an index into coordinates, the
//! adjacency relation of the 8-neighbourhood, and the sequence of
//! neighbours of a cell, together with the facts the board logic needs:
//! every neighbour is an adjacent on-grid index, the sequence has no
//! duplicates and at most 8 entries, it holds exactly the adjacent
//! indices, and adjacency is symmetric.

use vstd::prelude::*;

verus! {

use vstd::arithmetic::div_mod::lemma_fundamental_div_mod;
use vstd::arithmetic::div_mod::lemma_fundamental_div_mod_converse;
use vstd::arithmetic::mul::lemma_mul_is_commutative;
use vstd::seq_lib::lemma_no_dup_in_concat;
use vstd::seq_lib::lemma_seq_concat_contains_all_elements;

/// Column of a linear index on a board `w` tiles wide.
pub open spec fn col(w: usize, idx: usize) -> int {
    (idx as int) % (w as int)
}

/// Row of a linear index on a board `w` tiles wide.
pub open spec fn row(w: usize, idx: usize) -> int {
    (idx as int) / (w as int)
}

/// Whether `(x, y)` is a cell of a `w` by `h` grid.
pub open spec fn in_grid(w: usize, h: usize, x: int, y: int) -> bool {
    0 <= x < w as int && 0 <= y < h as int
}

/// The linear index of the cell in column `x` of row `y`.
pub open spec fn lin(w: usize, x: int, y: int) -> usize {
    (y * (w as int) + x) as usize
}

/// A one-entry sequence holding the index of `(x, y)` if that cell lies
/// on the grid, else the empty sequence.
pub open spec fn cell(w: usize, h: usize, x: int, y: int) -> Seq<usize> {
    if in_grid(w, h, x, y) {
        seq![lin(w, x, y)]
    } else {
        Seq::empty()
    }
}

/// The neighbours of `idx`: the up-to-8 cells of the 3x3 block centered
/// on `idx`, without the center itself, clipped to the grid, listed in
/// row-major order.
pub open spec fn nb_seq(w: usize, h: usize, idx: usize) -> Seq<usize> {
    let x = col(w, idx);
    let y = row(w, idx);
    cell(w, h, x - 1, y - 1) + cell(w, h, x, y - 1) + cell(w, h, x + 1, y - 1) + cell(
        w,
        h,
        x - 1,
        y,
    ) + cell(w, h, x + 1, y) + cell(w, h, x - 1, y + 1) + cell(w, h, x, y + 1) + cell(
        w,
        h,
        x + 1,
        y + 1,
    )
}

/// Two distinct valid indices whose columns and whose rows each differ
/// by at most one.
pub open spec fn adjacent(w: usize, h: usize, a: usize, b: usize) -> bool {
    &&& (a as int) < (w as int) * (h as int)
    &&& (b as int) < (w as int) * (h as int)
    &&& a != b
    &&& -1 <= col(w, a) - col(w, b) <= 1
    &&& -1 <= row(w, a) - row(w, b) <= 1
}

/// A grid that holds a valid index has positive extent in both directions.
pub proof fn lemma_grid_positive(w: usize, h: usize, idx: usize)
    requires
        (idx as int) < (w as int) * (h as int),
    ensures
        w > 0,
        h > 0,
{
    if w == 0 || h == 0 {
        assert((w as int) * (h as int) == 0) by (nonlinear_arith)
            requires
                w == 0 || h == 0,
        ;
    }
}

/// A valid index decomposes into on-grid coordinates, and linearizing
/// them gives the index back.
pub proof fn lemma_coords(w: usize, h: usize, idx: usize)
    requires
        (idx as int) < (w as int) * (h as int),
    ensures
        in_grid(w, h, col(w, idx), row(w, idx)),
        idx as int == row(w, idx) * (w as int) + col(w, idx),
{
    lemma_grid_positive(w, h, idx);
    let wi = w as int;
    let x = col(w, idx);
    let y = row(w, idx);
    lemma_fundamental_div_mod(idx as int, wi);
    lemma_mul_is_commutative(wi, y);
    assert(0 <= x < wi) by {
        vstd::arithmetic::div_mod::lemma_mod_bound(idx as int, wi);
    }
    assert(y >= 0) by {
        if y < 0 {
            assert(y * wi + x < 0) by (nonlinear_arith)
                requires
                    y <= -1,
                    wi > 0,
                    x < wi,
            ;
        }
    }
    assert(y < h as int) by {
        if y >= h as int {
            assert(y * wi + x >= (h as int) * wi) by (nonlinear_arith)
                requires
                    y >= h as int,
                    wi > 0,
                    x >= 0,
            ;
            lemma_mul_is_commutative(h as int, wi);
        }
    }
}

/// Linearizing an on-grid cell gives a valid index that decomposes back
/// into the same coordinates.
pub proof fn lemma_lin_coords(w: usize, h: usize, x: int, y: int)
    requires
        in_grid(w, h, x, y),
        (w as int) * (h as int) <= usize::MAX,
    ensures
        (lin(w, x, y) as int) == y * (w as int) + x,
        (lin(w, x, y) as int) < (w as int) * (h as int),
        col(w, lin(w, x, y)) == x,
        row(w, lin(w, x, y)) == y,
{
    let wi = w as int;
    assert(0 <= y * wi + x < wi * (h as int)) by (nonlinear_arith)
        requires
            0 <= x < wi,
            0 <= y < h as int,
            wi > 0,
    ;
    lemma_mul_is_commutative(w as int, h as int);
    lemma_fundamental_div_mod_converse(lin(w, x, y) as int, wi, y, x);
}

/// Adjacency is symmetric.
pub proof fn lemma_adjacent_sym(w: usize, h: usize, a: usize, b: usize)
    ensures
        adjacent(w, h, a, b) == adjacent(w, h, b, a),
{
}

/// The neighbour sequence of a valid index holds exactly the indices
/// adjacent to it, each once, and there are at most 8 of them.
#[verifier::rlimit(40)]
pub proof fn lemma_nb_seq(w: usize, h: usize, idx: usize)
    requires
        (idx as int) < (w as int) * (h as int),
        (w as int) * (h as int) <= usize::MAX,
    ensures
        nb_seq(w, h, idx).len() <= 8,
        nb_seq(w, h, idx).no_duplicates(),
        forall|k: int|
            0 <= k < nb_seq(w, h, idx).len() ==> adjacent(w, h, idx, #[trigger] nb_seq(w, h, idx)[k]),
        forall|j: usize| #[trigger] nb_seq(w, h, idx).contains(j) <==> adjacent(w, h, idx, j),
{
    broadcast use lemma_seq_concat_contains_all_elements;

    lemma_coords(w, h, idx);
    let x = col(w, idx);
    let y = row(w, idx);
    let s = nb_seq(w, h, idx);
    let c1 = cell(w, h, x - 1, y - 1);
    let c2 = cell(w, h, x, y - 1);
    let c3 = cell(w, h, x + 1, y - 1);
    let c4 = cell(w, h, x - 1, y);
    let c5 = cell(w, h, x + 1, y);
    let c6 = cell(w, h, x - 1, y + 1);
    let c7 = cell(w, h, x, y + 1);
    let c8 = cell(w, h, x + 1, y + 1);
    if in_grid(w, h, x - 1, y - 1) {
        lemma_lin_coords(w, h, x - 1, y - 1);
    }
    if in_grid(w, h, x, y - 1) {
        lemma_lin_coords(w, h, x, y - 1);
    }
    if in_grid(w, h, x + 1, y - 1) {
        lemma_lin_coords(w, h, x + 1, y - 1);
    }
    if in_grid(w, h, x - 1, y) {
        lemma_lin_coords(w, h, x - 1, y);
    }
    if in_grid(w, h, x + 1, y) {
        lemma_lin_coords(w, h, x + 1, y);
    }
    if in_grid(w, h, x - 1, y + 1) {
        lemma_lin_coords(w, h, x - 1, y + 1);
    }
    if in_grid(w, h, x, y + 1) {
        lemma_lin_coords(w, h, x, y + 1);
    }
    if in_grid(w, h, x + 1, y + 1) {
        lemma_lin_coords(w, h, x + 1, y + 1);
    }
    assert(in_grid(w, h, x, y) && lin(w, x, y) == idx) by {
        lemma_lin_coords(w, h, x, y);
        lemma_fundamental_div_mod(idx as int, w as int);
        lemma_mul_is_commutative(w as int, y);
    }
    assert(s == c1 + c2 + c3 + c4 + c5 + c6 + c7 + c8);
    assert(s.len() <= 8);
    // A value held by any cell of the block is an adjacent index: its
    // column and row are within one of those of `idx`, and its
    // coordinates differ from those of `idx`.
    assert forall|j: usize| #[trigger] s.contains(j) implies adjacent(w, h, idx, j) by {}
    // An adjacent index is the linearization of its own coordinates,
    // which form one of the 8 cells of the block.
    assert forall|j: usize| adjacent(w, h, idx, j) implies #[trigger] s.contains(j) by {
        lemma_coords(w, h, j);
        let jx = col(w, j);
        let jy = row(w, j);
        lemma_lin_coords(w, h, jx, jy);
        assert(lin(w, jx, jy) == j);
        assert(cell(w, h, jx, jy)[0] == j);
        assert(cell(w, h, jx, jy).contains(j));
    }
    assert forall|k: int| 0 <= k < s.len() implies adjacent(w, h, idx, #[trigger] s[k]) by {
        assert(s.contains(s[k]));
    }
    // Cells of the block hold pairwise distinct values, because their
    // coordinates differ; so the concatenation has no duplicates.
    assert forall|i: int, j: int| 0 <= i < c1.len() && 0 <= j < c2.len() implies c1[i] != c2[j] by {}
    lemma_no_dup_in_concat(c1, c2);
    let p2 = c1 + c2;
    assert forall|i: int, j: int| 0 <= i < p2.len() && 0 <= j < c3.len() implies p2[i] != c3[j] by {
        assert(p2.contains(p2[i]));
    }
    lemma_no_dup_in_concat(p2, c3);
    let p3 = p2 + c3;
    assert forall|i: int, j: int| 0 <= i < p3.len() && 0 <= j < c4.len() implies p3[i] != c4[j] by {
        assert(p3.contains(p3[i]));
    }
    lemma_no_dup_in_concat(p3, c4);
    let p4 = p3 + c4;
    assert forall|i: int, j: int| 0 <= i < p4.len() && 0 <= j < c5.len() implies p4[i] != c5[j] by {
        assert(p4.contains(p4[i]));
    }
    lemma_no_dup_in_concat(p4, c5);
    let p5 = p4 + c5;
    assert forall|i: int, j: int| 0 <= i < p5.len() && 0 <= j < c6.len() implies p5[i] != c6[j] by {
        assert(p5.contains(p5[i]));
    }
    lemma_no_dup_in_concat(p5, c6);
    let p6 = p5 + c6;
    assert forall|i: int, j: int| 0 <= i < p6.len() && 0 <= j < c7.len() implies p6[i] != c7[j] by {
        assert(p6.contains(p6[i]));
    }
    lemma_no_dup_in_concat(p6, c7);
    let p7 = p6 + c7;
    assert forall|i: int, j: int| 0 <= i < p7.len() && 0 <= j < c8.len() implies p7[i] != c8[j] by {
        assert(p7.contains(p7[i]));
    }
    lemma_no_dup_in_concat(p7, c8);
    assert(s.no_duplicates());
}

} // verus!
