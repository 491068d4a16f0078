//! Mathematical model of a square constraint-puzzle grid.
//!
//! A grid of box size `bs` has side `grid_width(bs) = bs * bs` and
//! `grid_cells(bs)` cells, stored row-major.  A cell holds `0` (empty) or a
//! value in `1 ..= grid_width(bs)`.  Two distinct cells constrain each other
//! when they share a row, a column, or a box (`sees`).

use vstd::prelude::*;
use vstd::arithmetic::div_mod::{
    lemma_fundamental_div_mod, lemma_fundamental_div_mod_converse_div,
    lemma_fundamental_div_mod_converse_mod,
};

verus! {

/// Side length of the whole grid for a given box size.
pub open spec fn grid_width(bs: int) -> int {
    bs * bs
}

/// Number of cells of the whole grid for a given box size.
pub open spec fn grid_cells(bs: int) -> int {
    grid_width(bs) * grid_width(bs)
}

/// Row of the cell with flat index `i`.
pub open spec fn row_of(bs: int, i: int) -> int {
    i / grid_width(bs)
}

/// Column of the cell with flat index `i`.
pub open spec fn col_of(bs: int, i: int) -> int {
    i % grid_width(bs)
}

/// Box of the cell with flat index `i`: boxes are numbered row-major,
/// `bs` boxes per band of `bs` grid rows.
pub open spec fn box_of(bs: int, i: int) -> int {
    (row_of(bs, i) / bs) * bs + col_of(bs, i) / bs
}

/// Two cells constrain each other: they share a row, a column, or a box.
/// This relation is reflexive; a cell sees itself.
pub open spec fn sees(bs: int, i: int, j: int) -> bool {
    ||| row_of(bs, i) == row_of(bs, j)
    ||| col_of(bs, i) == col_of(bs, j)
    ||| box_of(bs, i) == box_of(bs, j)
}

/// A value that an assigned cell may hold.
pub open spec fn val_ok(bs: int, v: u8) -> bool {
    1 <= v <= grid_width(bs)
}

/// The cell sequence has the right length and every cell is empty or holds
/// a value in range.
pub open spec fn cells_ok(bs: int, s: Seq<u8>) -> bool {
    &&& s.len() == grid_cells(bs)
    &&& forall|i: int| 0 <= i < s.len() ==> #[trigger] s[i] <= grid_width(bs)
}

/// Placing `v` at cell `x` breaks no constraint: no cell that `x` sees
/// (including `x` itself) already holds `v`.  Empty cells never conflict.
pub open spec fn legal_at(bs: int, s: Seq<u8>, x: int, v: u8) -> bool {
    forall|j: int| 0 <= j < s.len() && sees(bs, x, j) ==> #[trigger] s[j] != v
}

/// No two distinct cells that see each other hold the same non-empty value.
pub open spec fn consistent(bs: int, s: Seq<u8>) -> bool {
    forall|i: int, j: int|
        0 <= i < s.len() && 0 <= j < s.len() && i != j && sees(bs, i, j) && #[trigger] s[i] != 0
            ==> s[i] != #[trigger] s[j]
}

/// Every cell is assigned.
pub open spec fn full(s: Seq<u8>) -> bool {
    forall|i: int| 0 <= i < s.len() ==> #[trigger] s[i] != 0
}

/// `t` keeps every assignment of `s` (both of equal length).
pub open spec fn extends(s: Seq<u8>, t: Seq<u8>) -> bool {
    &&& t.len() == s.len()
    &&& forall|i: int| 0 <= i < s.len() && #[trigger] s[i] != 0 ==> t[i] == s[i]
}

/// `sol` is a complete legal assignment that keeps every value already
/// assigned in `s`.
pub open spec fn is_solution(bs: int, s: Seq<u8>, sol: Seq<u8>) -> bool {
    &&& cells_ok(bs, sol)
    &&& sol.len() == s.len()
    &&& full(sol)
    &&& consistent(bs, sol)
    &&& extends(s, sol)
}

/// The two grids have the same solutions: no deduction gained or lost.
pub open spec fn same_solutions(bs: int, s: Seq<u8>, t: Seq<u8>) -> bool {
    forall|sol: Seq<u8>| is_solution(bs, s, sol) <==> #[trigger] is_solution(bs, t, sol)
}

/// Number of empty cells among the first `k`.
pub open spec fn empties_upto(s: Seq<u8>, k: int) -> int
    decreases k,
{
    if k <= 0 {
        0
    } else {
        empties_upto(s, k - 1) + if s[k - 1] == 0 {
            1int
        } else {
            0int
        }
    }
}

/// Number of empty cells of the grid.
pub open spec fn num_empty(s: Seq<u8>) -> int {
    empties_upto(s, s.len() as int)
}

/// Number of values in `1 ..= vmax` that could legally be placed at cell `x`.
pub open spec fn options_upto(bs: int, s: Seq<u8>, x: int, vmax: int) -> int
    decreases vmax,
{
    if vmax <= 0 {
        0
    } else {
        options_upto(bs, s, x, vmax - 1) + if legal_at(bs, s, x, vmax as u8) {
            1int
        } else {
            0int
        }
    }
}

/// Number of values that could legally be placed at cell `x`.
pub open spec fn num_options(bs: int, s: Seq<u8>, x: int) -> int {
    options_upto(bs, s, x, grid_width(bs))
}

/// Option counts are never negative.
pub proof fn lemma_options_nonneg(bs: int, s: Seq<u8>, x: int, vmax: int)
    ensures
        options_upto(bs, s, x, vmax) >= 0,
    decreases vmax,
{
    if vmax > 0 {
        lemma_options_nonneg(bs, s, x, vmax - 1);
    }
}

/// A legal value below the bound makes the option count positive.
pub proof fn lemma_options_at_least_one(bs: int, s: Seq<u8>, x: int, v: u8, vmax: int)
    requires
        1 <= v <= vmax <= 255,
        legal_at(bs, s, x, v),
    ensures
        options_upto(bs, s, x, vmax) >= 1,
    decreases vmax,
{
    if v < vmax {
        lemma_options_at_least_one(bs, s, x, v, vmax - 1);
    } else {
        lemma_options_nonneg(bs, s, x, vmax - 1);
        assert(vmax as u8 == v);
    }
}

/// Two distinct legal values push the option count to at least two.
pub proof fn lemma_options_two(bs: int, s: Seq<u8>, x: int, u: u8, v: u8, vmax: int)
    requires
        1 <= u < v <= vmax <= 255,
        legal_at(bs, s, x, u),
        legal_at(bs, s, x, v),
    ensures
        options_upto(bs, s, x, vmax) >= 2,
    decreases vmax,
{
    if v == vmax {
        lemma_options_at_least_one(bs, s, x, u, vmax - 1);
        assert(vmax as u8 == v);
    } else {
        lemma_options_two(bs, s, x, u, v, vmax - 1);
    }
}

/// Option counts only grow with the prefix length.
pub proof fn lemma_options_mono(bs: int, s: Seq<u8>, x: int, v1: int, v2: int)
    requires
        v1 <= v2,
    ensures
        options_upto(bs, s, x, v1) <= options_upto(bs, s, x, v2),
    decreases v2 - v1,
{
    if v1 < v2 {
        lemma_options_mono(bs, s, x, v1, v2 - 1);
    }
}

/// A positive option count yields a legal value.
pub proof fn lemma_options_pos_exists(bs: int, s: Seq<u8>, x: int, vmax: int)
    requires
        options_upto(bs, s, x, vmax) >= 1,
        vmax <= 255,
    ensures
        exists|v: u8| 1 <= v <= vmax && #[trigger] legal_at(bs, s, x, v),
    decreases vmax,
{
    if vmax > 0 {
        if legal_at(bs, s, x, vmax as u8) {
            assert(1 <= vmax as u8 <= vmax && legal_at(bs, s, x, vmax as u8));
        } else {
            lemma_options_pos_exists(bs, s, x, vmax - 1);
        }
    }
}

/// When a cell has exactly one legal value, that value is unique: any two
/// legal values for the cell are equal.
pub proof fn lemma_unique_option(bs: int, s: Seq<u8>, x: int, u: u8, v: u8)
    requires
        grid_width(bs) <= 255,
        num_options(bs, s, x) == 1,
        val_ok(bs, u),
        val_ok(bs, v),
        legal_at(bs, s, x, u),
        legal_at(bs, s, x, v),
    ensures
        u == v,
{
    if u < v {
        lemma_options_two(bs, s, x, u, v, grid_width(bs));
    } else if v < u {
        lemma_options_two(bs, s, x, v, u, grid_width(bs));
    }
}

/// Counting empty cells is never negative.
pub proof fn lemma_empties_nonneg(s: Seq<u8>, k: int)
    ensures
        empties_upto(s, k) >= 0,
    decreases k,
{
    if k > 0 {
        lemma_empties_nonneg(s, k - 1);
    }
}

proof fn lemma_empties_update_upto(s: Seq<u8>, x: int, v: u8, k: int)
    requires
        0 <= x < s.len(),
        s[x] == 0,
        v != 0,
        k <= s.len(),
    ensures
        empties_upto(s.update(x, v), k) == empties_upto(s, k) - if x < k {
            1int
        } else {
            0int
        },
    decreases k,
{
    if k > 0 {
        lemma_empties_update_upto(s, x, v, k - 1);
    }
}

/// Filling an empty cell lowers the number of empty cells by one.
pub proof fn lemma_empties_update(s: Seq<u8>, x: int, v: u8)
    requires
        0 <= x < s.len(),
        s[x] == 0,
        v != 0,
    ensures
        num_empty(s.update(x, v)) == num_empty(s) - 1,
{
    lemma_empties_update_upto(s, x, v, s.len() as int);
}

/// Among the indices below `n` that satisfy `p`, a least one exists.
pub proof fn lemma_exists_least(p: spec_fn(int) -> bool, n: int)
    requires
        exists|x: int| 0 <= x < n && #[trigger] p(x),
    ensures
        exists|x: int|
            0 <= x < n && #[trigger] p(x) && (forall|y: int| 0 <= y < x ==> !#[trigger] p(y)),
    decreases n,
{
    let w = choose|x: int| 0 <= x < n && #[trigger] p(x);
    if exists|x: int| 0 <= x < n - 1 && #[trigger] p(x) {
        lemma_exists_least(p, n - 1);
    } else {
        assert(w == n - 1);
        assert(0 <= w < n && p(w) && (forall|y: int| 0 <= y < w ==> !#[trigger] p(y)));
    }
}

/// Bounds of a supported grid: at least one cell, at most `225 * 225`.
pub proof fn lemma_grid_bounds(bs: int)
    requires
        1 <= bs,
        grid_width(bs) <= 255,
    ensures
        1 <= grid_width(bs),
        bs <= 15,
        grid_width(bs) <= 225,
        grid_width(bs) <= grid_cells(bs),
        grid_cells(bs) <= 50625,
{
    assert(1 <= bs * bs) by (nonlinear_arith)
        requires 1 <= bs;
    assert(bs <= 15) by {
        if bs >= 16 {
            assert(bs * bs >= 256) by (nonlinear_arith)
                requires bs >= 16;
        }
    }
    assert(bs * bs <= 225) by (nonlinear_arith)
        requires 1 <= bs <= 15;
    let w = grid_width(bs);
    assert(w <= w * w && w * w <= 225 * 225) by (nonlinear_arith)
        requires 1 <= w <= 225;
}

/// Division facts for decomposing a flat index: `0 <= i < w * w` gives
/// row and column both in `[0, w)` and the row-major identity.
pub proof fn lemma_flat_decomp(w: int, i: int)
    requires
        0 < w,
        0 <= i < w * w,
    ensures
        0 <= i / w < w,
        0 <= i % w < w,
        i == (i / w) * w + i % w,
{
    lemma_fundamental_div_mod(i, w);
    assert(0 <= i % w < w);
    assert(i == w * (i / w) + i % w);
    assert(i / w >= 0);
    assert(i / w < w) by {
        if i / w >= w {
            assert(w * (i / w) >= w * w) by (nonlinear_arith)
                requires 0 < w && i / w >= w;
            assert(false);
        }
    }
    assert((i / w) * w == w * (i / w)) by (nonlinear_arith);
}

/// The quotient and remainder of `q * d + r` by `d` are `q` and `r`.
pub proof fn lemma_mul_plus_div_mod(q: int, d: int, r: int)
    requires
        0 < d,
        0 <= r < d,
        0 <= q,
    ensures
        (q * d + r) / d == q,
        (q * d + r) % d == r,
{
    lemma_fundamental_div_mod_converse_div(q * d + r, d, q, r);
    lemma_fundamental_div_mod_converse_mod(q * d + r, d, q, r);
}

/// The flat index built from a row and a column in range decomposes back
/// into that row and column.
pub proof fn lemma_rc_index(bs: int, r: int, c: int)
    requires
        0 < bs,
        0 <= r < grid_width(bs),
        0 <= c < grid_width(bs),
    ensures
        0 <= r * grid_width(bs) + c < grid_cells(bs),
        row_of(bs, r * grid_width(bs) + c) == r,
        col_of(bs, r * grid_width(bs) + c) == c,
{
    let w = grid_width(bs);
    assert(0 < bs * bs) by (nonlinear_arith)
        requires 0 < bs;
    lemma_mul_plus_div_mod(r, w, c);
    assert(r * w + c < w * w) by (nonlinear_arith)
        requires 0 <= r < w && 0 <= c < w;
    assert(r * w + c >= 0) by (nonlinear_arith)
        requires 0 <= r && 0 <= c && 0 < w;
}

} // verus!
