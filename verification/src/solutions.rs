//! How placements relate a grid to its set of solutions.
//!
//! The two deduction rules of the propagator — naked singles (a cell with a
//! single legal value) and hidden singles (a unit with a single cell for a
//! value) — are proved here to preserve the solution set exactly, which is
//! what makes propagation sound and lossless.

use vstd::prelude::*;
use crate::model::{
    cells_ok, consistent, grid_width, is_solution, legal_at, same_solutions, sees, val_ok,
};
use crate::units::{
    lemma_unit_all_values, lemma_unit_cell_props, lemma_unit_cells_see, unit_cell, unit_kinds,
    unit_spot,
};

verus! {

/// A solution certifies its own values: whatever it holds at a cell that is
/// empty in the given grid is a legal placement there.
pub proof fn lemma_solution_value_legal(bs: int, s: Seq<u8>, sol: Seq<u8>, x: int)
    requires
        is_solution(bs, s, sol),
        0 <= x < s.len(),
        s[x] == 0,
    ensures
        val_ok(bs, sol[x]),
        legal_at(bs, s, x, sol[x]),
{
    assert(sol[x] != 0);
    assert(sol[x] <= grid_width(bs));
    assert forall|j: int| 0 <= j < s.len() && sees(bs, x, j) implies #[trigger] s[j] != sol[x] by {
        if s[j] != 0 {
            assert(sol[j] == s[j]);
            assert(sol[x] != sol[j]);
        }
    }
}

/// Placing a legal value into an empty cell of a consistent grid keeps the
/// grid consistent.
pub proof fn lemma_place_keeps_consistent(bs: int, s: Seq<u8>, x: int, v: u8)
    requires
        consistent(bs, s),
        0 <= x < s.len(),
        s[x] == 0,
        legal_at(bs, s, x, v),
        v != 0,
    ensures
        consistent(bs, s.update(x, v)),
{
    let t = s.update(x, v);
    assert forall|i: int, j: int|
        0 <= i < t.len() && 0 <= j < t.len() && i != j && sees(bs, i, j) && #[trigger] t[i] != 0
        implies t[i] != #[trigger] t[j] by {
        if i == x {
            assert(sees(bs, x, j));
            assert(s[j] != v);
        } else if j == x {
            assert(sees(bs, x, i));
            assert(s[i] != v);
        } else {
            assert(s[i] != 0 && sees(bs, i, j));
            assert(s[i] != s[j]);
        }
    }
}

/// Sharing the solution set is transitive.
pub proof fn lemma_same_solutions_trans(bs: int, a: Seq<u8>, b: Seq<u8>, c: Seq<u8>)
    requires
        same_solutions(bs, a, b),
        same_solutions(bs, b, c),
    ensures
        same_solutions(bs, a, c),
{
    assert forall|sol: Seq<u8>|
        is_solution(bs, a, sol) <==> #[trigger] is_solution(bs, c, sol) by {
        assert(is_solution(bs, a, sol) <==> is_solution(bs, b, sol));
        assert(is_solution(bs, b, sol) <==> is_solution(bs, c, sol));
    }
}

/// A grid obtained by filling one empty cell keeps every solution that keeps
/// the filled value; the other direction of the set equality is immediate.
proof fn lemma_update_solutions_back(bs: int, s: Seq<u8>, x: int, v: u8, sol: Seq<u8>)
    requires
        0 <= x < s.len(),
        s[x] == 0,
        v != 0,
        is_solution(bs, s.update(x, v), sol),
    ensures
        is_solution(bs, s, sol),
{
    let t = s.update(x, v);
    assert forall|i: int| 0 <= i < s.len() && #[trigger] s[i] != 0 implies sol[i] == s[i] by {
        assert(t[i] == s[i]);
        assert(t[i] != 0);
    }
}

/// Naked single: when `v` is the one legal value of the empty cell `x`,
/// filling it changes the solution set not at all.
pub proof fn lemma_forced_cell_solutions(bs: int, s: Seq<u8>, x: int, v: u8)
    requires
        0 <= x < s.len(),
        s[x] == 0,
        val_ok(bs, v),
        legal_at(bs, s, x, v),
        forall|u: u8| val_ok(bs, u) && #[trigger] legal_at(bs, s, x, u) ==> u == v,
    ensures
        same_solutions(bs, s, s.update(x, v)),
{
    let t = s.update(x, v);
    assert forall|sol: Seq<u8>|
        is_solution(bs, s, sol) <==> #[trigger] is_solution(bs, t, sol) by {
        if is_solution(bs, s, sol) {
            lemma_solution_value_legal(bs, s, sol, x);
            assert(legal_at(bs, s, x, sol[x]));
            assert(sol[x] == v);
            assert forall|i: int| 0 <= i < t.len() && #[trigger] t[i] != 0
                implies sol[i] == t[i] by {
                if i != x {
                    assert(s[i] == t[i]);
                }
            }
            assert(is_solution(bs, t, sol));
        }
        if is_solution(bs, t, sol) {
            lemma_update_solutions_back(bs, s, x, v, sol);
        }
    }
}

/// Hidden single: when slot `kx` is the only empty cell of a unit that can
/// legally take `v`, filling it with `v` changes the solution set not at all.
pub proof fn lemma_hidden_cell_solutions(bs: int, s: Seq<u8>, kind: int, g: int, kx: int, v: u8)
    requires
        0 < bs,
        cells_ok(bs, s),
        0 <= kind < unit_kinds(),
        0 <= g < grid_width(bs),
        0 <= kx < grid_width(bs),
        val_ok(bs, v),
        unit_spot(bs, s, kind, g, v, kx),
        forall|k: int|
            0 <= k < grid_width(bs) && k != kx ==> !#[trigger] unit_spot(bs, s, kind, g, v, k),
    ensures
        same_solutions(bs, s, s.update(unit_cell(bs, kind, g, kx), v)),
{
    let x = unit_cell(bs, kind, g, kx);
    lemma_unit_cell_props(bs, kind, g, kx);
    let t = s.update(x, v);
    assert forall|sol: Seq<u8>|
        is_solution(bs, s, sol) <==> #[trigger] is_solution(bs, t, sol) by {
        if is_solution(bs, s, sol) {
            lemma_unit_all_values(bs, sol, kind, g, v);
            let k = choose|k: int|
                0 <= k < grid_width(bs) && sol[#[trigger] unit_cell(bs, kind, g, k)] == v;
            let y = unit_cell(bs, kind, g, k);
            lemma_unit_cell_props(bs, kind, g, k);
            lemma_unit_cells_see(bs, kind, g, kx, k);
            if k != kx {
                if s[y] != 0 {
                    assert(sol[y] == s[y]);
                    assert(sees(bs, x, y));
                    assert(s[y] != v);
                    assert(false);
                } else {
                    lemma_solution_value_legal(bs, s, sol, y);
                    assert(unit_spot(bs, s, kind, g, v, k));
                    assert(false);
                }
            }
            assert(sol[x] == v);
            assert forall|i: int| 0 <= i < t.len() && #[trigger] t[i] != 0
                implies sol[i] == t[i] by {
                if i != x {
                    assert(s[i] == t[i]);
                }
            }
            assert(is_solution(bs, t, sol));
        }
        if is_solution(bs, t, sol) {
            lemma_update_solutions_back(bs, s, x, v, sol);
        }
    }
}

} // verus!
