//! The global laws of the solver, stated over the public model.
//!
//! Together with the contracts of `solve` and `preproc` these pin down the
//! engine: a solved grid is a latin square refined by boxes, a forced value
//! is the one the search would pick, propagation preserves the solution set
//! exactly, and a stalled grid is a fixed point of propagation.

use vstd::prelude::*;
use crate::model::{
    cells_ok, grid_width, is_solution, legal_at, lemma_unique_option, num_options, sees, val_ok,
};
use crate::search::solve_outcome;
use crate::solutions::lemma_solution_value_legal;
use crate::units::{
    lemma_unit_all_values, lemma_unit_cell_props, lemma_unit_cells_see, lemma_unit_value_count_one,
    unit_cell, unit_kinds, unit_spot, value_count,
};

verus! {

/// Legality invariant: in any complete legal assignment — in particular in
/// the grid `solve` leaves behind on success — every value `1 ..= width`
/// appears exactly once in every row (`kind` 0), column (`kind` 1), and box
/// (`kind` 2).
pub proof fn lemma_solved_grid_latin(
    bs: int,
    given: Seq<u8>,
    sol: Seq<u8>,
    kind: int,
    g: int,
    v: u8,
)
    requires
        0 < bs,
        is_solution(bs, given, sol),
        0 <= kind < unit_kinds(),
        0 <= g < grid_width(bs),
        val_ok(bs, v),
    ensures
        value_count(bs, sol, kind, g, v) == 1,
{
    lemma_unit_value_count_one(bs, sol, kind, g, v);
}

/// Determinism: `solve` pins its final grid to `solve_outcome`, a function
/// of the box size and the initial cells alone, so two solves of grids with
/// equal cells and equal box size leave byte-identical grids behind — the
/// selection heuristic, its ties, and the value order are all deterministic.
pub proof fn lemma_solve_deterministic(bs: int, s: Seq<u8>, g1: Seq<u8>, g2: Seq<u8>)
    requires
        g1 == solve_outcome(bs, s),
        g2 == solve_outcome(bs, s),
    ensures
        g1 == g2,
{
}

/// Propagator soundness for hidden singles: when slot `kx` is the only
/// empty cell of a unit that could legally take `v`, every complete legal
/// assignment extending the grid places `v` exactly there, so the
/// propagator's fill agrees with whatever the search would find.
pub proof fn lemma_hidden_single_forced(
    bs: int,
    s: Seq<u8>,
    sol: Seq<u8>,
    kind: int,
    g: int,
    kx: int,
    v: u8,
)
    requires
        0 < bs,
        cells_ok(bs, s),
        is_solution(bs, s, sol),
        0 <= kind < unit_kinds(),
        0 <= g < grid_width(bs),
        0 <= kx < grid_width(bs),
        val_ok(bs, v),
        unit_spot(bs, s, kind, g, v, kx),
        forall|k: int|
            0 <= k < grid_width(bs) && k != kx ==> !#[trigger] unit_spot(bs, s, kind, g, v, k),
    ensures
        sol[unit_cell(bs, kind, g, kx)] == v,
{
    let x = unit_cell(bs, kind, g, kx);
    lemma_unit_cell_props(bs, kind, g, kx);
    lemma_unit_all_values(bs, sol, kind, g, v);
    let k = choose|k: int|
        0 <= k < grid_width(bs) && sol[#[trigger] unit_cell(bs, kind, g, k)] == v;
    let y = unit_cell(bs, kind, g, k);
    lemma_unit_cell_props(bs, kind, g, k);
    lemma_unit_cells_see(bs, kind, g, kx, k);
    if k != kx {
        if s[y] != 0 {
            assert(sol[y] == s[y]);
            assert(sees(bs, x, y));
            assert(s[y] != v);
            assert(false);
        } else {
            lemma_solution_value_legal(bs, s, sol, y);
            assert(unit_spot(bs, s, kind, g, v, k));
            assert(false);
        }
    }
}

/// Propagator soundness for naked singles: a cell with exactly one legal
/// value admits no second one, so the value the propagator places is
/// exactly the single candidate the search would find for that cell.
pub proof fn lemma_forced_value_unique(bs: int, s: Seq<u8>, x: int, u: u8, v: u8)
    requires
        grid_width(bs) <= 255,
        num_options(bs, s, x) == 1,
        val_ok(bs, u),
        val_ok(bs, v),
        legal_at(bs, s, x, u),
        legal_at(bs, s, x, v),
    ensures
        u == v,
{
    lemma_unique_option(bs, s, x, u, v);
}

} // verus!
