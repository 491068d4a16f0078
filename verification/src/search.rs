//! Depth-first backtracking search with a most-constrained-cell heuristic,
//! and the top-level `solve` entry point.
//!
//! The search contract is both sound and complete: a `true` result leaves a
//! full, consistent grid extending the input in place; a `false` result
//! restores the grid and certifies that no complete legal assignment extends
//! it at all.

use vstd::prelude::*;
use crate::board::Board;
use crate::model::{
    col_of, consistent, extends, full, grid_cells, grid_width, is_solution, legal_at,
    lemma_empties_nonneg, lemma_empties_update, lemma_flat_decomp, lemma_grid_bounds, num_empty,
    row_of, same_solutions, val_ok,
};
use crate::propagate::propagation_fix;
use crate::solutions::{lemma_place_keeps_consistent, lemma_solution_value_legal};
use crate::units::{filled_in_unit, filled_upto, unit_of};

verus! {

/// The selection score of a cell: how many cells of its row and of its
/// column are already assigned.  The search branches on an empty cell with
/// the highest score, which approximates "most constrained first" at the
/// cost of one row and one column scan.
pub open spec fn score(bs: int, s: Seq<u8>, i: int) -> int {
    filled_in_unit(bs, s, 0, row_of(bs, i)) + filled_in_unit(bs, s, 1, col_of(bs, i))
}

/// Cell `x` is the cell the search branches on: the lowest-index empty cell
/// of maximal selection score.
pub open spec fn is_branch_cell(bs: int, s: Seq<u8>, x: int) -> bool {
    &&& 0 <= x < s.len()
    &&& s[x] == 0
    &&& forall|y: int|
        0 <= y < s.len() && s[y] == 0 ==> #[trigger] score(bs, s, y) <= score(bs, s, x)
    &&& forall|y: int| 0 <= y < x && s[y] == 0 ==> #[trigger] score(bs, s, y) < score(bs, s, x)
}

/// The cell the search branches on; meaningful when the grid is not full.
pub open spec fn branch_cell(bs: int, s: Seq<u8>) -> int {
    choose|x: int| #[trigger] is_branch_cell(bs, s, x)
}

/// Among the first `n` cells with an empty one, some cell has the branch
/// property relative to that prefix.
proof fn lemma_branch_prefix(bs: int, s: Seq<u8>, n: int)
    requires
        0 <= n <= s.len(),
        exists|e: int| 0 <= e < n && #[trigger] s[e] == 0,
    ensures
        exists|x: int|
            0 <= x < n && #[trigger] s[x] == 0 && (forall|y: int|
                0 <= y < n && s[y] == 0 ==> #[trigger] score(bs, s, y) <= score(bs, s, x)) && (
            forall|y: int|
                0 <= y < x && s[y] == 0 ==> #[trigger] score(bs, s, y) < score(bs, s, x)),
    decreases n,
{
    if exists|e: int| 0 <= e < n - 1 && #[trigger] s[e] == 0 {
        lemma_branch_prefix(bs, s, n - 1);
        let x = choose|x: int|
            0 <= x < n - 1 && #[trigger] s[x] == 0 && (forall|y: int|
                0 <= y < n - 1 && s[y] == 0 ==> #[trigger] score(bs, s, y) <= score(bs, s, x))
                && (forall|y: int|
                0 <= y < x && s[y] == 0 ==> #[trigger] score(bs, s, y) < score(bs, s, x));
        if s[n - 1] == 0 && score(bs, s, n - 1) > score(bs, s, x) {
            let z = n - 1;
            assert(0 <= z < n && s[z] == 0 && (forall|y: int|
                0 <= y < n && s[y] == 0 ==> #[trigger] score(bs, s, y) <= score(bs, s, z)) && (
            forall|y: int|
                0 <= y < z && s[y] == 0 ==> #[trigger] score(bs, s, y) < score(bs, s, z)));
        } else {
            assert(0 <= x < n && s[x] == 0 && (forall|y: int|
                0 <= y < n && s[y] == 0 ==> #[trigger] score(bs, s, y) <= score(bs, s, x)) && (
            forall|y: int|
                0 <= y < x && s[y] == 0 ==> #[trigger] score(bs, s, y) < score(bs, s, x)));
        }
    } else {
        let e = choose|e: int| 0 <= e < n && #[trigger] s[e] == 0;
        assert(e == n - 1);
        assert(0 <= e < n && s[e] == 0 && (forall|y: int|
            0 <= y < n && s[y] == 0 ==> #[trigger] score(bs, s, y) <= score(bs, s, e)) && (
        forall|y: int| 0 <= y < e && s[y] == 0 ==> #[trigger] score(bs, s, y) < score(bs, s, e)));
    }
}

/// When the grid is not full, `branch_cell` names the branch cell, which is
/// unique.
proof fn lemma_branch_cell_props(bs: int, s: Seq<u8>)
    requires
        !full(s),
    ensures
        is_branch_cell(bs, s, branch_cell(bs, s)),
        forall|x: int| #[trigger] is_branch_cell(bs, s, x) ==> x == branch_cell(bs, s),
{
    assert(exists|e: int| 0 <= e < s.len() && #[trigger] s[e] == 0) by {
        if forall|e: int| 0 <= e < s.len() ==> #[trigger] s[e] != 0 {
            assert(full(s));
        }
    }
    lemma_branch_prefix(bs, s, s.len() as int);
    let x = choose|x: int|
        0 <= x < s.len() as int && #[trigger] s[x] == 0 && (forall|y: int|
            0 <= y < s.len() as int && s[y] == 0 ==> #[trigger] score(bs, s, y) <= score(
                bs,
                s,
                x,
            )) && (forall|y: int|
            0 <= y < x && s[y] == 0 ==> #[trigger] score(bs, s, y) < score(bs, s, x));
    assert(is_branch_cell(bs, s, x));
    let bc = branch_cell(bs, s);
    assert(is_branch_cell(bs, s, bc));
    assert forall|c: int| #[trigger] is_branch_cell(bs, s, c) implies c == bc by {
        if c < bc {
            assert(score(bs, s, c) < score(bs, s, bc));
            assert(score(bs, s, bc) <= score(bs, s, c));
        } else if c > bc {
            assert(score(bs, s, bc) < score(bs, s, c));
            assert(score(bs, s, c) <= score(bs, s, bc));
        }
    }
}

/// The solution the search finds, or `None` when the subtree rooted at the
/// grid is exhausted: branch on `branch_cell`, try values ascending, keep
/// the first success.
pub open spec fn dfs_spec(bs: int, s: Seq<u8>) -> Option<Seq<u8>>
    decreases num_empty(s), grid_width(bs) + 2,
        via dfs_spec_decreases
{
    if full(s) {
        Some(s)
    } else {
        dfs_try(bs, s, branch_cell(bs, s), 1)
    }
}

#[via_fn]
proof fn dfs_spec_decreases(bs: int, s: Seq<u8>) {
    lemma_empties_nonneg(s, s.len() as int);
    assert(grid_width(bs) >= 0) by (nonlinear_arith);
}

/// Try the values `v, v + 1, ...` in order at the empty cell `x`, recursing
/// into the search on each legal one; the first success is kept.
pub open spec fn dfs_try(bs: int, s: Seq<u8>, x: int, v: int) -> Option<Seq<u8>>
    decreases num_empty(s), grid_width(bs) + 1 - v,
        when 0 <= x < s.len() && s[x] == 0 && 1 <= v && grid_width(bs) <= 255
        via dfs_try_decreases
{
    if v > grid_width(bs) {
        None
    } else if legal_at(bs, s, x, v as u8) {
        match dfs_spec(bs, s.update(x, v as u8)) {
            Some(t) => Some(t),
            None => dfs_try(bs, s, x, v + 1),
        }
    } else {
        dfs_try(bs, s, x, v + 1)
    }
}

#[via_fn]
proof fn dfs_try_decreases(bs: int, s: Seq<u8>, x: int, v: int) {
    lemma_empties_nonneg(s, s.len() as int);
    assert(grid_width(bs) >= 0) by (nonlinear_arith);
    if 0 <= x < s.len() && s[x] == 0 && 1 <= v <= grid_width(bs) <= 255 {
        let t = s.update(x, v as u8);
        lemma_empties_update(s, x, v as u8);
        lemma_empties_nonneg(t, t.len() as int);
    }
}

/// The grid `solve` leaves behind, as a function of the grid it was given:
/// the propagation fixed point, then the search result when one exists.
pub open spec fn solve_outcome(bs: int, s: Seq<u8>) -> Seq<u8> {
    match dfs_spec(bs, propagation_fix(bs, s)) {
        Some(t) => t,
        None => propagation_fix(bs, s),
    }
}

impl Board {
    /// The selection score of the cell with flat index `loc`.
    pub(crate) fn constraints(&self, loc: usize) -> (r: usize)
        requires
            self.wf(),
            loc < grid_cells(self.bs()),
        ensures
            r == score(self.bs(), self.grid(), loc as int),
    {
        let ghost bs = self.bs();
        proof {
            lemma_grid_bounds(bs);
            lemma_flat_decomp(grid_width(bs), loc as int);
        }
        let w = self.width;
        let row = loc / w;
        let col = loc % w;
        proof {
            assert(row == unit_of(bs, 0, loc as int));
            assert(col == unit_of(bs, 1, loc as int));
        }
        let mut in_row: usize = 0;
        let mut k: usize = 0;
        while k < w
            invariant
                self.wf(),
                bs == self.bs(),
                w == grid_width(bs),
                row < w,
                k <= w,
                in_row == filled_upto(bs, self.grid(), 0, row as int, k as int),
                in_row <= k,
            decreases w - k,
        {
            let loc2 = self.unit_loc(0, row, k);
            if self.cells[loc2] != 0 {
                in_row += 1;
            }
            k += 1;
        }
        let mut in_col: usize = 0;
        let mut k2: usize = 0;
        while k2 < w
            invariant
                self.wf(),
                bs == self.bs(),
                w == grid_width(bs),
                col < w,
                k2 <= w,
                in_col == filled_upto(bs, self.grid(), 1, col as int, k2 as int),
                in_col <= k2,
            decreases w - k2,
        {
            let loc2 = self.unit_loc(1, col, k2);
            if self.cells[loc2] != 0 {
                in_col += 1;
            }
            k2 += 1;
        }
        in_row + in_col
    }

    /// The lowest-index empty cell, or `None` when the grid is full.
    pub fn first_unassigned(&self) -> (r: Option<usize>)
        requires
            self.wf(),
        ensures
            r is None <==> full(self.grid()),
            r is Some ==> ({
                let x = r->Some_0 as int;
                &&& 0 <= x < grid_cells(self.bs())
                &&& self.grid()[x] == 0
                &&& forall|y: int| 0 <= y < x ==> #[trigger] self.grid()[y] != 0
            }),
    {
        let n = self.cells.len();
        let mut loc: usize = 0;
        while loc < n
            invariant
                self.wf(),
                n == grid_cells(self.bs()),
                loc <= n,
                forall|y: int| 0 <= y < loc ==> #[trigger] self.grid()[y] != 0,
            decreases n - loc,
        {
            if self.cells[loc] == 0 {
                return Some(loc);
            }
            loc += 1;
        }
        None
    }

    /// The empty cell with the highest selection score, the lowest-index
    /// one among ties; `None` when the grid is full.
    pub fn most_constrained(&mut self) -> (r: Option<usize>)
        requires
            old(self).wf(),
        ensures
            final(self).wf(),
            final(self).bs() == old(self).bs(),
            final(self).grid() == old(self).grid(),
            r is None <==> full(old(self).grid()),
            r is Some ==> ({
                let x = r->Some_0 as int;
                let s = old(self).grid();
                let bs = old(self).bs();
                &&& 0 <= x < grid_cells(bs)
                &&& s[x] == 0
                &&& forall|y: int|
                    0 <= y < grid_cells(bs) && s[y] == 0 ==> #[trigger] score(bs, s, y) <= score(
                        bs,
                        s,
                        x,
                    )
                &&& forall|y: int|
                    0 <= y < x && s[y] == 0 ==> #[trigger] score(bs, s, y) < score(bs, s, x)
            }),
    {
        let ghost bs = self.bs();
        let ghost s = self.grid();
        let n = self.cells.len();
        let mut mx: usize = 0;
        let mut loc: Option<usize> = None;
        let mut i: usize = 0;
        while i < n
            invariant
                self.wf(),
                self.box_size == old(self).box_size,
                self.width == old(self).width,
                self.grid() == old(self).grid(),
                bs == self.bs(),
                s == self.grid(),
                n == grid_cells(bs),
                i <= n,
                loc is None ==> forall|y: int| 0 <= y < i ==> #[trigger] s[y] != 0,
                loc is Some ==> ({
                    let x = loc->Some_0 as int;
                    &&& 0 <= x < i
                    &&& s[x] == 0
                    &&& mx == score(bs, s, x)
                    &&& forall|y: int|
                        0 <= y < i && s[y] == 0 ==> #[trigger] score(bs, s, y) <= mx
                    &&& forall|y: int| 0 <= y < x && s[y] == 0 ==> #[trigger] score(bs, s, y) < mx
                }),
            decreases n - i,
        {
            if self.is_unassigned(i) {
                let c = self.constraints(i);
                if loc.is_none() || c > mx {
                    mx = c;
                    loc = Some(i);
                }
            }
            i += 1;
        }
        loc
    }

    /// Depth-first backtracking: branch on the most constrained empty cell
    /// (lowest index among ties), trying values in ascending order and
    /// keeping the first success.  Returns `true` with the grid mutated to
    /// exactly the solution `dfs_spec` names — the first one in that
    /// deterministic order — or `false` with the grid restored, in which
    /// case no complete legal assignment extending the input exists.
    pub fn solve_dfs(&mut self) -> (r: bool)
        requires
            old(self).wf(),
            consistent(old(self).bs(), old(self).grid()),
        ensures
            final(self).wf(),
            final(self).bs() == old(self).bs(),
            r <==> dfs_spec(old(self).bs(), old(self).grid()) is Some,
            r ==> final(self).grid() == dfs_spec(old(self).bs(), old(self).grid())->Some_0,
            r ==> is_solution(old(self).bs(), old(self).grid(), final(self).grid()),
            !r ==> final(self).grid() == old(self).grid() && (forall|sol: Seq<u8>|
                !#[trigger] is_solution(old(self).bs(), old(self).grid(), sol)),
        decreases num_empty(self.grid()),
    {
        let ghost bs = old(self).bs();
        let ghost s = old(self).grid();
        let xo = self.most_constrained();
        let x = match xo {
            Some(x) => x,
            None => {
                proof {
                    assert(dfs_spec(bs, s) == Some(s));
                }
                return true;
            },
        };
        proof {
            lemma_grid_bounds(bs);
            assert(!full(s)) by {
                assert(s[x as int] == 0);
            }
            assert(is_branch_cell(bs, s, x as int));
            lemma_branch_cell_props(bs, s);
            assert(x as int == branch_cell(bs, s));
            assert(dfs_spec(bs, s) == dfs_try(bs, s, x as int, 1));
        }
        let w = self.width;
        let mut num: u8 = 1;
        while num <= w as u8
            invariant
                self.wf(),
                self.box_size == old(self).box_size,
                self.width == old(self).width,
                bs == self.bs(),
                s == self.grid(),
                s == old(self).grid(),
                consistent(bs, s),
                w == grid_width(bs),
                w <= 225,
                x < grid_cells(bs),
                s[x as int] == 0,
                1 <= num <= w + 1,
                dfs_spec(bs, s) == dfs_try(bs, s, x as int, num as int),
                forall|sol: Seq<u8>|
                    #[trigger] is_solution(bs, s, sol) ==> !(1 <= sol[x as int] < num),
            decreases w + 1 - num,
        {
            if self.legal(x, num) {
                self.cells.set(x, num);
                proof {
                    lemma_place_keeps_consistent(bs, s, x as int, num);
                    lemma_empties_update(s, x as int, num);
                    lemma_empties_nonneg(self.grid(), self.grid().len() as int);
                }
                let ghost tried = self.grid();
                let solved = self.solve_dfs();
                if solved {
                    proof {
                        assert forall|i: int|
                            0 <= i < s.len() && #[trigger] s[i] != 0
                            implies self.grid()[i] == s[i] by {
                            assert(tried[i] == s[i]);
                            assert(tried[i] != 0);
                        }
                        assert((num as int) as u8 == num);
                        assert(dfs_try(bs, s, x as int, num as int) == dfs_spec(bs, tried));
                        assert(dfs_spec(bs, s) == Some(self.grid()));
                    }
                    return true;
                }
                self.cells.set(x, 0);
                proof {
                    assert(self.grid() =~= s);
                    assert((num as int) as u8 == num);
                    assert(dfs_spec(bs, tried) is None);
                    assert(dfs_try(bs, s, x as int, num as int) == dfs_try(
                        bs,
                        s,
                        x as int,
                        num + 1,
                    ));
                    assert forall|sol: Seq<u8>| #[trigger] is_solution(bs, s, sol)
                        implies !(1 <= sol[x as int] < num + 1) by {
                        if sol[x as int] == num {
                            assert forall|i: int|
                                0 <= i < tried.len() && #[trigger] tried[i] != 0
                                implies sol[i] == tried[i] by {
                                if i != x {
                                    assert(s[i] == tried[i]);
                                }
                            }
                            assert(is_solution(bs, tried, sol));
                            assert(false);
                        }
                    }
                }
            } else {
                proof {
                    assert((num as int) as u8 == num);
                    assert(dfs_try(bs, s, x as int, num as int) == dfs_try(
                        bs,
                        s,
                        x as int,
                        num + 1,
                    ));
                    assert forall|sol: Seq<u8>| #[trigger] is_solution(bs, s, sol)
                        implies !(1 <= sol[x as int] < num + 1) by {
                        if sol[x as int] == num {
                            lemma_solution_value_legal(bs, s, sol, x as int);
                        }
                    }
                }
            }
            num += 1;
        }
        proof {
            assert(dfs_try(bs, s, x as int, num as int) is None);
            assert forall|sol: Seq<u8>| !#[trigger] is_solution(bs, s, sol) by {
                if is_solution(bs, s, sol) {
                    lemma_solution_value_legal(bs, s, sol, x as int);
                    assert(val_ok(bs, sol[x as int]));
                }
            }
        }
        false
    }

    /// Solve the grid in place: run the propagator, then the search.
    /// Returns `true` exactly when a complete legal assignment extending the
    /// input exists; on `true` the grid holds such an assignment, on `false`
    /// it is left in the propagated, still consistent, partial state.  The
    /// final grid is `solve_outcome` of the input — a function of the input
    /// alone — so repeated solves of equal grids end byte-identical.
    pub fn solve(&mut self) -> (r: bool)
        requires
            old(self).wf(),
            consistent(old(self).bs(), old(self).grid()),
        ensures
            final(self).wf(),
            final(self).bs() == old(self).bs(),
            consistent(final(self).bs(), final(self).grid()),
            extends(old(self).grid(), final(self).grid()),
            r <==> exists|sol: Seq<u8>| #[trigger] is_solution(
                old(self).bs(),
                old(self).grid(),
                sol,
            ),
            final(self).grid() == solve_outcome(old(self).bs(), old(self).grid()),
            r ==> is_solution(old(self).bs(), old(self).grid(), final(self).grid()),
            !r ==> (forall|sol: Seq<u8>|
                !#[trigger] is_solution(old(self).bs(), old(self).grid(), sol)) && same_solutions(
                old(self).bs(),
                old(self).grid(),
                final(self).grid(),
            ),
    {
        let ghost bs = old(self).bs();
        let ghost s = old(self).grid();
        self.preproc();
        let ghost mid = self.grid();
        let r = self.solve_dfs();
        proof {
            assert(mid == propagation_fix(bs, s));
            if r {
                assert(is_solution(bs, mid, self.grid()));
                assert(is_solution(bs, s, self.grid()));
                assert(self.grid() == solve_outcome(bs, s));
            } else {
                assert(self.grid() == mid);
                assert(dfs_spec(bs, mid) is None);
                assert(self.grid() == solve_outcome(bs, s));
                assert forall|sol: Seq<u8>| !#[trigger] is_solution(bs, s, sol) by {
                    if is_solution(bs, s, sol) {
                        assert(is_solution(bs, mid, sol));
                    }
                }
            }
        }
        r
    }
}

} // verus!
