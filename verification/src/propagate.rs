//! The propagator: deterministic deductions that fill forced cells without
//! branching.  Naked singles (a cell with exactly one legal value) and hidden
//! singles (a unit with exactly one cell for a value) are applied until
//! neither rule fires anywhere.
//!
//! Every fill is proved to preserve the solution set of the grid exactly, so
//! propagation can never turn a solvable grid unsolvable nor the reverse.

use vstd::prelude::*;
use crate::board::Board;
use crate::model::{
    consistent, extends, grid_cells, grid_width, legal_at, lemma_empties_nonneg,
    lemma_empties_update, lemma_exists_least, lemma_grid_bounds, lemma_options_mono,
    lemma_options_pos_exists, lemma_unique_option, num_empty, num_options, options_upto,
    same_solutions, val_ok,
};
use crate::solutions::{
    lemma_forced_cell_solutions, lemma_hidden_cell_solutions, lemma_place_keeps_consistent,
    lemma_same_solutions_trans,
};
use crate::units::{
    lemma_single_spot_unique, lemma_spots_mono, lemma_spots_pos_exists, lemma_unit_cell_props,
    spots, spots_upto, unit_cell, unit_kinds, unit_of, unit_spot,
};

verus! {

/// Cell `x` is empty with exactly one legal value: the naked-single rule
/// applies there.
pub open spec fn naked_single_at(bs: int, s: Seq<u8>, x: int) -> bool {
    &&& 0 <= x < s.len()
    &&& s[x] == 0
    &&& num_options(bs, s, x) == 1
}

/// The lowest-index cell where the naked-single rule applies.
pub open spec fn first_naked_cell(bs: int, s: Seq<u8>) -> int {
    choose|x: int|
        #[trigger] naked_single_at(bs, s, x) && (forall|y: int|
            0 <= y < x ==> !#[trigger] naked_single_at(bs, s, y))
}

/// The lowest value that could legally be placed at cell `x`.
pub open spec fn lowest_option(bs: int, s: Seq<u8>, x: int) -> u8 {
    choose|v: u8|
        1 <= v && #[trigger] legal_at(bs, s, x, v) && (forall|u: u8|
            1 <= u < v ==> !#[trigger] legal_at(bs, s, x, u))
}

/// One step of the naked-single rule, as a function of the grid: fill the
/// lowest-index naked single, if any, with its lowest (and only) legal
/// value; otherwise leave the grid unchanged.
pub open spec fn trivial_step(bs: int, s: Seq<u8>) -> Seq<u8> {
    if exists|x: int| #[trigger] naked_single_at(bs, s, x) {
        s.update(first_naked_cell(bs, s), lowest_option(bs, s, first_naked_cell(bs, s)))
    } else {
        s
    }
}

/// When some naked single exists, `first_naked_cell` names the lowest one,
/// and no other cell has its property.
pub proof fn lemma_first_naked_cell_props(bs: int, s: Seq<u8>)
    requires
        exists|x: int| #[trigger] naked_single_at(bs, s, x),
    ensures
        naked_single_at(bs, s, first_naked_cell(bs, s)),
        forall|y: int| 0 <= y < first_naked_cell(bs, s) ==> !#[trigger] naked_single_at(bs, s, y),
{
    let p = |x: int| naked_single_at(bs, s, x);
    let w = choose|x: int| #[trigger] naked_single_at(bs, s, x);
    assert(0 <= w < s.len() && p(w));
    lemma_exists_least(p, s.len() as int);
    let z = choose|x: int|
        0 <= x < s.len() as int && #[trigger] p(x) && (forall|y: int| 0 <= y < x ==> !#[trigger] p(y));
    assert(naked_single_at(bs, s, z));
    assert forall|y: int| 0 <= y < z implies !#[trigger] naked_single_at(bs, s, y) by {
        assert(!p(y));
    }
    assert(exists|x: int|
        #[trigger] naked_single_at(bs, s, x) && (forall|y: int|
            0 <= y < x ==> !#[trigger] naked_single_at(bs, s, y)));
}

/// When cell `x` has some legal value at all, `lowest_option` names the
/// least one.
pub proof fn lemma_lowest_option_props(bs: int, s: Seq<u8>, x: int)
    requires
        exists|v: u8| 1 <= v && #[trigger] legal_at(bs, s, x, v),
    ensures
        1 <= lowest_option(bs, s, x),
        legal_at(bs, s, x, lowest_option(bs, s, x)),
        forall|u: u8| 1 <= u < lowest_option(bs, s, x) ==> !#[trigger] legal_at(bs, s, x, u),
{
    let p = |i: int| 1 <= i <= 255 && legal_at(bs, s, x, i as u8);
    let w = choose|v: u8| 1 <= v && #[trigger] legal_at(bs, s, x, v);
    assert(p(w as int));
    lemma_exists_least(p, 256);
    let z = choose|i: int|
        0 <= i < 256 && #[trigger] p(i) && (forall|y: int| 0 <= y < i ==> !#[trigger] p(y));
    let zv = z as u8;
    assert(1 <= zv && legal_at(bs, s, x, zv));
    assert forall|u: u8| 1 <= u < zv implies !#[trigger] legal_at(bs, s, x, u) by {
        assert(!p(u as int));
    }
    assert(exists|v: u8|
        1 <= v && #[trigger] legal_at(bs, s, x, v) && (forall|u: u8|
            1 <= u < v ==> !#[trigger] legal_at(bs, s, x, u)));
}

/// The slot of the unit's single spot for `v`; meaningful when the count of
/// spots is exactly one.
pub open spec fn single_spot_slot(bs: int, s: Seq<u8>, kind: int, g: int, v: u8) -> int {
    choose|k: int| 0 <= k < grid_width(bs) && #[trigger] unit_spot(bs, s, kind, g, v, k)
}

/// One value of the hidden-single rule over one unit, as a function of the
/// grid: when exactly one empty cell of the unit could legally take `v`,
/// fill that cell with `v`; otherwise leave the grid unchanged.
pub open spec fn hidden_step(bs: int, s: Seq<u8>, kind: int, g: int, v: u8) -> Seq<u8> {
    let i = unit_cell(bs, kind, g, single_spot_slot(bs, s, kind, g, v));
    if spots(bs, s, kind, g, v) == 1 && 0 <= i < s.len() {
        s.update(i, v)
    } else {
        s
    }
}

/// The hidden-single rule over one unit for the values `1 ..= vmax`, applied
/// in ascending order, each judged against the grid reached so far.
pub open spec fn hidden_sweep_upto(bs: int, s: Seq<u8>, kind: int, g: int, vmax: int) -> Seq<u8>
    decreases vmax,
{
    if vmax <= 0 {
        s
    } else {
        hidden_step(bs, hidden_sweep_upto(bs, s, kind, g, vmax - 1), kind, g, vmax as u8)
    }
}

/// One full pass of the hidden-single rule over one unit: all values in
/// ascending order.
pub open spec fn hidden_sweep(bs: int, s: Seq<u8>, kind: int, g: int) -> Seq<u8> {
    hidden_sweep_upto(bs, s, kind, g, grid_width(bs))
}

/// No empty cell has exactly one legal value.
pub open spec fn no_naked_single(bs: int, s: Seq<u8>) -> bool {
    forall|x: int| 0 <= x < s.len() && s[x] == 0 ==> #[trigger] num_options(bs, s, x) != 1
}

/// No unit has exactly one empty cell that could take some value.
pub open spec fn no_hidden_single(bs: int, s: Seq<u8>) -> bool {
    forall|kind: int, g: int, v: u8|
        0 <= kind < unit_kinds() && 0 <= g < grid_width(bs) && val_ok(bs, v) ==> #[trigger] spots(
            bs,
            s,
            kind,
            g,
            v,
        ) != 1
}

/// Neither deduction rule applies anywhere: propagation is at its fixed
/// point, and running it again changes nothing.
pub open spec fn propagation_stalled(bs: int, s: Seq<u8>) -> bool {
    &&& no_naked_single(bs, s)
    &&& no_hidden_single(bs, s)
}

/// A naked-single step never adds an empty cell, and filling one removes
/// exactly one.
proof fn lemma_trivial_step_empties(bs: int, s: Seq<u8>)
    ensures
        num_empty(trivial_step(bs, s)) <= num_empty(s),
        trivial_step(bs, s) != s ==> num_empty(trivial_step(bs, s)) < num_empty(s),
{
    if exists|x: int| #[trigger] naked_single_at(bs, s, x) {
        lemma_first_naked_cell_props(bs, s);
        let x = first_naked_cell(bs, s);
        let v = lowest_option(bs, s, x);
        if v == 0 {
            assert(s.update(x, v) =~= s);
        } else {
            lemma_empties_update(s, x, v);
        }
    }
}

/// A hidden-single step never adds an empty cell, and filling one removes
/// exactly one.
proof fn lemma_hidden_step_empties(bs: int, s: Seq<u8>, kind: int, g: int, v: u8)
    ensures
        num_empty(hidden_step(bs, s, kind, g, v)) <= num_empty(s),
        hidden_step(bs, s, kind, g, v) != s ==> num_empty(hidden_step(bs, s, kind, g, v))
            < num_empty(s),
{
    let slot = single_spot_slot(bs, s, kind, g, v);
    let i = unit_cell(bs, kind, g, slot);
    if spots(bs, s, kind, g, v) == 1 && 0 <= i < s.len() {
        lemma_spots_pos_exists(bs, s, kind, g, v, grid_width(bs));
        assert(unit_spot(bs, s, kind, g, v, slot));
        if v != 0 {
            lemma_empties_update(s, i, v);
        } else {
            assert(s.update(i, v) =~= s);
        }
    }
}

/// A unit sweep never adds an empty cell, and a sweep that changed the grid
/// lowered the count.
proof fn lemma_hidden_sweep_upto_empties(bs: int, s: Seq<u8>, kind: int, g: int, vmax: int)
    ensures
        num_empty(hidden_sweep_upto(bs, s, kind, g, vmax)) <= num_empty(s),
        hidden_sweep_upto(bs, s, kind, g, vmax) != s ==> num_empty(
            hidden_sweep_upto(bs, s, kind, g, vmax),
        ) < num_empty(s),
    decreases vmax,
{
    if vmax > 0 {
        lemma_hidden_sweep_upto_empties(bs, s, kind, g, vmax - 1);
        lemma_hidden_step_empties(
            bs,
            hidden_sweep_upto(bs, s, kind, g, vmax - 1),
            kind,
            g,
            vmax as u8,
        );
    }
}

/// The hidden-single rule over the units `0 ..= gmax - 1` of one kind, in
/// ascending order, each sweep judged against the grid reached so far.
pub open spec fn group_sweep_upto(bs: int, s: Seq<u8>, kind: int, gmax: int) -> Seq<u8>
    decreases gmax,
{
    if gmax <= 0 {
        s
    } else {
        hidden_sweep(bs, group_sweep_upto(bs, s, kind, gmax - 1), kind, gmax - 1)
    }
}

/// A sweep over a range of units never adds an empty cell, and lowers the
/// count when it changed the grid.
proof fn lemma_group_sweep_empties(bs: int, s: Seq<u8>, kind: int, gmax: int)
    ensures
        num_empty(group_sweep_upto(bs, s, kind, gmax)) <= num_empty(s),
        group_sweep_upto(bs, s, kind, gmax) != s ==> num_empty(
            group_sweep_upto(bs, s, kind, gmax),
        ) < num_empty(s),
    decreases gmax,
{
    if gmax > 0 {
        lemma_group_sweep_empties(bs, s, kind, gmax - 1);
        lemma_hidden_sweep_upto_empties(
            bs,
            group_sweep_upto(bs, s, kind, gmax - 1),
            kind,
            gmax - 1,
            grid_width(bs),
        );
    }
}

/// The naked-single rule run to its own fixed point.
pub open spec fn naked_fix(bs: int, s: Seq<u8>) -> Seq<u8>
    decreases num_empty(s)
        via naked_fix_decreases
{
    if trivial_step(bs, s) == s {
        s
    } else {
        naked_fix(bs, trivial_step(bs, s))
    }
}

#[via_fn]
proof fn naked_fix_decreases(bs: int, s: Seq<u8>) {
    lemma_empties_nonneg(s, s.len() as int);
    let t = trivial_step(bs, s);
    lemma_empties_nonneg(t, t.len() as int);
    lemma_trivial_step_empties(bs, s);
}

/// Running the naked-single rule to a fixed point never adds an empty cell,
/// and lowers the count when it changed the grid.
proof fn lemma_naked_fix_empties(bs: int, s: Seq<u8>)
    ensures
        num_empty(naked_fix(bs, s)) <= num_empty(s),
        naked_fix(bs, s) != s ==> num_empty(naked_fix(bs, s)) < num_empty(s),
    decreases num_empty(s),
{
    lemma_empties_nonneg(s, s.len() as int);
    let t = trivial_step(bs, s);
    if t != s {
        lemma_trivial_step_empties(bs, s);
        lemma_empties_nonneg(t, t.len() as int);
        lemma_naked_fix_empties(bs, t);
    }
}

/// One full round of propagation: naked singles to their fixed point, then
/// one hidden-single sweep over all boxes, all rows, and all columns.
pub open spec fn propagation_round(bs: int, s: Seq<u8>) -> Seq<u8> {
    let a = naked_fix(bs, s);
    let b = group_sweep_upto(bs, a, 2, grid_width(bs));
    let c = group_sweep_upto(bs, b, 0, grid_width(bs));
    group_sweep_upto(bs, c, 1, grid_width(bs))
}

/// A round of propagation never adds an empty cell, and lowers the count
/// when it changed the grid.
proof fn lemma_round_empties(bs: int, s: Seq<u8>)
    ensures
        num_empty(propagation_round(bs, s)) <= num_empty(s),
        propagation_round(bs, s) != s ==> num_empty(propagation_round(bs, s)) < num_empty(s),
{
    let a = naked_fix(bs, s);
    let b = group_sweep_upto(bs, a, 2, grid_width(bs));
    let c = group_sweep_upto(bs, b, 0, grid_width(bs));
    lemma_naked_fix_empties(bs, s);
    lemma_group_sweep_empties(bs, a, 2, grid_width(bs));
    lemma_group_sweep_empties(bs, b, 0, grid_width(bs));
    lemma_group_sweep_empties(bs, c, 1, grid_width(bs));
}

/// Propagation run round by round until a whole round changes nothing: the
/// grid the propagator leaves behind, as a function of the grid it was
/// given.
pub open spec fn propagation_fix(bs: int, s: Seq<u8>) -> Seq<u8>
    decreases num_empty(s)
        via propagation_fix_decreases
{
    if propagation_round(bs, s) == s {
        s
    } else {
        propagation_fix(bs, propagation_round(bs, s))
    }
}

#[via_fn]
proof fn propagation_fix_decreases(bs: int, s: Seq<u8>) {
    lemma_empties_nonneg(s, s.len() as int);
    let t = propagation_round(bs, s);
    lemma_empties_nonneg(t, t.len() as int);
    lemma_round_empties(bs, s);
}

/// The four stages of a round, chained, make up `propagation_round`.
proof fn lemma_round_assembles(
    bs: int,
    start: Seq<u8>,
    s1: Seq<u8>,
    s2: Seq<u8>,
    s3: Seq<u8>,
    cur: Seq<u8>,
)
    requires
        s1 == naked_fix(bs, start),
        s2 == group_sweep_upto(bs, s1, 2, grid_width(bs)),
        s3 == group_sweep_upto(bs, s2, 0, grid_width(bs)),
        cur == group_sweep_upto(bs, s3, 1, grid_width(bs)),
    ensures
        cur == propagation_round(bs, start),
{
}

/// One round forward, the fixed point is unchanged.
proof fn lemma_fix_after_round(bs: int, a: Seq<u8>, b: Seq<u8>)
    requires
        b == propagation_round(bs, a),
    ensures
        propagation_fix(bs, a) == propagation_fix(bs, b),
{
    if propagation_round(bs, a) == a {
        assert(propagation_fix(bs, a) == a);
    } else {
        assert(propagation_fix(bs, a) == propagation_fix(bs, propagation_round(bs, a)));
    }
}

/// A grid on which a whole round is the identity is its own fixed point.
proof fn lemma_identity_round_is_fix(bs: int, cur: Seq<u8>)
    requires
        no_naked_single(bs, cur),
        cur == group_sweep_upto(bs, cur, 2, grid_width(bs)),
        cur == group_sweep_upto(bs, cur, 0, grid_width(bs)),
        cur == group_sweep_upto(bs, cur, 1, grid_width(bs)),
    ensures
        propagation_round(bs, cur) == cur,
        propagation_fix(bs, cur) == cur,
{
    assert(!exists|x: int| #[trigger] naked_single_at(bs, cur, x)) by {
        if exists|x: int| #[trigger] naked_single_at(bs, cur, x) {
            let x = choose|x: int| #[trigger] naked_single_at(bs, cur, x);
            assert(num_options(bs, cur, x) != 1);
        }
    }
    assert(trivial_step(bs, cur) == cur);
    assert(naked_fix(bs, cur) == cur);
    assert(propagation_round(bs, cur) == cur);
    assert(propagation_fix(bs, cur) == cur);
}

impl Board {
    /// Number of values that could legally be placed at the cell with flat
    /// index `loc`.
    pub(crate) fn options_for_loc(&self, loc: usize) -> (r: usize)
        requires
            self.wf(),
            loc < grid_cells(self.bs()),
        ensures
            r == num_options(self.bs(), self.grid(), loc as int),
    {
        let ghost bs = self.bs();
        proof {
            lemma_grid_bounds(bs);
        }
        let w = self.width;
        let mut options: usize = 0;
        let mut num: u8 = 1;
        while num <= w as u8
            invariant
                self.wf(),
                bs == self.bs(),
                loc < grid_cells(bs),
                w == grid_width(bs),
                w <= 225,
                1 <= num <= w + 1,
                options == options_upto(bs, self.grid(), loc as int, num - 1),
                options <= num - 1,
            decreases w + 1 - num,
        {
            if self.legal(loc, num) {
                options += 1;
            }
            num += 1;
        }
        options
    }

    /// Whether the cell with flat index `loc` has exactly one legal value.
    pub(crate) fn is_loc_single_constrained(&self, loc: usize) -> (r: bool)
        requires
            self.wf(),
            loc < grid_cells(self.bs()),
        ensures
            r == (num_options(self.bs(), self.grid(), loc as int) == 1),
    {
        let ghost bs = self.bs();
        proof {
            lemma_grid_bounds(bs);
        }
        let w = self.width;
        let mut options: usize = 0;
        let mut num: u8 = 1;
        while num <= w as u8
            invariant
                self.wf(),
                bs == self.bs(),
                loc < grid_cells(bs),
                w == grid_width(bs),
                w <= 225,
                1 <= num <= w + 1,
                options == options_upto(bs, self.grid(), loc as int, num - 1),
                options <= 1,
            decreases w + 1 - num,
        {
            if self.legal(loc, num) {
                options += 1;
                if options > 1 {
                    proof {
                        lemma_options_mono(bs, self.grid(), loc as int, num as int, w as int);
                    }
                    return false;
                }
            }
            num += 1;
        }
        options == 1
    }

    /// The lowest value that could legally be placed at the cell with flat
    /// index `loc`, or `None` when no value is legal there.
    pub(crate) fn first_legal_for_loc(&self, loc: usize) -> (r: Option<u8>)
        requires
            self.wf(),
            loc < grid_cells(self.bs()),
        ensures
            r is Some ==> val_ok(self.bs(), r->Some_0) && legal_at(
                self.bs(),
                self.grid(),
                loc as int,
                r->Some_0,
            ) && forall|u: u8| 1 <= u < r->Some_0 ==> !#[trigger] legal_at(
                self.bs(),
                self.grid(),
                loc as int,
                u,
            ),
            r is None ==> forall|u: u8| val_ok(self.bs(), u) ==> !#[trigger] legal_at(
                self.bs(),
                self.grid(),
                loc as int,
                u,
            ),
    {
        let ghost bs = self.bs();
        proof {
            lemma_grid_bounds(bs);
        }
        let w = self.width;
        let mut num: u8 = 1;
        while num <= w as u8
            invariant
                self.wf(),
                bs == self.bs(),
                loc < grid_cells(bs),
                w == grid_width(bs),
                w <= 225,
                1 <= num <= w + 1,
                forall|u: u8| 1 <= u < num ==> !#[trigger] legal_at(
                    bs,
                    self.grid(),
                    loc as int,
                    u,
                ),
            decreases w + 1 - num,
        {
            if self.legal(loc, num) {
                return Some(num);
            }
            num += 1;
        }
        None
    }

    /// The slot of the single empty cell of the given unit that could take
    /// `num`, or `None` when the count of such cells differs from one.
    pub(crate) fn find_single_spot(&self, kind: usize, g: usize, num: u8) -> (r: Option<usize>)
        requires
            self.wf(),
            kind < unit_kinds(),
            g < grid_width(self.bs()),
        ensures
            r is Some ==> 0 <= r->Some_0 < grid_width(self.bs()) && unit_spot(
                self.bs(),
                self.grid(),
                kind as int,
                g as int,
                num,
                r->Some_0 as int,
            ) && spots(self.bs(), self.grid(), kind as int, g as int, num) == 1,
            r is None ==> spots(self.bs(), self.grid(), kind as int, g as int, num) != 1,
    {
        let ghost bs = self.bs();
        let ghost s = self.grid();
        let w = self.width;
        let mut found = false;
        let mut at: usize = 0;
        let mut k: usize = 0;
        while k < w
            invariant
                self.wf(),
                bs == self.bs(),
                s == self.grid(),
                kind < unit_kinds(),
                g < grid_width(bs),
                w == grid_width(bs),
                k <= w,
                found ==> at < k && unit_spot(bs, s, kind as int, g as int, num, at as int)
                    && spots_upto(bs, s, kind as int, g as int, num, k as int) == 1,
                !found ==> spots_upto(bs, s, kind as int, g as int, num, k as int) == 0,
            decreases w - k,
        {
            let loc = self.unit_loc(kind, g, k);
            if self.cells[loc] == 0 {
                if self.legal(loc, num) {
                    if found {
                        proof {
                            lemma_spots_mono(
                                bs,
                                s,
                                kind as int,
                                g as int,
                                num,
                                k + 1,
                                w as int,
                            );
                        }
                        return None;
                    }
                    found = true;
                    at = k;
                }
            }
            k += 1;
        }
        if found {
            Some(at)
        } else {
            None
        }
    }
}

impl Board {
    /// One pass of the naked-single rule: fill the lowest-index empty cell
    /// that has exactly one legal value, if any, with that value.  Returns
    /// whether a cell was filled.
    pub(crate) fn fill_trivial(&mut self) -> (r: bool)
        requires
            old(self).wf(),
            consistent(old(self).bs(), old(self).grid()),
        ensures
            final(self).wf(),
            final(self).bs() == old(self).bs(),
            final(self).width == old(self).width,
            consistent(final(self).bs(), final(self).grid()),
            extends(old(self).grid(), final(self).grid()),
            same_solutions(old(self).bs(), old(self).grid(), final(self).grid()),
            final(self).grid() == trivial_step(old(self).bs(), old(self).grid()),
            r <==> final(self).grid() != old(self).grid(),
            !r ==> no_naked_single(old(self).bs(), old(self).grid()),
            r ==> num_empty(final(self).grid()) == num_empty(old(self).grid()) - 1,
    {
        let ghost bs = old(self).bs();
        let n = self.cells.len();
        let mut x: usize = 0;
        while x < n
            invariant
                self.wf(),
                self.box_size == old(self).box_size,
                self.width == old(self).width,
                self.grid() == old(self).grid(),
                bs == self.bs(),
                consistent(bs, self.grid()),
                n == grid_cells(bs),
                x <= n,
                forall|y: int| 0 <= y < x ==> !#[trigger] naked_single_at(bs, self.grid(), y),
            decreases n - x,
        {
            if self.cells[x] == 0 {
                let cnt = self.options_for_loc(x);
                if cnt == 1 {
                    let ghost s = self.grid();
                    let vopt = self.first_legal_for_loc(x);
                    let v = match vopt {
                        Some(v) => v,
                        None => {
                            proof {
                                lemma_grid_bounds(bs);
                                lemma_options_pos_exists(bs, s, x as int, grid_width(bs));
                                let u = choose|u: u8|
                                    1 <= u <= grid_width(bs) && #[trigger] legal_at(
                                        bs,
                                        s,
                                        x as int,
                                        u,
                                    );
                                assert(val_ok(bs, u) && legal_at(bs, s, x as int, u));
                                assert(false);
                            }
                            1
                        },
                    };
                    self.cells.set(x, v);
                    proof {
                        lemma_grid_bounds(bs);
                        assert forall|u: u8| val_ok(bs, u) && #[trigger] legal_at(
                            bs,
                            s,
                            x as int,
                            u,
                        ) implies u == v by {
                            lemma_unique_option(bs, s, x as int, u, v);
                        }
                        lemma_forced_cell_solutions(bs, s, x as int, v);
                        lemma_place_keeps_consistent(bs, s, x as int, v);
                        lemma_empties_update(s, x as int, v);
                        assert forall|i: int| 0 <= i < s.len() && #[trigger] s[i] != 0
                            implies self.grid()[i] == s[i] by {}
                        // The filled cell and value are exactly the ones the
                        // step function names.
                        assert(naked_single_at(bs, s, x as int));
                        lemma_first_naked_cell_props(bs, s);
                        let xc = first_naked_cell(bs, s);
                        assert(xc == x as int) by {
                            if xc < x as int {
                                assert(!naked_single_at(bs, s, xc));
                            } else if xc > x as int {
                                assert(!naked_single_at(bs, s, x as int));
                            }
                        }
                        assert(1 <= v && legal_at(bs, s, x as int, v) && (forall|u: u8|
                            1 <= u < v ==> !#[trigger] legal_at(bs, s, x as int, u)));
                        lemma_lowest_option_props(bs, s, x as int);
                        let vc = lowest_option(bs, s, x as int);
                        assert(vc == v) by {
                            if vc < v {
                                assert(!legal_at(bs, s, x as int, vc));
                            } else if vc > v {
                                assert(!legal_at(bs, s, x as int, v));
                            }
                        }
                        assert(self.grid() == trivial_step(bs, s));
                    }
                    return true;
                }
            }
            x += 1;
        }
        proof {
            assert forall|y: int|
                0 <= y < self.grid().len() && self.grid()[y] == 0 implies #[trigger] num_options(
                bs,
                self.grid(),
                y,
            ) != 1 by {
                assert(!naked_single_at(bs, self.grid(), y));
            }
            assert(!exists|x: int| #[trigger] naked_single_at(bs, self.grid(), x));
            assert(trivial_step(bs, self.grid()) == self.grid());
        }
        false
    }

    /// One pass of the hidden-single rule over one unit: for each value in
    /// ascending order, if exactly one empty cell of the unit could take it,
    /// fill that cell.  Returns whether any cell was filled.
    pub(crate) fn fill_only_in_unit(&mut self, kind: usize, g: usize) -> (r: bool)
        requires
            old(self).wf(),
            consistent(old(self).bs(), old(self).grid()),
            kind < unit_kinds(),
            g < grid_width(old(self).bs()),
        ensures
            final(self).wf(),
            final(self).bs() == old(self).bs(),
            final(self).width == old(self).width,
            consistent(final(self).bs(), final(self).grid()),
            extends(old(self).grid(), final(self).grid()),
            same_solutions(old(self).bs(), old(self).grid(), final(self).grid()),
            final(self).grid() == hidden_sweep(
                old(self).bs(),
                old(self).grid(),
                kind as int,
                g as int,
            ),
            forall|i: int|
                0 <= i < old(self).grid().len() && unit_of(old(self).bs(), kind as int, i)
                    != g ==> final(self).grid()[i] == #[trigger] old(self).grid()[i],
            r <==> final(self).grid() != old(self).grid(),
            !r ==> forall|v: u8| val_ok(old(self).bs(), v) ==> #[trigger] spots(
                old(self).bs(),
                old(self).grid(),
                kind as int,
                g as int,
                v,
            ) != 1,
            r ==> num_empty(final(self).grid()) < num_empty(old(self).grid()),
            r ==> exists|v: u8| val_ok(old(self).bs(), v) && #[trigger] spots(
                old(self).bs(),
                old(self).grid(),
                kind as int,
                g as int,
                v,
            ) == 1,
    {
        let ghost bs = old(self).bs();
        let ghost s0 = old(self).grid();
        proof {
            lemma_grid_bounds(bs);
        }
        let w = self.width;
        let mut mutated = false;
        let mut num: u8 = 1;
        while num <= w as u8
            invariant
                self.wf(),
                self.box_size == old(self).box_size,
                self.width == old(self).width,
                bs == self.bs(),
                s0 == old(self).grid(),
                kind < unit_kinds(),
                g < grid_width(bs),
                w == grid_width(bs),
                w <= 225,
                1 <= num <= w + 1,
                consistent(bs, self.grid()),
                extends(s0, self.grid()),
                same_solutions(bs, s0, self.grid()),
                self.grid() == hidden_sweep_upto(bs, s0, kind as int, g as int, num - 1),
                forall|i: int|
                    0 <= i < s0.len() && unit_of(bs, kind as int, i) != g ==> self.grid()[i]
                        == #[trigger] s0[i],
                mutated <==> self.grid() != s0,
                !mutated ==> forall|v: u8| 1 <= v < num ==> #[trigger] spots(
                    bs,
                    s0,
                    kind as int,
                    g as int,
                    v,
                ) != 1,
                mutated ==> num_empty(self.grid()) < num_empty(s0),
                mutated ==> exists|v: u8| val_ok(bs, v) && #[trigger] spots(
                    bs,
                    s0,
                    kind as int,
                    g as int,
                    v,
                ) == 1,
            decreases w + 1 - num,
        {
            match self.find_single_spot(kind, g, num) {
                Some(kx) => {
                    let ghost sc = self.grid();
                    let loc = self.unit_loc(kind, g, kx);
                    proof {
                        lemma_single_spot_unique(
                            bs,
                            sc,
                            kind as int,
                            g as int,
                            num,
                            kx as int,
                        );
                    }
                    self.cells.set(loc, num);
                    proof {
                        lemma_hidden_cell_solutions(
                            bs,
                            sc,
                            kind as int,
                            g as int,
                            kx as int,
                            num,
                        );
                        lemma_same_solutions_trans(bs, s0, sc, self.grid());
                        lemma_place_keeps_consistent(bs, sc, loc as int, num);
                        lemma_empties_update(sc, loc as int, num);
                        assert forall|i: int| 0 <= i < s0.len() && #[trigger] s0[i] != 0
                            implies self.grid()[i] == s0[i] by {
                            assert(sc[i] == s0[i]);
                        }
                        if !mutated {
                            assert(self.grid()[loc as int] != s0[loc as int]);
                        }
                        // The filled slot is exactly the one the step
                        // function names, so the grid matches the sweep.
                        let slot = single_spot_slot(bs, sc, kind as int, g as int, num);
                        assert(0 <= slot < grid_width(bs) && unit_spot(
                            bs,
                            sc,
                            kind as int,
                            g as int,
                            num,
                            slot,
                        ));
                        assert(slot == kx as int) by {
                            if slot != kx as int {
                                assert(!unit_spot(bs, sc, kind as int, g as int, num, slot));
                            }
                        }
                        assert(self.grid() == hidden_step(bs, sc, kind as int, g as int, num));
                        assert((num as int) as u8 == num);
                        lemma_unit_cell_props(bs, kind as int, g as int, kx as int);
                        assert(unit_of(bs, kind as int, loc as int) == g);
                        assert forall|i: int|
                            0 <= i < s0.len() && unit_of(bs, kind as int, i) != g
                            implies self.grid()[i] == #[trigger] s0[i] by {
                            assert(i != loc);
                            assert(sc[i] == s0[i]);
                        }
                    }
                    mutated = true;
                },
                None => {
                    proof {
                        assert(hidden_step(bs, self.grid(), kind as int, g as int, num)
                            == self.grid());
                        assert((num as int) as u8 == num);
                    }
                },
            }
            num += 1;
        }
        mutated
    }

    /// One pass of the hidden-single rule over one box.
    pub(crate) fn fill_only_in_box(&mut self, b: usize) -> (r: bool)
        requires
            old(self).wf(),
            consistent(old(self).bs(), old(self).grid()),
            b < grid_width(old(self).bs()),
        ensures
            final(self).wf(),
            final(self).bs() == old(self).bs(),
            final(self).width == old(self).width,
            consistent(final(self).bs(), final(self).grid()),
            extends(old(self).grid(), final(self).grid()),
            same_solutions(old(self).bs(), old(self).grid(), final(self).grid()),
            final(self).grid() == hidden_sweep(
                old(self).bs(),
                old(self).grid(),
                2,
                b as int,
            ),
            forall|i: int|
                0 <= i < old(self).grid().len() && unit_of(old(self).bs(), 2, i)
                    != b ==> final(self).grid()[i] == #[trigger] old(self).grid()[i],
            r <==> final(self).grid() != old(self).grid(),
            !r ==> forall|v: u8| val_ok(old(self).bs(), v) ==> #[trigger] spots(
                old(self).bs(),
                old(self).grid(),
                2,
                b as int,
                v,
            ) != 1,
            r ==> num_empty(final(self).grid()) < num_empty(old(self).grid()),
            r ==> exists|v: u8| val_ok(old(self).bs(), v) && #[trigger] spots(
                old(self).bs(),
                old(self).grid(),
                2,
                b as int,
                v,
            ) == 1,
    {
        self.fill_only_in_unit(2, b)
    }

    /// One pass of the hidden-single rule over one row.
    pub(crate) fn fill_only_in_row(&mut self, row: usize) -> (r: bool)
        requires
            old(self).wf(),
            consistent(old(self).bs(), old(self).grid()),
            row < grid_width(old(self).bs()),
        ensures
            final(self).wf(),
            final(self).bs() == old(self).bs(),
            final(self).width == old(self).width,
            consistent(final(self).bs(), final(self).grid()),
            extends(old(self).grid(), final(self).grid()),
            same_solutions(old(self).bs(), old(self).grid(), final(self).grid()),
            final(self).grid() == hidden_sweep(
                old(self).bs(),
                old(self).grid(),
                0,
                row as int,
            ),
            forall|i: int|
                0 <= i < old(self).grid().len() && unit_of(old(self).bs(), 0, i)
                    != row ==> final(self).grid()[i] == #[trigger] old(self).grid()[i],
            r <==> final(self).grid() != old(self).grid(),
            !r ==> forall|v: u8| val_ok(old(self).bs(), v) ==> #[trigger] spots(
                old(self).bs(),
                old(self).grid(),
                0,
                row as int,
                v,
            ) != 1,
            r ==> num_empty(final(self).grid()) < num_empty(old(self).grid()),
            r ==> exists|v: u8| val_ok(old(self).bs(), v) && #[trigger] spots(
                old(self).bs(),
                old(self).grid(),
                0,
                row as int,
                v,
            ) == 1,
    {
        self.fill_only_in_unit(0, row)
    }

    /// One pass of the hidden-single rule over one column.
    pub(crate) fn fill_only_in_col(&mut self, col: usize) -> (r: bool)
        requires
            old(self).wf(),
            consistent(old(self).bs(), old(self).grid()),
            col < grid_width(old(self).bs()),
        ensures
            final(self).wf(),
            final(self).bs() == old(self).bs(),
            final(self).width == old(self).width,
            consistent(final(self).bs(), final(self).grid()),
            extends(old(self).grid(), final(self).grid()),
            same_solutions(old(self).bs(), old(self).grid(), final(self).grid()),
            final(self).grid() == hidden_sweep(
                old(self).bs(),
                old(self).grid(),
                1,
                col as int,
            ),
            forall|i: int|
                0 <= i < old(self).grid().len() && unit_of(old(self).bs(), 1, i)
                    != col ==> final(self).grid()[i] == #[trigger] old(self).grid()[i],
            r <==> final(self).grid() != old(self).grid(),
            !r ==> forall|v: u8| val_ok(old(self).bs(), v) ==> #[trigger] spots(
                old(self).bs(),
                old(self).grid(),
                1,
                col as int,
                v,
            ) != 1,
            r ==> num_empty(final(self).grid()) < num_empty(old(self).grid()),
            r ==> exists|v: u8| val_ok(old(self).bs(), v) && #[trigger] spots(
                old(self).bs(),
                old(self).grid(),
                1,
                col as int,
                v,
            ) == 1,
    {
        self.fill_only_in_unit(1, col)
    }

    /// Run both deduction rules to their joint fixed point: naked singles
    /// until none fires, then one full sweep of hidden singles over all
    /// boxes, all rows, and all columns; repeat until a whole round changes
    /// nothing.  The final grid is `propagation_fix` of the input — a
    /// function of the input alone — its solution set is preserved exactly,
    /// and a grid already at the fixed point is left untouched.
    #[verifier::rlimit(100)]
    pub fn preproc(&mut self)
        requires
            old(self).wf(),
            consistent(old(self).bs(), old(self).grid()),
        ensures
            final(self).wf(),
            final(self).bs() == old(self).bs(),
            consistent(final(self).bs(), final(self).grid()),
            extends(old(self).grid(), final(self).grid()),
            same_solutions(old(self).bs(), old(self).grid(), final(self).grid()),
            final(self).grid() == propagation_fix(old(self).bs(), old(self).grid()),
            propagation_stalled(final(self).bs(), final(self).grid()),
            propagation_stalled(old(self).bs(), old(self).grid()) ==> final(self).grid() == old(
                self,
            ).grid(),
    {
        let ghost bs = old(self).bs();
        let ghost s0 = old(self).grid();
        proof {
            lemma_grid_bounds(bs);
        }
        let w = self.width;
        loop
            invariant
                self.wf(),
                self.box_size == old(self).box_size,
                self.width == old(self).width,
                bs == self.bs(),
                s0 == old(self).grid(),
                w == grid_width(bs),
                w <= 225,
                consistent(bs, self.grid()),
                extends(s0, self.grid()),
                same_solutions(bs, s0, self.grid()),
                propagation_fix(bs, self.grid()) == propagation_fix(bs, s0),
                propagation_stalled(bs, s0) ==> self.grid() == s0,
            ensures
                propagation_stalled(bs, self.grid()),
                self.grid() == propagation_fix(bs, s0),
            decreases num_empty(self.grid()),
        {
            let ghost round_start = self.grid();
            // Naked singles to their own fixed point.
            loop
                invariant
                    self.wf(),
                    self.box_size == old(self).box_size,
                    self.width == old(self).width,
                    bs == self.bs(),
                    s0 == old(self).grid(),
                    w == grid_width(bs),
                    w <= 225,
                    consistent(bs, self.grid()),
                    extends(s0, self.grid()),
                    same_solutions(bs, s0, self.grid()),
                    propagation_stalled(bs, s0) ==> self.grid() == s0,
                    naked_fix(bs, self.grid()) == naked_fix(bs, round_start),
                    propagation_fix(bs, round_start) == propagation_fix(bs, s0),
                    num_empty(self.grid()) <= num_empty(round_start),
                    self.grid() != round_start ==> num_empty(self.grid()) < num_empty(
                        round_start,
                    ),
                ensures
                    no_naked_single(bs, self.grid()),
                    self.grid() == naked_fix(bs, round_start),
                decreases num_empty(self.grid()),
            {
                let ghost before = self.grid();
                let t = self.fill_trivial();
                proof {
                    lemma_empties_nonneg(self.grid(), self.grid().len() as int);
                    if t {
                        assert(naked_fix(bs, before) == naked_fix(bs, self.grid()));
                        if propagation_stalled(bs, s0) {
                            assert(trivial_step(bs, s0) != s0);
                            assert(exists|x: int| #[trigger] naked_single_at(bs, s0, x));
                            let x = choose|x: int| #[trigger] naked_single_at(bs, s0, x);
                            assert(num_options(bs, s0, x) != 1);
                            assert(false);
                        }
                    } else {
                        assert(trivial_step(bs, self.grid()) == self.grid());
                        assert(naked_fix(bs, self.grid()) == self.grid());
                    }
                }
                if !t {
                    break;
                }
            }
            let ghost s1 = self.grid();
            let mut changed = false;
            // Hidden singles: all boxes, then all rows, then all columns.
            let mut gi: usize = 0;
            while gi < w
                invariant
                    self.wf(),
                    self.box_size == old(self).box_size,
                    self.width == old(self).width,
                    bs == self.bs(),
                    s0 == old(self).grid(),
                    w == grid_width(bs),
                    w <= 225,
                    gi <= w,
                    consistent(bs, self.grid()),
                    extends(s0, self.grid()),
                    same_solutions(bs, s0, self.grid()),
                    propagation_stalled(bs, s0) ==> self.grid() == s0 && !changed && s1 == s0,
                    no_naked_single(bs, s1),
                    s1 == naked_fix(bs, round_start),
                    propagation_fix(bs, round_start) == propagation_fix(bs, s0),
                    self.grid() == group_sweep_upto(bs, s1, 2, gi as int),
                    num_empty(s1) <= num_empty(round_start),
                    s1 != round_start ==> num_empty(s1) < num_empty(round_start),
                    !changed ==> self.grid() == s1,
                    changed ==> num_empty(self.grid()) < num_empty(s1),
                    !changed ==> forall|g2: int, v: u8|
                        0 <= g2 < gi && val_ok(bs, v) ==> #[trigger] spots(bs, s1, 2, g2, v)
                            != 1,
                decreases w - gi,
            {
                let ch = self.fill_only_in_box(gi);
                proof {
                    if ch && propagation_stalled(bs, s0) {
                        assert(false);
                    }
                    assert(self.grid() == group_sweep_upto(bs, s1, 2, gi + 1));
                }
                if ch {
                    changed = true;
                }
                gi += 1;
            }
            let ghost s2 = self.grid();
            let mut ri: usize = 0;
            while ri < w
                invariant
                    self.wf(),
                    self.box_size == old(self).box_size,
                    self.width == old(self).width,
                    bs == self.bs(),
                    s0 == old(self).grid(),
                    w == grid_width(bs),
                    w <= 225,
                    ri <= w,
                    consistent(bs, self.grid()),
                    extends(s0, self.grid()),
                    same_solutions(bs, s0, self.grid()),
                    propagation_stalled(bs, s0) ==> self.grid() == s0 && !changed && s1 == s0,
                    no_naked_single(bs, s1),
                    s1 == naked_fix(bs, round_start),
                    propagation_fix(bs, round_start) == propagation_fix(bs, s0),
                    s2 == group_sweep_upto(bs, s1, 2, w as int),
                    self.grid() == group_sweep_upto(bs, s2, 0, ri as int),
                    num_empty(s1) <= num_empty(round_start),
                    s1 != round_start ==> num_empty(s1) < num_empty(round_start),
                    !changed ==> self.grid() == s1 && s2 == s1,
                    changed ==> num_empty(self.grid()) < num_empty(s1),
                    !changed ==> forall|g2: int, v: u8|
                        0 <= g2 < w && val_ok(bs, v) ==> #[trigger] spots(bs, s1, 2, g2, v)
                            != 1,
                    !changed ==> forall|g2: int, v: u8|
                        0 <= g2 < ri && val_ok(bs, v) ==> #[trigger] spots(bs, s1, 0, g2, v)
                            != 1,
                decreases w - ri,
            {
                let ch = self.fill_only_in_row(ri);
                proof {
                    if ch && propagation_stalled(bs, s0) {
                        assert(false);
                    }
                    assert(self.grid() == group_sweep_upto(bs, s2, 0, ri + 1));
                }
                if ch {
                    changed = true;
                }
                ri += 1;
            }
            let ghost s3 = self.grid();
            let mut ci: usize = 0;
            while ci < w
                invariant
                    self.wf(),
                    self.box_size == old(self).box_size,
                    self.width == old(self).width,
                    bs == self.bs(),
                    s0 == old(self).grid(),
                    w == grid_width(bs),
                    w <= 225,
                    ci <= w,
                    consistent(bs, self.grid()),
                    extends(s0, self.grid()),
                    same_solutions(bs, s0, self.grid()),
                    propagation_stalled(bs, s0) ==> self.grid() == s0 && !changed && s1 == s0,
                    no_naked_single(bs, s1),
                    s1 == naked_fix(bs, round_start),
                    propagation_fix(bs, round_start) == propagation_fix(bs, s0),
                    s2 == group_sweep_upto(bs, s1, 2, w as int),
                    s3 == group_sweep_upto(bs, s2, 0, w as int),
                    self.grid() == group_sweep_upto(bs, s3, 1, ci as int),
                    num_empty(s1) <= num_empty(round_start),
                    s1 != round_start ==> num_empty(s1) < num_empty(round_start),
                    !changed ==> self.grid() == s1 && s2 == s1 && s3 == s1,
                    changed ==> num_empty(self.grid()) < num_empty(s1),
                    !changed ==> forall|g2: int, v: u8|
                        0 <= g2 < w && val_ok(bs, v) ==> #[trigger] spots(bs, s1, 2, g2, v)
                            != 1,
                    !changed ==> forall|g2: int, v: u8|
                        0 <= g2 < w && val_ok(bs, v) ==> #[trigger] spots(bs, s1, 0, g2, v)
                            != 1,
                    !changed ==> forall|g2: int, v: u8|
                        0 <= g2 < ci && val_ok(bs, v) ==> #[trigger] spots(bs, s1, 1, g2, v)
                            != 1,
                decreases w - ci,
            {
                let ch = self.fill_only_in_col(ci);
                proof {
                    if ch && propagation_stalled(bs, s0) {
                        assert(false);
                    }
                    assert(self.grid() == group_sweep_upto(bs, s3, 1, ci + 1));
                }
                if ch {
                    changed = true;
                }
                ci += 1;
            }
            proof {
                lemma_round_assembles(bs, round_start, s1, s2, s3, self.grid());
            }
            if !changed {
                proof {
                    assert forall|kind: int, g2: int, v: u8|
                        0 <= kind < unit_kinds() && 0 <= g2 < grid_width(bs) && val_ok(bs, v)
                        implies #[trigger] spots(bs, self.grid(), kind, g2, v) != 1 by {
                        if kind == 0 {
                            assert(spots(bs, s1, 0, g2, v) != 1);
                        } else if kind == 1 {
                            assert(spots(bs, s1, 1, g2, v) != 1);
                        } else {
                            assert(spots(bs, s1, 2, g2, v) != 1);
                        }
                    }
                    // The grid is its own next round, hence the fixed point.
                    let cur = self.grid();
                    lemma_identity_round_is_fix(bs, cur);
                    lemma_fix_after_round(bs, round_start, cur);
                }
                break;
            }
            proof {
                lemma_empties_nonneg(self.grid(), self.grid().len() as int);
                lemma_fix_after_round(bs, round_start, self.grid());
            }
        }
    }
}

} // verus!
