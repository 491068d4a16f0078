//! Constraint groups ("units") of the grid: every row, column, and box is a
//! family of `grid_width(bs)` cells, enumerated by a slot number.  Unit kinds
//! are numbered `0` = row, `1` = column, `2` = box.
//!
//! This module also proves the pigeonhole fact the solver rests on: in a full
//! consistent grid every value `1 ..= grid_width(bs)` appears in every unit.

use vstd::prelude::*;
use vstd::set_lib::{lemma_int_range, lemma_len_subset, set_int_range};
use crate::model::{
    box_of, cells_ok, col_of, consistent, full, grid_cells, grid_width, lemma_flat_decomp,
    lemma_mul_plus_div_mod, lemma_rc_index, legal_at, row_of, sees, val_ok,
};
use vstd::arithmetic::div_mod::lemma_fundamental_div_mod;

verus! {

/// Number of unit kinds: rows, columns, boxes.
pub open spec fn unit_kinds() -> int {
    3
}

/// A pair of box coordinates yields an index below `bs * bs`.
pub(crate) proof fn lemma_small_coords(bs: int, a: int, b: int)
    requires
        0 <= a < bs,
        0 <= b < bs,
    ensures
        0 <= a * bs + b < bs * bs,
{
    assert(0 <= a * bs + b < bs * bs) by (nonlinear_arith)
        requires
            0 <= a < bs,
            0 <= b < bs,
    ;
}

/// Flat index of slot `k` of unit `g` of the given kind.
/// Rows and columns are enumerated in grid order; the slots of a box walk it
/// row-major.
pub open spec fn unit_cell(bs: int, kind: int, g: int, k: int) -> int {
    if kind == 0 {
        g * grid_width(bs) + k
    } else if kind == 1 {
        k * grid_width(bs) + g
    } else {
        ((g / bs) * bs + k / bs) * grid_width(bs) + (g % bs) * bs + k % bs
    }
}

/// The unit that a cell belongs to, for each kind.
pub open spec fn unit_of(bs: int, kind: int, i: int) -> int {
    if kind == 0 {
        row_of(bs, i)
    } else if kind == 1 {
        col_of(bs, i)
    } else {
        box_of(bs, i)
    }
}

/// The slot of cell `i` inside its own unit of the given kind.
pub open spec fn slot_of(bs: int, kind: int, i: int) -> int {
    if kind == 0 {
        col_of(bs, i)
    } else if kind == 1 {
        row_of(bs, i)
    } else {
        (row_of(bs, i) % bs) * bs + col_of(bs, i) % bs
    }
}

/// Each slot of a unit is a cell of the grid, lying in that unit, and the
/// slot number can be read back from the cell index.
pub proof fn lemma_unit_cell_props(bs: int, kind: int, g: int, k: int)
    requires
        0 < bs,
        0 <= kind < unit_kinds(),
        0 <= g < grid_width(bs),
        0 <= k < grid_width(bs),
    ensures
        0 <= unit_cell(bs, kind, g, k) < grid_cells(bs),
        unit_of(bs, kind, unit_cell(bs, kind, g, k)) == g,
        slot_of(bs, kind, unit_cell(bs, kind, g, k)) == k,
{
    let w = grid_width(bs);
    if kind == 0 {
        lemma_rc_index(bs, g, k);
    } else if kind == 1 {
        lemma_rc_index(bs, k, g);
    } else {
        let br = g / bs;
        let bc = g % bs;
        let dr = k / bs;
        let dc = k % bs;
        lemma_fundamental_div_mod(g, bs);
        lemma_fundamental_div_mod(k, bs);
        assert(0 <= bc < bs && 0 <= dc < bs);
        assert(0 <= br < bs && 0 <= dr < bs) by {
            lemma_flat_decomp(bs, g);
            lemma_flat_decomp(bs, k);
        }
        let r = br * bs + dr;
        let c = bc * bs + dc;
        lemma_small_coords(bs, br, dr);
        lemma_small_coords(bs, bc, dc);
        assert(0 <= r < w && 0 <= c < w);
        lemma_rc_index(bs, r, c);
        lemma_mul_plus_div_mod(br, bs, dr);
        lemma_mul_plus_div_mod(bc, bs, dc);
        assert(r / bs == br && r % bs == dr);
        assert(c / bs == bc && c % bs == dc);
        assert(g == br * bs + bc) by {
            assert(g == bs * br + bc);
            assert(bs * br == br * bs) by (nonlinear_arith);
        }
        assert(k == dr * bs + dc) by {
            assert(k == bs * dr + dc);
            assert(bs * dr == dr * bs) by (nonlinear_arith);
        }
    }
}

/// Every cell of the grid is some slot of the unit it belongs to.
pub proof fn lemma_unit_member(bs: int, kind: int, i: int)
    requires
        0 < bs,
        0 <= kind < unit_kinds(),
        0 <= i < grid_cells(bs),
    ensures
        0 <= unit_of(bs, kind, i) < grid_width(bs),
        0 <= slot_of(bs, kind, i) < grid_width(bs),
        unit_cell(bs, kind, unit_of(bs, kind, i), slot_of(bs, kind, i)) == i,
{
    let w = grid_width(bs);
    assert(w == bs * bs);
    assert(0 < bs * bs) by (nonlinear_arith)
        requires 0 < bs;
    assert(0 < w);
    lemma_flat_decomp(w, i);
    let r = row_of(bs, i);
    let c = col_of(bs, i);
    lemma_fundamental_div_mod(i, w);
    if kind == 0 {
        assert(unit_cell(bs, 0, r, c) == r * w + c);
    } else if kind == 1 {
        assert(unit_cell(bs, 1, c, r) == r * w + c);
    } else {
        lemma_flat_decomp(bs, r);
        lemma_flat_decomp(bs, c);
        let g = (r / bs) * bs + c / bs;
        let k = (r % bs) * bs + c % bs;
        lemma_small_coords(bs, r / bs, c / bs);
        lemma_small_coords(bs, r % bs, c % bs);
        assert(0 <= g < w && 0 <= k < w);
        lemma_mul_plus_div_mod(r / bs, bs, c / bs);
        lemma_mul_plus_div_mod(r % bs, bs, c % bs);
        assert(g / bs == r / bs && g % bs == c / bs);
        assert(k / bs == r % bs && k % bs == c % bs);
        assert((g / bs) * bs + k / bs == r) by {
            assert(r == bs * (r / bs) + r % bs);
            assert(bs * (r / bs) == (r / bs) * bs) by (nonlinear_arith);
        }
        assert((g % bs) * bs + k % bs == c) by {
            assert(c == bs * (c / bs) + c % bs);
            assert(bs * (c / bs) == (c / bs) * bs) by (nonlinear_arith);
        }
        assert(unit_cell(bs, 2, g, k) == r * w + c);
    }
}

/// Distinct slots of one unit are distinct cells, and any two cells of one
/// unit see each other.
pub proof fn lemma_unit_cells_see(bs: int, kind: int, g: int, k1: int, k2: int)
    requires
        0 < bs,
        0 <= kind < unit_kinds(),
        0 <= g < grid_width(bs),
        0 <= k1 < grid_width(bs),
        0 <= k2 < grid_width(bs),
    ensures
        sees(bs, unit_cell(bs, kind, g, k1), unit_cell(bs, kind, g, k2)),
        k1 != k2 ==> unit_cell(bs, kind, g, k1) != unit_cell(bs, kind, g, k2),
{
    lemma_unit_cell_props(bs, kind, g, k1);
    lemma_unit_cell_props(bs, kind, g, k2);
}

/// A cell of a unit is empty and could legally take `v` there.
pub open spec fn unit_spot(bs: int, s: Seq<u8>, kind: int, g: int, v: u8, k: int) -> bool {
    &&& s[unit_cell(bs, kind, g, k)] == 0
    &&& legal_at(bs, s, unit_cell(bs, kind, g, k), v)
}

/// Number of slots among the first `kmax` of a unit where `v` could still
/// legally be placed into an empty cell.
pub open spec fn spots_upto(bs: int, s: Seq<u8>, kind: int, g: int, v: u8, kmax: int) -> int
    decreases kmax,
{
    if kmax <= 0 {
        0
    } else {
        spots_upto(bs, s, kind, g, v, kmax - 1) + if unit_spot(bs, s, kind, g, v, kmax - 1) {
            1int
        } else {
            0int
        }
    }
}

/// Number of empty cells of a unit where `v` could still legally be placed.
pub open spec fn spots(bs: int, s: Seq<u8>, kind: int, g: int, v: u8) -> int {
    spots_upto(bs, s, kind, g, v, grid_width(bs))
}

/// Spot counts are never negative.
pub proof fn lemma_spots_nonneg(bs: int, s: Seq<u8>, kind: int, g: int, v: u8, kmax: int)
    ensures
        spots_upto(bs, s, kind, g, v, kmax) >= 0,
    decreases kmax,
{
    if kmax > 0 {
        lemma_spots_nonneg(bs, s, kind, g, v, kmax - 1);
    }
}

/// Spot counts only grow with the prefix length.
pub proof fn lemma_spots_mono(bs: int, s: Seq<u8>, kind: int, g: int, v: u8, k1: int, k2: int)
    requires
        k1 <= k2,
    ensures
        spots_upto(bs, s, kind, g, v, k1) <= spots_upto(bs, s, kind, g, v, k2),
    decreases k2 - k1,
{
    if k1 < k2 {
        lemma_spots_mono(bs, s, kind, g, v, k1, k2 - 1);
    }
}

/// A spot below the prefix bound makes the count positive.
pub proof fn lemma_spots_at_least_one(
    bs: int,
    s: Seq<u8>,
    kind: int,
    g: int,
    v: u8,
    k: int,
    kmax: int,
)
    requires
        0 <= k < kmax,
        unit_spot(bs, s, kind, g, v, k),
    ensures
        spots_upto(bs, s, kind, g, v, kmax) >= 1,
    decreases kmax,
{
    if k < kmax - 1 {
        lemma_spots_at_least_one(bs, s, kind, g, v, k, kmax - 1);
    } else {
        lemma_spots_nonneg(bs, s, kind, g, v, kmax - 1);
    }
}

/// If no slot of the prefix is a spot, the count is zero; stated in the
/// contrapositive: a positive count yields a spot.
pub proof fn lemma_spots_pos_exists(bs: int, s: Seq<u8>, kind: int, g: int, v: u8, kmax: int)
    requires
        spots_upto(bs, s, kind, g, v, kmax) >= 1,
    ensures
        exists|k: int| 0 <= k < kmax && #[trigger] unit_spot(bs, s, kind, g, v, k),
    decreases kmax,
{
    if kmax > 0 {
        if unit_spot(bs, s, kind, g, v, kmax - 1) {
        } else {
            lemma_spots_pos_exists(bs, s, kind, g, v, kmax - 1);
        }
    }
}

/// Two distinct spots push the count to at least two.
pub proof fn lemma_spots_two(
    bs: int,
    s: Seq<u8>,
    kind: int,
    g: int,
    v: u8,
    ka: int,
    kb: int,
    kmax: int,
)
    requires
        0 <= ka < kb < kmax,
        unit_spot(bs, s, kind, g, v, ka),
        unit_spot(bs, s, kind, g, v, kb),
    ensures
        spots_upto(bs, s, kind, g, v, kmax) >= 2,
    decreases kmax,
{
    if kb == kmax - 1 {
        lemma_spots_at_least_one(bs, s, kind, g, v, ka, kmax - 1);
    } else {
        lemma_spots_two(bs, s, kind, g, v, ka, kb, kmax - 1);
    }
}

/// If the whole unit holds exactly one spot `kx`, no other slot is a spot.
pub proof fn lemma_single_spot_unique(bs: int, s: Seq<u8>, kind: int, g: int, v: u8, kx: int)
    requires
        spots(bs, s, kind, g, v) == 1,
        0 <= kx < grid_width(bs),
        unit_spot(bs, s, kind, g, v, kx),
    ensures
        forall|ky: int|
            0 <= ky < grid_width(bs) && ky != kx ==> !#[trigger] unit_spot(bs, s, kind, g, v, ky),
{
    assert forall|ky: int|
        0 <= ky < grid_width(bs) && ky != kx implies !#[trigger] unit_spot(
        bs,
        s,
        kind,
        g,
        v,
        ky,
    ) by {
        if unit_spot(bs, s, kind, g, v, ky) {
            if kx < ky {
                lemma_spots_two(bs, s, kind, g, v, kx, ky, grid_width(bs));
            } else {
                lemma_spots_two(bs, s, kind, g, v, ky, kx, grid_width(bs));
            }
        }
    }
}

/// Number of assigned cells among the first `kmax` slots of a unit.
pub open spec fn filled_upto(bs: int, s: Seq<u8>, kind: int, g: int, kmax: int) -> int
    decreases kmax,
{
    if kmax <= 0 {
        0
    } else {
        filled_upto(bs, s, kind, g, kmax - 1) + if s[unit_cell(bs, kind, g, kmax - 1)] != 0 {
            1int
        } else {
            0int
        }
    }
}

/// Number of assigned cells of a unit.
pub open spec fn filled_in_unit(bs: int, s: Seq<u8>, kind: int, g: int) -> int {
    filled_upto(bs, s, kind, g, grid_width(bs))
}

/// Number of occurrences of value `v` among the first `kmax` slots of a unit.
pub open spec fn value_count_upto(
    bs: int,
    s: Seq<u8>,
    kind: int,
    g: int,
    v: u8,
    kmax: int,
) -> int
    decreases kmax,
{
    if kmax <= 0 {
        0
    } else {
        value_count_upto(bs, s, kind, g, v, kmax - 1) + if s[unit_cell(bs, kind, g, kmax - 1)] == v {
            1int
        } else {
            0int
        }
    }
}

/// Number of occurrences of value `v` in a unit.
pub open spec fn value_count(bs: int, s: Seq<u8>, kind: int, g: int, v: u8) -> int {
    value_count_upto(bs, s, kind, g, v, grid_width(bs))
}

proof fn lemma_value_count_nonneg(bs: int, s: Seq<u8>, kind: int, g: int, v: u8, kmax: int)
    ensures
        value_count_upto(bs, s, kind, g, v, kmax) >= 0,
    decreases kmax,
{
    if kmax > 0 {
        lemma_value_count_nonneg(bs, s, kind, g, v, kmax - 1);
    }
}

proof fn lemma_value_count_exists(bs: int, s: Seq<u8>, kind: int, g: int, v: u8, kmax: int)
    requires
        exists|k: int| 0 <= k < kmax && s[#[trigger] unit_cell(bs, kind, g, k)] == v,
    ensures
        value_count_upto(bs, s, kind, g, v, kmax) >= 1,
    decreases kmax,
{
    let k = choose|k: int| 0 <= k < kmax && s[#[trigger] unit_cell(bs, kind, g, k)] == v;
    if k < kmax - 1 {
        lemma_value_count_exists(bs, s, kind, g, v, kmax - 1);
    } else {
        lemma_value_count_nonneg(bs, s, kind, g, v, kmax - 1);
    }
}

proof fn lemma_value_count_at_most_one(
    bs: int,
    s: Seq<u8>,
    kind: int,
    g: int,
    v: u8,
    kmax: int,
)
    requires
        forall|k1: int, k2: int|
            0 <= k1 < k2 < kmax ==> s[#[trigger] unit_cell(bs, kind, g, k1)]
                != s[#[trigger] unit_cell(bs, kind, g, k2)] || s[unit_cell(bs, kind, g, k1)] == 0,
        v != 0,
    ensures
        value_count_upto(bs, s, kind, g, v, kmax) <= 1,
    decreases kmax,
{
    if kmax > 0 {
        lemma_value_count_at_most_one(bs, s, kind, g, v, kmax - 1);
        if s[unit_cell(bs, kind, g, kmax - 1)] == v {
            if value_count_upto(bs, s, kind, g, v, kmax - 1) >= 1 {
                lemma_value_count_pos_exists(bs, s, kind, g, v, kmax - 1);
                let k = choose|k: int|
                    0 <= k < kmax - 1 && s[#[trigger] unit_cell(bs, kind, g, k)] == v;
                assert(s[unit_cell(bs, kind, g, k)] != s[unit_cell(bs, kind, g, kmax - 1)]
                    || s[unit_cell(bs, kind, g, k)] == 0);
                assert(false);
            }
        }
    }
}

proof fn lemma_value_count_pos_exists(bs: int, s: Seq<u8>, kind: int, g: int, v: u8, kmax: int)
    requires
        value_count_upto(bs, s, kind, g, v, kmax) >= 1,
    ensures
        exists|k: int| 0 <= k < kmax && s[#[trigger] unit_cell(bs, kind, g, k)] == v,
    decreases kmax,
{
    if kmax > 0 {
        if s[unit_cell(bs, kind, g, kmax - 1)] == v {
        } else {
            lemma_value_count_pos_exists(bs, s, kind, g, v, kmax - 1);
        }
    }
}

/// The set of values (as integers) held by the first `kmax` slots of a unit.
spec fn unit_vals_upto(bs: int, s: Seq<u8>, kind: int, g: int, kmax: int) -> Set<int>
    decreases kmax,
{
    if kmax <= 0 {
        Set::empty()
    } else {
        unit_vals_upto(bs, s, kind, g, kmax - 1).insert(s[unit_cell(bs, kind, g, kmax - 1)] as int)
    }
}

proof fn lemma_unit_vals_member(bs: int, s: Seq<u8>, kind: int, g: int, kmax: int)
    ensures
        forall|x: int|
            unit_vals_upto(bs, s, kind, g, kmax).contains(x) <==> exists|k: int|
                0 <= k < kmax && s[#[trigger] unit_cell(bs, kind, g, k)] as int == x,
    decreases kmax,
{
    if kmax > 0 {
        lemma_unit_vals_member(bs, s, kind, g, kmax - 1);
        assert forall|x: int| unit_vals_upto(bs, s, kind, g, kmax).contains(x) implies exists|
            k: int,
        | 0 <= k < kmax && s[#[trigger] unit_cell(bs, kind, g, k)] as int == x by {
            if x == s[unit_cell(bs, kind, g, kmax - 1)] as int {
                assert(0 <= kmax - 1 < kmax && s[unit_cell(bs, kind, g, kmax - 1)] as int == x);
            } else {
                assert(unit_vals_upto(bs, s, kind, g, kmax - 1).contains(x));
                let k = choose|k: int|
                    0 <= k < kmax - 1 && s[#[trigger] unit_cell(bs, kind, g, k)] as int == x;
                assert(0 <= k < kmax && s[unit_cell(bs, kind, g, k)] as int == x);
            }
        }
        assert forall|x: int|
            exists|k: int| 0 <= k < kmax && s[#[trigger] unit_cell(bs, kind, g, k)] as int == x
            implies unit_vals_upto(bs, s, kind, g, kmax).contains(x) by {
            let k = choose|k: int|
                0 <= k < kmax && s[#[trigger] unit_cell(bs, kind, g, k)] as int == x;
            if k < kmax - 1 {
                assert(unit_vals_upto(bs, s, kind, g, kmax - 1).contains(x));
            }
        }
    }
}

proof fn lemma_unit_vals_card(bs: int, s: Seq<u8>, kind: int, g: int, kmax: int)
    requires
        forall|k1: int, k2: int|
            0 <= k1 < k2 < kmax ==> s[#[trigger] unit_cell(bs, kind, g, k1)]
                != s[#[trigger] unit_cell(bs, kind, g, k2)],
    ensures
        unit_vals_upto(bs, s, kind, g, kmax).finite(),
        kmax >= 0 ==> unit_vals_upto(bs, s, kind, g, kmax).len() == kmax,
    decreases kmax,
{
    if kmax > 0 {
        lemma_unit_vals_card(bs, s, kind, g, kmax - 1);
        lemma_unit_vals_member(bs, s, kind, g, kmax - 1);
        assert(!unit_vals_upto(bs, s, kind, g, kmax - 1).contains(
            s[unit_cell(bs, kind, g, kmax - 1)] as int,
        ));
    }
}

/// Pigeonhole for one unit of a full consistent grid: every value
/// `1 ..= grid_width(bs)` is held by some slot of the unit.
pub proof fn lemma_unit_all_values(bs: int, s: Seq<u8>, kind: int, g: int, v: u8)
    requires
        0 < bs,
        cells_ok(bs, s),
        full(s),
        consistent(bs, s),
        0 <= kind < unit_kinds(),
        0 <= g < grid_width(bs),
        val_ok(bs, v),
    ensures
        exists|k: int| 0 <= k < grid_width(bs) && s[#[trigger] unit_cell(bs, kind, g, k)] == v,
{
    let w = grid_width(bs);
    assert(0 < bs * bs) by (nonlinear_arith)
        requires 0 < bs;
    assert(0 < w);
    assert forall|k1: int, k2: int| 0 <= k1 < k2 < w implies s[#[trigger] unit_cell(bs, kind, g, k1)]
        != s[#[trigger] unit_cell(bs, kind, g, k2)] by {
        lemma_unit_cell_props(bs, kind, g, k1);
        lemma_unit_cell_props(bs, kind, g, k2);
        lemma_unit_cells_see(bs, kind, g, k1, k2);
    }
    lemma_unit_vals_card(bs, s, kind, g, w);
    lemma_unit_vals_member(bs, s, kind, g, w);
    let vals = unit_vals_upto(bs, s, kind, g, w);
    let range = set_int_range(1, w + 1);
    lemma_int_range(1, w + 1);
    assert forall|x: int| vals.contains(x) implies range.contains(x) by {
        let k = choose|k: int| 0 <= k < w && s[#[trigger] unit_cell(bs, kind, g, k)] as int == x;
        lemma_unit_cell_props(bs, kind, g, k);
        assert(s[unit_cell(bs, kind, g, k)] != 0);
        assert(s[unit_cell(bs, kind, g, k)] <= w);
    }
    if !vals.contains(v as int) {
        let smaller = range.remove(v as int);
        assert(vals.subset_of(smaller));
        lemma_len_subset(vals, smaller);
        assert(smaller.len() == w - 1);
        assert(false);
    }
}

/// In a full consistent grid every value in range appears exactly once in
/// every unit.
pub proof fn lemma_unit_value_count_one(bs: int, s: Seq<u8>, kind: int, g: int, v: u8)
    requires
        0 < bs,
        cells_ok(bs, s),
        full(s),
        consistent(bs, s),
        0 <= kind < unit_kinds(),
        0 <= g < grid_width(bs),
        val_ok(bs, v),
    ensures
        value_count(bs, s, kind, g, v) == 1,
{
    let w = grid_width(bs);
    lemma_unit_all_values(bs, s, kind, g, v);
    lemma_value_count_exists(bs, s, kind, g, v, w);
    assert forall|k1: int, k2: int| 0 <= k1 < k2 < w implies s[#[trigger] unit_cell(bs, kind, g, k1)]
        != s[#[trigger] unit_cell(bs, kind, g, k2)] || s[unit_cell(bs, kind, g, k1)] == 0 by {
        lemma_unit_cell_props(bs, kind, g, k1);
        lemma_unit_cell_props(bs, kind, g, k2);
        lemma_unit_cells_see(bs, kind, g, k1, k2);
    }
    lemma_value_count_at_most_one(bs, s, kind, g, v, w);
}

} // verus!
