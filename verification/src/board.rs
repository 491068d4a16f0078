//! The grid data structure and its basic operations: cell access, legality
//! checks, validation of an initial position, and construction from a vector
//! of values or from a token string.

use vstd::prelude::*;
use vstd::string::StringSliceAdditionalSpecFns;
use crate::model::{
    cells_ok, consistent, grid_cells, grid_width, legal_at, lemma_flat_decomp, lemma_grid_bounds,
    lemma_rc_index, sees,
};
use crate::units::{
    lemma_small_coords, lemma_unit_cell_props, lemma_unit_cells_see, lemma_unit_member, slot_of,
    unit_cell, unit_kinds, unit_of,
};

verus! {

/// Why a grid could not be built from the given input.
#[derive(Clone, Copy, Debug, PartialEq, Eq, Structural)]
pub enum ValidationError {
    /// The box size is zero or so large that cell values would not fit a byte.
    UnsupportedBoxSize,
    /// A value vector of the wrong length, or a token string longer than the grid.
    WrongLength,
    /// A byte of the token string that encodes no cell token at all.
    IllegalSymbol(u8),
    /// A token that encodes a value beyond the width of the grid.
    SymbolOutOfRange(u8),
    /// A cell value beyond the width of the grid.
    ValueOutOfRange,
    /// The given cells already repeat a value within a row, column, or box.
    InconsistentBoard,
}

/// A partially assigned grid of side `box_size * box_size`.
/// Cells are stored row-major; `0` marks an empty cell.
#[derive(Clone, Debug)]
pub struct Board {
    pub(crate) box_size: usize,
    pub(crate) width: usize,
    pub(crate) cells: Vec<u8>,
}

/// A box size the representation supports: positive, and small enough that
/// every cell value fits in a byte.
pub open spec fn size_ok(bs: int) -> bool {
    1 <= bs && grid_width(bs) <= 255
}

impl Board {
    /// The box size, as a mathematical integer.
    pub open(crate) spec fn bs(&self) -> int {
        self.box_size as int
    }

    /// The cells of the grid, row-major.
    pub open(crate) spec fn grid(&self) -> Seq<u8> {
        self.cells@
    }

    /// Structural invariant: consistent dimensions and every cell empty or
    /// in range.
    pub open(crate) spec fn wf(&self) -> bool {
        &&& size_ok(self.bs())
        &&& self.width == grid_width(self.bs())
        &&& cells_ok(self.bs(), self.grid())
    }

    /// The side length of the grid.
    pub fn width(&self) -> (r: usize)
        requires
            self.wf(),
        ensures
            r == grid_width(self.bs()),
    {
        self.width
    }

    /// The side length of one box.
    pub fn box_size(&self) -> (r: usize)
        requires
            self.wf(),
        ensures
            r == self.bs(),
    {
        self.box_size
    }

    /// The value of the cell with flat index `loc`; `0` means empty.
    pub fn get(&self, loc: usize) -> (r: u8)
        requires
            self.wf(),
            loc < grid_cells(self.bs()),
        ensures
            r == self.grid()[loc as int],
    {
        self.cells[loc]
    }

    /// Whether the cell with flat index `loc` is empty.
    pub fn is_unassigned(&self, loc: usize) -> (r: bool)
        requires
            self.wf(),
            loc < grid_cells(self.bs()),
        ensures
            r == (self.grid()[loc as int] == 0),
    {
        self.cells[loc] == 0
    }

    /// Whether the cell in row `x`, column `y` is empty.
    pub fn is_unassigned_xy(&self, x: usize, y: usize) -> (r: bool)
        requires
            self.wf(),
            x < grid_width(self.bs()),
            y < grid_width(self.bs()),
        ensures
            r == (self.grid()[x * grid_width(self.bs()) + y] == 0),
    {
        proof {
            lemma_rc_index(self.bs(), x as int, y as int);
            lemma_grid_bounds(self.bs());
        }
        self.cells[x * self.width + y] == 0
    }

    /// Flat index of slot `k` of unit `g` of the given kind.
    pub(crate) fn unit_loc(&self, kind: usize, g: usize, k: usize) -> (r: usize)
        requires
            self.wf(),
            kind < unit_kinds(),
            g < grid_width(self.bs()),
            k < grid_width(self.bs()),
        ensures
            r == unit_cell(self.bs(), kind as int, g as int, k as int),
            r < grid_cells(self.bs()),
    {
        proof {
            lemma_unit_cell_props(self.bs(), kind as int, g as int, k as int);
            lemma_grid_bounds(self.bs());
        }
        let w = self.width;
        if kind == 0 {
            g * w + k
        } else if kind == 1 {
            k * w + g
        } else {
            let b = self.box_size;
            let br = g / b;
            let dr = k / b;
            let bc = g % b;
            let dc = k % b;
            proof {
                lemma_flat_decomp(b as int, g as int);
                lemma_flat_decomp(b as int, k as int);
                lemma_small_coords(b as int, br as int, dr as int);
                lemma_small_coords(b as int, bc as int, dc as int);
                lemma_rc_index(b as int, (br * b + dr) as int, (bc * b + dc) as int);
            }
            let r = br * b + dr;
            let c = bc * b + dc;
            r * w + c
        }
    }

    /// Whether some cell of the given unit holds the value `num`.
    pub(crate) fn unit_has_value(&self, kind: usize, g: usize, num: u8) -> (r: bool)
        requires
            self.wf(),
            kind < unit_kinds(),
            g < grid_width(self.bs()),
        ensures
            r <==> exists|k: int|
                0 <= k < grid_width(self.bs()) && self.grid()[#[trigger] unit_cell(
                    self.bs(),
                    kind as int,
                    g as int,
                    k,
                )] == num,
    {
        let w = self.width;
        let mut k: usize = 0;
        while k < w
            invariant
                self.wf(),
                kind < unit_kinds(),
                g < grid_width(self.bs()),
                w == grid_width(self.bs()),
                k <= w,
                forall|kk: int|
                    0 <= kk < k ==> self.grid()[#[trigger] unit_cell(
                        self.bs(),
                        kind as int,
                        g as int,
                        kk,
                    )] != num,
            decreases w - k,
        {
            let loc = self.unit_loc(kind, g, k);
            if self.cells[loc] == num {
                return true;
            }
            k += 1;
        }
        false
    }

    /// Whether placing `num` at the cell with flat index `loc` would break no
    /// row, column, or box constraint.  The cell itself counts: a cell that
    /// already holds `num` reports the placement as illegal.
    pub(crate) fn legal(&self, loc: usize, num: u8) -> (r: bool)
        requires
            self.wf(),
            loc < grid_cells(self.bs()),
        ensures
            r == legal_at(self.bs(), self.grid(), loc as int, num),
    {
        let ghost bs = self.bs();
        proof {
            lemma_grid_bounds(bs);
            lemma_flat_decomp(grid_width(bs), loc as int);
        }
        let w = self.width;
        let row = loc / w;
        let col = loc % w;
        proof {
            lemma_flat_decomp(self.box_size as int, row as int);
            lemma_flat_decomp(self.box_size as int, col as int);
            lemma_small_coords(
                self.box_size as int,
                (row / self.box_size) as int,
                (col / self.box_size) as int,
            );
        }
        let b = (row / self.box_size) * self.box_size + col / self.box_size;
        proof {
            lemma_unit_member(bs, 2, loc as int);
            assert(row == unit_of(bs, 0, loc as int));
            assert(col == unit_of(bs, 1, loc as int));
            assert(b == unit_of(bs, 2, loc as int));
        }
        let in_row = self.unit_has_value(0, row, num);
        let in_col = self.unit_has_value(1, col, num);
        let in_box = self.unit_has_value(2, b, num);
        let r = !in_row && !in_col && !in_box;
        proof {
            if r {
                assert forall|j: int|
                    0 <= j < self.grid().len() && sees(bs, loc as int, j)
                    implies #[trigger] self.grid()[j] != num by {
                    if row_of_matches(bs, loc as int, j) {
                        lemma_unit_member(bs, 0, j);
                        assert(self.grid()[unit_cell(bs, 0, row as int, slot_of(bs, 0, j))]
                            != num);
                    } else if col_of_matches(bs, loc as int, j) {
                        lemma_unit_member(bs, 1, j);
                        assert(self.grid()[unit_cell(bs, 1, col as int, slot_of(bs, 1, j))]
                            != num);
                    } else {
                        lemma_unit_member(bs, 2, j);
                        assert(self.grid()[unit_cell(bs, 2, b as int, slot_of(bs, 2, j))]
                            != num);
                    }
                }
            } else {
                lemma_unit_member(bs, 0, loc as int);
                lemma_unit_member(bs, 1, loc as int);
                if in_row {
                    let k = choose|k: int|
                        0 <= k < grid_width(bs) && self.grid()[#[trigger] unit_cell(
                            bs,
                            0,
                            row as int,
                            k,
                        )] == num;
                    lemma_unit_cells_see(bs, 0, row as int, slot_of(bs, 0, loc as int), k);
                    assert(!legal_at(bs, self.grid(), loc as int, num)) by {
                        lemma_unit_cell_props(bs, 0, row as int, k);
                    }
                } else if in_col {
                    let k = choose|k: int|
                        0 <= k < grid_width(bs) && self.grid()[#[trigger] unit_cell(
                            bs,
                            1,
                            col as int,
                            k,
                        )] == num;
                    lemma_unit_cells_see(bs, 1, col as int, slot_of(bs, 1, loc as int), k);
                    assert(!legal_at(bs, self.grid(), loc as int, num)) by {
                        lemma_unit_cell_props(bs, 1, col as int, k);
                    }
                } else {
                    let k = choose|k: int|
                        0 <= k < grid_width(bs) && self.grid()[#[trigger] unit_cell(
                            bs,
                            2,
                            b as int,
                            k,
                        )] == num;
                    lemma_unit_cells_see(bs, 2, b as int, slot_of(bs, 2, loc as int), k);
                    assert(!legal_at(bs, self.grid(), loc as int, num)) by {
                        lemma_unit_cell_props(bs, 2, b as int, k);
                    }
                }
            }
        }
        r
    }

    /// Whether placing `num` in row `x`, column `y` would break no constraint.
    pub(crate) fn legal_xy(&self, x: usize, y: usize, num: u8) -> (r: bool)
        requires
            self.wf(),
            x < grid_width(self.bs()),
            y < grid_width(self.bs()),
        ensures
            r == legal_at(self.bs(), self.grid(), x * grid_width(self.bs()) + y, num),
    {
        proof {
            lemma_rc_index(self.bs(), x as int, y as int);
            lemma_grid_bounds(self.bs());
        }
        self.legal(x * self.width + y, num)
    }
}

/// The two cells lie in the same row.
spec fn row_of_matches(bs: int, i: int, j: int) -> bool {
    unit_of(bs, 0, i) == unit_of(bs, 0, j)
}

/// The two cells lie in the same column.
spec fn col_of_matches(bs: int, i: int, j: int) -> bool {
    unit_of(bs, 1, i) == unit_of(bs, 1, j)
}

/// Every value of the sequence is empty or in range for the width.
pub open spec fn values_in_range(bs: int, vals: Seq<u8>) -> bool {
    forall|i: int| 0 <= i < vals.len() ==> #[trigger] vals[i] <= grid_width(bs)
}

/// A value vector from which a grid can be built: supported size, exact
/// length, values in range, and no conflict among the assigned cells.
pub open spec fn construct_ok(bs: int, vals: Seq<u8>) -> bool {
    &&& size_ok(bs)
    &&& vals.len() == grid_cells(bs)
    &&& values_in_range(bs, vals)
    &&& consistent(bs, vals)
}

impl Board {
    /// Whether some other cell that the cell at `loc` sees holds the same
    /// value as the cell at `loc`.
    pub(crate) fn cell_conflicts(&self, loc: usize) -> (r: bool)
        requires
            self.wf(),
            loc < grid_cells(self.bs()),
        ensures
            r <==> exists|j: int|
                0 <= j < self.grid().len() && j != loc && sees(self.bs(), loc as int, j)
                    && #[trigger] self.grid()[j] == self.grid()[loc as int],
    {
        let ghost bs = self.bs();
        let ghost s = self.grid();
        proof {
            lemma_grid_bounds(bs);
            lemma_flat_decomp(grid_width(bs), loc as int);
        }
        let v = self.cells[loc];
        let w = self.width;
        let bsz = self.box_size;
        let row = loc / w;
        let col = loc % w;
        proof {
            lemma_flat_decomp(bsz as int, row as int);
            lemma_flat_decomp(bsz as int, col as int);
            lemma_small_coords(bsz as int, (row / bsz) as int, (col / bsz) as int);
            lemma_small_coords(bsz as int, (row % bsz) as int, (col % bsz) as int);
        }
        let b = (row / bsz) * bsz + col / bsz;
        let bslot = (row % bsz) * bsz + col % bsz;
        proof {
            lemma_unit_member(bs, 0, loc as int);
            lemma_unit_member(bs, 1, loc as int);
            lemma_unit_member(bs, 2, loc as int);
            assert(row == unit_of(bs, 0, loc as int) && col == slot_of(bs, 0, loc as int));
            assert(col == unit_of(bs, 1, loc as int) && row == slot_of(bs, 1, loc as int));
            assert(b == unit_of(bs, 2, loc as int) && bslot == slot_of(bs, 2, loc as int));
        }
        let in_row = self.unit_other_has_value(0, row, col, v);
        let in_col = self.unit_other_has_value(1, col, row, v);
        let in_box = self.unit_other_has_value(2, b, bslot, v);
        let r = in_row || in_col || in_box;
        proof {
            if r {
                let kind = if in_row {
                    0int
                } else if in_col {
                    1int
                } else {
                    2int
                };
                let g = unit_of(bs, kind, loc as int);
                let myslot = slot_of(bs, kind, loc as int);
                let k = choose|k: int|
                    0 <= k < grid_width(bs) && k != myslot && s[#[trigger] unit_cell(
                        bs,
                        kind,
                        g,
                        k,
                    )] == v;
                lemma_unit_cell_props(bs, kind, g, k);
                lemma_unit_cells_see(bs, kind, g, myslot, k);
                let j = unit_cell(bs, kind, g, k);
                assert(j != loc && sees(bs, loc as int, j) && s[j] == v);
            } else {
                assert forall|j: int|
                    0 <= j < s.len() && j != loc && sees(bs, loc as int, j)
                    implies #[trigger] s[j] != v by {
                    if row_of_matches(bs, loc as int, j) {
                        lemma_unit_member(bs, 0, j);
                        assert(s[unit_cell(bs, 0, row as int, slot_of(bs, 0, j))] != v);
                    } else if col_of_matches(bs, loc as int, j) {
                        lemma_unit_member(bs, 1, j);
                        assert(s[unit_cell(bs, 1, col as int, slot_of(bs, 1, j))] != v);
                    } else {
                        lemma_unit_member(bs, 2, j);
                        assert(s[unit_cell(bs, 2, b as int, slot_of(bs, 2, j))] != v);
                    }
                }
            }
        }
        r
    }

    /// Whether some cell of the given unit other than slot `skip` holds the
    /// value `num`.
    pub(crate) fn unit_other_has_value(&self, kind: usize, g: usize, skip: usize, num: u8) -> (r:
        bool)
        requires
            self.wf(),
            kind < unit_kinds(),
            g < grid_width(self.bs()),
        ensures
            r <==> exists|k: int|
                0 <= k < grid_width(self.bs()) && k != skip && self.grid()[#[trigger] unit_cell(
                    self.bs(),
                    kind as int,
                    g as int,
                    k,
                )] == num,
    {
        let w = self.width;
        let mut k: usize = 0;
        while k < w
            invariant
                self.wf(),
                kind < unit_kinds(),
                g < grid_width(self.bs()),
                w == grid_width(self.bs()),
                k <= w,
                forall|kk: int|
                    0 <= kk < k && kk != skip ==> self.grid()[#[trigger] unit_cell(
                        self.bs(),
                        kind as int,
                        g as int,
                        kk,
                    )] != num,
            decreases w - k,
        {
            if k != skip {
                let loc = self.unit_loc(kind, g, k);
                if self.cells[loc] == num {
                    return true;
                }
            }
            k += 1;
        }
        false
    }

    /// Whether the assigned cells already violate a row, column, or box
    /// constraint.  This is the validator: it runs at construction, before
    /// any propagation or search.
    pub(crate) fn current_state_invalid(&self) -> (r: bool)
        requires
            self.wf(),
        ensures
            r == !consistent(self.bs(), self.grid()),
    {
        let ghost bs = self.bs();
        let ghost s = self.grid();
        let n = self.cells.len();
        let mut loc: usize = 0;
        while loc < n
            invariant
                self.wf(),
                n == grid_cells(bs),
                bs == self.bs(),
                s == self.grid(),
                loc <= n,
                forall|i: int, j: int|
                    0 <= i < loc && 0 <= j < s.len() && i != j && sees(bs, i, j)
                        && #[trigger] s[i] != 0 ==> s[i] != #[trigger] s[j],
            decreases n - loc,
        {
            if self.cells[loc] != 0 {
                if self.cell_conflicts(loc) {
                    proof {
                        let j = choose|j: int|
                            0 <= j < s.len() && j != loc && sees(bs, loc as int, j)
                                && #[trigger] s[j] == s[loc as int];
                        assert(!consistent(bs, s)) by {
                            if consistent(bs, s) {
                                assert(s[loc as int] != s[j]);
                            }
                        }
                    }
                    return true;
                }
            }
            loc += 1;
        }
        false
    }

    /// Build a grid of the given box size directly from a vector of cell
    /// values (`0` = empty), validating range and consistency.
    pub fn construct(box_size: usize, values: Vec<u8>) -> (r: Result<Board, ValidationError>)
        ensures
            r is Ok <==> construct_ok(box_size as int, values@),
            r is Ok ==> ({
                let b = r->Ok_0;
                &&& b.wf()
                &&& b.bs() == box_size
                &&& b.grid() == values@
            }),
            r == Err::<Board, ValidationError>(ValidationError::UnsupportedBoxSize) <==> !size_ok(
                box_size as int,
            ),
            r == Err::<Board, ValidationError>(ValidationError::WrongLength) <==> size_ok(
                box_size as int,
            ) && values@.len() != grid_cells(box_size as int),
            r == Err::<Board, ValidationError>(ValidationError::ValueOutOfRange) <==> size_ok(
                box_size as int,
            ) && values@.len() == grid_cells(box_size as int) && !values_in_range(
                box_size as int,
                values@,
            ),
            r == Err::<Board, ValidationError>(ValidationError::InconsistentBoard) <==> size_ok(
                box_size as int,
            ) && values@.len() == grid_cells(box_size as int) && values_in_range(
                box_size as int,
                values@,
            ) && !consistent(box_size as int, values@),
    {
        let ghost bs = box_size as int;
        if box_size < 1 || box_size > 15 {
            proof {
                if box_size > 15 {
                    assert(grid_width(bs) > 255) by (nonlinear_arith)
                        requires bs >= 16;
                }
            }
            return Err(ValidationError::UnsupportedBoxSize);
        }
        proof {
            assert(grid_width(bs) <= 255) by (nonlinear_arith)
                requires 1 <= bs <= 15;
            lemma_grid_bounds(bs);
        }
        let w = box_size * box_size;
        let n = w * w;
        if values.len() != n {
            return Err(ValidationError::WrongLength);
        }
        let mut i: usize = 0;
        while i < n
            invariant
                bs == box_size as int,
                size_ok(bs),
                w == grid_width(bs),
                n == grid_cells(bs),
                values@.len() == n,
                i <= n,
                forall|k: int| 0 <= k < i ==> #[trigger] values@[k] <= grid_width(bs),
            decreases n - i,
        {
            if values[i] > w as u8 {
                assert(!values_in_range(bs, values@));
                return Err(ValidationError::ValueOutOfRange);
            }
            i += 1;
        }
        let b = Board { box_size, width: w, cells: values };
        if b.current_state_invalid() {
            Err(ValidationError::InconsistentBoard)
        } else {
            Ok(b)
        }
    }
}

/// ASCII code of the gap token `-`.
pub const GAP_DASH: u8 = 45;

/// ASCII code of the gap token `.`.
pub const GAP_DOT: u8 = 46;

/// ASCII code of the digit `0`.
pub const DIGIT_ZERO: u8 = 48;

/// ASCII code of the digit `1`.
pub const DIGIT_ONE: u8 = 49;

/// ASCII code of the digit `9`.
pub const DIGIT_NINE: u8 = 57;

/// ASCII code of the letter `A`.
pub const LETTER_A: u8 = 65;

/// ASCII code of the letter `Z`.
pub const LETTER_Z: u8 = 90;

/// The cell value encoded by one token byte: `-` and `.` mean empty, the
/// digits `1` to `9` mean themselves, `0` means ten, and letters `A` to `Z`
/// mean eleven to thirty-six.  Any other byte encodes nothing (`-1`).
pub open spec fn sym_value(b: u8) -> int {
    if b == GAP_DASH || b == GAP_DOT {
        0
    } else if DIGIT_ONE <= b <= DIGIT_NINE {
        b - DIGIT_ZERO
    } else if b == DIGIT_ZERO {
        10
    } else if LETTER_A <= b <= LETTER_Z {
        b - LETTER_A + 11
    } else {
        -1
    }
}

/// The byte is a valid token for a grid of the given box size.
pub open spec fn byte_ok(bs: int, b: u8) -> bool {
    0 <= sym_value(b) <= grid_width(bs)
}

/// All bytes of the token string are valid tokens.
pub open spec fn all_bytes_ok(bs: int, bytes: Seq<u8>) -> bool {
    forall|i: int| 0 <= i < bytes.len() ==> byte_ok(bs, #[trigger] bytes[i])
}

/// Position `i` holds the first invalid token byte of the string.
pub open spec fn first_bad_at(bs: int, bytes: Seq<u8>, i: int) -> bool {
    &&& 0 <= i < bytes.len()
    &&& !byte_ok(bs, bytes[i])
    &&& forall|k: int| 0 <= k < i ==> byte_ok(bs, #[trigger] bytes[k])
}

/// The first invalid token byte stands at one position only.
proof fn lemma_first_bad_unique(bs: int, bytes: Seq<u8>, j: int)
    requires
        first_bad_at(bs, bytes, j),
    ensures
        forall|i: int| #[trigger] first_bad_at(bs, bytes, i) ==> i == j,
{
    assert forall|i: int| #[trigger] first_bad_at(bs, bytes, i) implies i == j by {
        if i < j {
            assert(byte_ok(bs, bytes[i]));
        } else if i > j {
            assert(byte_ok(bs, bytes[j]));
        }
    }
}

/// The cells encoded by a token string: decoded values first, row-major,
/// the rest of the grid empty.
pub open spec fn decoded_cells(bs: int, bytes: Seq<u8>) -> Seq<u8> {
    Seq::new(
        grid_cells(bs) as nat,
        |i: int|
            if i < bytes.len() {
                sym_value(bytes[i]) as u8
            } else {
                0
            },
    )
}

/// The value encoded by one token byte, or `-1` for a byte that encodes
/// nothing.
fn symbol_value(b: u8) -> (r: i16)
    ensures
        r as int == sym_value(b),
{
    if b == GAP_DASH || b == GAP_DOT {
        0
    } else if DIGIT_ONE <= b && b <= DIGIT_NINE {
        (b - DIGIT_ZERO) as i16
    } else if b == DIGIT_ZERO {
        10
    } else if LETTER_A <= b && b <= LETTER_Z {
        (b - LETTER_A) as i16 + 11
    } else {
        -1
    }
}

impl Board {
    /// Build a grid of the given box size from a token string: one byte per
    /// cell, row-major; `-` or `.` marks an empty cell, and a string shorter
    /// than the grid leaves the remaining cells empty.
    pub fn from_str(box_size: usize, text: &str) -> (r: Result<Board, ValidationError>)
        ensures
            from_str_spec(box_size as int, r, text.spec_bytes()),
    {
        Self::from_bytes(box_size, text.as_bytes())
    }

    /// Build a grid of the given box size from token bytes.
    pub fn from_bytes(box_size: usize, bytes: &[u8]) -> (r: Result<Board, ValidationError>)
        ensures
            from_str_spec(box_size as int, r, bytes@),
    {
        let ghost bs = box_size as int;
        if box_size < 1 || box_size > 15 {
            proof {
                if box_size > 15 {
                    assert(grid_width(bs) > 255) by (nonlinear_arith)
                        requires bs >= 16;
                }
            }
            return Err(ValidationError::UnsupportedBoxSize);
        }
        proof {
            assert(grid_width(bs) <= 255) by (nonlinear_arith)
                requires 1 <= bs <= 15;
            lemma_grid_bounds(bs);
        }
        let w = box_size * box_size;
        let n = w * w;
        let m = bytes.len();
        if m > n {
            return Err(ValidationError::WrongLength);
        }
        let mut cells: Vec<u8> = Vec::new();
        let mut i: usize = 0;
        while i < n
            invariant
                i <= n,
                cells@.len() == i,
                forall|k: int| 0 <= k < i ==> #[trigger] cells@[k] == 0,
            decreases n - i,
        {
            cells.push(0);
            i += 1;
        }
        let mut j: usize = 0;
        while j < m
            invariant
                bs == box_size as int,
                size_ok(bs),
                w == grid_width(bs),
                n == grid_cells(bs),
                m == bytes@.len() <= n,
                cells@.len() == n,
                j <= m,
                forall|k: int| 0 <= k < j ==> byte_ok(bs, #[trigger] bytes@[k]),
                forall|k: int|
                    0 <= k < j ==> #[trigger] cells@[k] == sym_value(bytes@[k]) as u8,
                forall|k: int| j <= k < n ==> #[trigger] cells@[k] == 0,
            decreases m - j,
        {
            let sv = symbol_value(bytes[j]);
            if sv < 0 {
                proof {
                    assert(first_bad_at(bs, bytes@, j as int));
                    lemma_first_bad_unique(bs, bytes@, j as int);
                }
                return Err(ValidationError::IllegalSymbol(bytes[j]));
            }
            if sv > w as i16 {
                proof {
                    assert(first_bad_at(bs, bytes@, j as int));
                    lemma_first_bad_unique(bs, bytes@, j as int);
                }
                return Err(ValidationError::SymbolOutOfRange(bytes[j]));
            }
            cells.set(j, sv as u8);
            j += 1;
        }
        proof {
            assert(cells@ =~= decoded_cells(bs, bytes@));
        }
        let b = Board { box_size, width: w, cells };
        if b.current_state_invalid() {
            Err(ValidationError::InconsistentBoard)
        } else {
            Ok(b)
        }
    }
}

/// Everything `from_str` promises, over the token bytes of the input.
/// The outcome is pinned for every input: success is returned exactly on a
/// supported box size, a string no longer than the grid, valid tokens, and a
/// conflict-free decoded position; otherwise the clauses name the error.
pub open spec fn from_str_spec(bs: int, r: Result<Board, ValidationError>, bytes: Seq<u8>) -> bool {
    &&& (r is Ok <==> size_ok(bs) && bytes.len() <= grid_cells(bs) && all_bytes_ok(bs, bytes)
        && consistent(bs, decoded_cells(bs, bytes)))
    &&& (r is Ok ==> ({
        let b = r->Ok_0;
        &&& b.wf()
        &&& b.bs() == bs
        &&& b.grid() == decoded_cells(bs, bytes)
    }))
    &&& (r == Err::<Board, ValidationError>(ValidationError::UnsupportedBoxSize) <==> !size_ok(bs))
    &&& (r == Err::<Board, ValidationError>(ValidationError::WrongLength) <==> size_ok(bs)
        && bytes.len() > grid_cells(bs))
    &&& (forall|i: int|
        size_ok(bs) && bytes.len() <= grid_cells(bs) && #[trigger] first_bad_at(bs, bytes, i)
            ==> r == (if sym_value(bytes[i]) < 0 {
            Err::<Board, ValidationError>(ValidationError::IllegalSymbol(bytes[i]))
        } else {
            Err::<Board, ValidationError>(ValidationError::SymbolOutOfRange(bytes[i]))
        }))
    &&& (r == Err::<Board, ValidationError>(ValidationError::InconsistentBoard) <==> size_ok(bs)
        && bytes.len() <= grid_cells(bs) && all_bytes_ok(bs, bytes) && !consistent(
        bs,
        decoded_cells(bs, bytes),
    ))
}

/// A read-only pass over all cells of a grid, row-major.
pub struct GlobalIterator<'a> {
    pub(crate) board: &'a Board,
    pub(crate) pos: usize,
}

impl<'a> GlobalIterator<'a> {
    /// The grid being walked.
    pub open(crate) spec fn src(&self) -> Board {
        *self.board
    }

    /// How many cells have been handed out so far.
    pub open(crate) spec fn at(&self) -> int {
        self.pos as int
    }

    /// The iterator points into a well-formed grid and has not run past it.
    pub open(crate) spec fn wf(&self) -> bool {
        &&& self.board.wf()
        &&& self.pos <= grid_cells(self.board.bs())
    }

    /// The next cell value, row-major, or `None` after the last cell.
    pub fn next(&mut self) -> (r: Option<u8>)
        requires
            old(self).wf(),
        ensures
            final(self).wf(),
            final(self).src() == old(self).src(),
            old(self).at() < grid_cells(old(self).src().bs()) ==> r == Some(
                old(self).src().grid()[old(self).at()],
            ) && final(self).at() == old(self).at() + 1,
            old(self).at() >= grid_cells(old(self).src().bs()) ==> r is None && final(self).at()
                == old(self).at(),
    {
        if self.pos < self.board.cells.len() {
            let v = self.board.cells[self.pos];
            self.pos += 1;
            Some(v)
        } else {
            None
        }
    }
}

impl Board {
    /// A fresh pass over all cells, row-major.
    pub fn iter(&self) -> (r: GlobalIterator)
        requires
            self.wf(),
        ensures
            r.src() == *self,
            r.at() == 0,
            r.wf(),
    {
        GlobalIterator { board: self, pos: 0 }
    }
}

} // verus!
