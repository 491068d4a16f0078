//! The fixed 16 x 16 variant of the grid: a thin layer over the parametric
//! engine with box size 4 and its own token alphabet, in which `-` marks an
//! empty cell, `1` to `9` and `A` to `F` mean one to fifteen, and the digit
//! `0` means sixteen.

use vstd::prelude::*;
use vstd::string::StringSliceAdditionalSpecFns;
use crate::board::{Board, GlobalIterator, ValidationError, DIGIT_NINE, DIGIT_ONE, DIGIT_ZERO,
    GAP_DASH, LETTER_A};
use crate::model::{
    consistent, extends, full, grid_cells, grid_width, is_solution, same_solutions,
};
use crate::propagate::{propagation_fix, propagation_stalled};
use crate::search::{dfs_spec, score, solve_outcome};

verus! {

/// ASCII code of the letter `F`, the highest hexadecimal value token.
pub const LETTER_F: u8 = 70;

/// The cell value encoded by one token byte of the 16 x 16 alphabet, or
/// `-1` for a byte that encodes nothing.
pub open spec fn hex_sym_value(b: u8) -> int {
    if b == GAP_DASH {
        0
    } else if DIGIT_ONE <= b <= DIGIT_NINE {
        b - DIGIT_ZERO
    } else if LETTER_A <= b <= LETTER_F {
        b - LETTER_A + 10
    } else if b == DIGIT_ZERO {
        16
    } else {
        -1
    }
}

/// All bytes of the token string belong to the 16 x 16 alphabet.
pub open spec fn hex_bytes_ok(bytes: Seq<u8>) -> bool {
    forall|i: int| 0 <= i < bytes.len() ==> hex_sym_value(#[trigger] bytes[i]) >= 0
}

/// Position `i` holds the first byte outside the 16 x 16 alphabet.
pub open spec fn hex_first_bad_at(bytes: Seq<u8>, i: int) -> bool {
    &&& 0 <= i < bytes.len()
    &&& hex_sym_value(bytes[i]) < 0
    &&& forall|k: int| 0 <= k < i ==> hex_sym_value(#[trigger] bytes[k]) >= 0
}

/// The cells encoded by a 16 x 16 token string: decoded values first,
/// row-major, the rest of the grid empty.
pub open spec fn hex_decoded_cells(bytes: Seq<u8>) -> Seq<u8> {
    Seq::new(
        256,
        |i: int|
            if i < bytes.len() {
                hex_sym_value(bytes[i]) as u8
            } else {
                0
            },
    )
}

/// A 16 x 16 grid: box size 4, values `1 ..= 16`, `0` marking empty cells.
#[derive(Clone, Debug)]
pub struct SudokuBoard16 {
    pub(crate) inner: Board,
}

impl SudokuBoard16 {
    /// The underlying parametric grid.
    pub open(crate) spec fn board(&self) -> Board {
        self.inner
    }

    /// The cells of the grid, row-major.
    pub open(crate) spec fn grid(&self) -> Seq<u8> {
        self.inner.grid()
    }

    /// Structural invariant: a well-formed grid of box size 4.
    pub open(crate) spec fn wf(&self) -> bool {
        &&& self.inner.wf()
        &&& self.inner.bs() == 4
    }

    /// Build a 16 x 16 grid from a token string: one byte per cell,
    /// row-major; `-` marks an empty cell, and a string shorter than the
    /// grid leaves the remaining cells empty.
    pub fn from_string(text: &str) -> (r: Result<SudokuBoard16, ValidationError>)
        ensures
            r is Ok <==> text.spec_bytes().len() <= 256 && hex_bytes_ok(text.spec_bytes())
                && consistent(4, hex_decoded_cells(text.spec_bytes())),
            r is Ok ==> r->Ok_0.wf() && r->Ok_0.grid() == hex_decoded_cells(text.spec_bytes()),
            r == Err::<SudokuBoard16, ValidationError>(ValidationError::WrongLength) <==> text.spec_bytes().len() > 256,
            r == Err::<SudokuBoard16, ValidationError>(ValidationError::InconsistentBoard)
                <==> text.spec_bytes().len() <= 256 && hex_bytes_ok(text.spec_bytes())
                && !consistent(4, hex_decoded_cells(text.spec_bytes())),
            forall|i: int|
                text.spec_bytes().len() <= 256 && #[trigger] hex_first_bad_at(
                    text.spec_bytes(),
                    i,
                ) ==> r == Err::<SudokuBoard16, ValidationError>(
                    ValidationError::IllegalSymbol(text.spec_bytes()[i]),
                ),
    {
        let bytes = text.as_bytes();
        let m = bytes.len();
        if m > 256 {
            return Err(ValidationError::WrongLength);
        }
        let mut cells: Vec<u8> = Vec::new();
        let mut i: usize = 0;
        while i < 256
            invariant
                i <= 256,
                cells@.len() == i,
                forall|k: int| 0 <= k < i ==> #[trigger] cells@[k] == 0,
            decreases 256 - i,
        {
            cells.push(0);
            i += 1;
        }
        let mut j: usize = 0;
        while j < m
            invariant
                bytes@ == text.spec_bytes(),
                m == bytes@.len() <= 256,
                cells@.len() == 256,
                j <= m,
                forall|k: int| 0 <= k < j ==> hex_sym_value(#[trigger] bytes@[k]) >= 0,
                forall|k: int|
                    0 <= k < j ==> #[trigger] cells@[k] == hex_sym_value(bytes@[k]) as u8,
                forall|k: int| j <= k < 256 ==> #[trigger] cells@[k] == 0,
            decreases m - j,
        {
            let sv = hex_symbol_value(bytes[j]);
            if sv < 0 {
                proof {
                    assert(hex_first_bad_at(bytes@, j as int));
                    assert forall|i: int| #[trigger] hex_first_bad_at(bytes@, i)
                        implies i == j by {
                        if i < j {
                            assert(hex_sym_value(bytes@[i]) >= 0);
                        } else if i > j {
                            assert(hex_sym_value(bytes@[j as int]) >= 0);
                        }
                    }
                }
                return Err(ValidationError::IllegalSymbol(bytes[j]));
            }
            cells.set(j, sv as u8);
            j += 1;
        }
        proof {
            assert(cells@ =~= hex_decoded_cells(bytes@));
        }
        let b = Board { box_size: 4, width: 16, cells };
        proof {
            assert(grid_width(4) == 16);
            assert(grid_cells(4) == 256);
            assert(b.wf());
        }
        if b.current_state_invalid() {
            Err(ValidationError::InconsistentBoard)
        } else {
            Ok(SudokuBoard16 { inner: b })
        }
    }

    /// The value of the cell with flat index `loc`; `0` means empty.
    pub fn get(&self, loc: usize) -> (r: u8)
        requires
            self.wf(),
            loc < 256,
        ensures
            r == self.grid()[loc as int],
    {
        self.inner.get(loc)
    }

    /// Whether the cell with flat index `loc` is empty.
    pub fn is_unassigned(&self, loc: usize) -> (r: bool)
        requires
            self.wf(),
            loc < 256,
        ensures
            r == (self.grid()[loc as int] == 0),
    {
        self.inner.is_unassigned(loc)
    }

    /// Whether the cell in row `x`, column `y` is empty.
    pub fn is_unassigned_xy(&self, x: usize, y: usize) -> (r: bool)
        requires
            self.wf(),
            x < 16,
            y < 16,
        ensures
            r == (self.grid()[x * 16 + y] == 0),
    {
        self.inner.is_unassigned_xy(x, y)
    }

    /// The lowest-index empty cell, or `None` when the grid is full.
    pub fn first_unassigned(&self) -> (r: Option<usize>)
        requires
            self.wf(),
        ensures
            r is None <==> full(self.grid()),
            r is Some ==> ({
                let x = r->Some_0 as int;
                &&& 0 <= x < 256
                &&& self.grid()[x] == 0
                &&& forall|y: int| 0 <= y < x ==> #[trigger] self.grid()[y] != 0
            }),
    {
        self.inner.first_unassigned()
    }

    /// The empty cell with the highest selection score, the lowest-index
    /// one among ties; `None` when the grid is full.
    pub fn most_constrained(&mut self) -> (r: Option<usize>)
        requires
            old(self).wf(),
        ensures
            final(self).wf(),
            final(self).grid() == old(self).grid(),
            r is None <==> full(old(self).grid()),
            r is Some ==> ({
                let x = r->Some_0 as int;
                let s = old(self).grid();
                &&& 0 <= x < 256
                &&& s[x] == 0
                &&& forall|y: int|
                    0 <= y < 256 && s[y] == 0 ==> #[trigger] score(4, s, y) <= score(4, s, x)
                &&& forall|y: int|
                    0 <= y < x && s[y] == 0 ==> #[trigger] score(4, s, y) < score(4, s, x)
            }),
    {
        self.inner.most_constrained()
    }

    /// A fresh pass over all cells, row-major.
    pub fn iter(&self) -> (r: GlobalIterator)
        requires
            self.wf(),
        ensures
            r.src() == self.board(),
            r.at() == 0,
            r.wf(),
    {
        self.inner.iter()
    }

    /// Depth-first backtracking: `true` leaves a complete legal assignment
    /// extending the input in place; `false` restores the grid, and no
    /// complete legal assignment extending it exists.
    pub fn solve_dfs(&mut self) -> (r: bool)
        requires
            old(self).wf(),
            consistent(4, old(self).grid()),
        ensures
            final(self).wf(),
            r <==> dfs_spec(4, old(self).grid()) is Some,
            r ==> final(self).grid() == dfs_spec(4, old(self).grid())->Some_0,
            r ==> is_solution(4, old(self).grid(), final(self).grid()),
            !r ==> final(self).grid() == old(self).grid() && (forall|sol: Seq<u8>|
                !#[trigger] is_solution(4, old(self).grid(), sol)),
    {
        self.inner.solve_dfs()
    }

    /// Run both deduction rules to their joint fixed point, preserving the
    /// solution set of the grid exactly.
    pub fn preproc(&mut self)
        requires
            old(self).wf(),
            consistent(4, old(self).grid()),
        ensures
            final(self).wf(),
            consistent(4, final(self).grid()),
            extends(old(self).grid(), final(self).grid()),
            same_solutions(4, old(self).grid(), final(self).grid()),
            final(self).grid() == propagation_fix(4, old(self).grid()),
            propagation_stalled(4, final(self).grid()),
            propagation_stalled(4, old(self).grid()) ==> final(self).grid() == old(self).grid(),
    {
        self.inner.preproc()
    }

    /// Solve the grid in place: run the propagator, then the search.
    pub fn solve(&mut self) -> (r: bool)
        requires
            old(self).wf(),
            consistent(4, old(self).grid()),
        ensures
            final(self).wf(),
            consistent(4, final(self).grid()),
            extends(old(self).grid(), final(self).grid()),
            r <==> exists|sol: Seq<u8>| #[trigger] is_solution(4, old(self).grid(), sol),
            final(self).grid() == solve_outcome(4, old(self).grid()),
            r ==> is_solution(4, old(self).grid(), final(self).grid()),
            !r ==> (forall|sol: Seq<u8>| !#[trigger] is_solution(4, old(self).grid(), sol)),
    {
        self.inner.solve()
    }
}

/// The value encoded by one token byte of the 16 x 16 alphabet, or `-1`.
fn hex_symbol_value(b: u8) -> (r: i16)
    ensures
        r as int == hex_sym_value(b),
{
    if b == GAP_DASH {
        0
    } else if DIGIT_ONE <= b && b <= DIGIT_NINE {
        (b - DIGIT_ZERO) as i16
    } else if LETTER_A <= b && b <= LETTER_F {
        (b - LETTER_A) as i16 + 10
    } else if b == DIGIT_ZERO {
        16
    } else {
        -1
    }
}

} // verus!
