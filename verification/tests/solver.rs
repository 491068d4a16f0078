use sudoku::Board;
use sudoku::ValidationError;

/// A complete, valid width-9 grid (rows are cyclic shifts of `1..9`).
const CANONICAL: &str = "123456789456789123789123456234567891567891234891234567345678912678912345912345678";

/// The canonical grid with its main diagonal removed: every missing cell is
/// forced by its row, so the unique solution is the canonical grid itself.
fn canonical_with_diagonal_removed() -> String {
    let mut s: Vec<u8> = CANONICAL.bytes().collect();
    for i in 0..9 {
        s[i * 9 + i] = b'-';
    }
    String::from_utf8(s).unwrap()
}

/// Check that every row, column, and box of a solved board holds each value
/// `1..=width` exactly once.
fn assert_latin(b: &Board) {
    let w = b.width();
    let bs = b.box_size();
    for v in 1..=(w as u8) {
        for g in 0..w {
            let mut in_row = 0;
            let mut in_col = 0;
            let mut in_box = 0;
            for k in 0..w {
                if b.get(g * w + k) == v {
                    in_row += 1;
                }
                if b.get(k * w + g) == v {
                    in_col += 1;
                }
                let r = (g / bs) * bs + k / bs;
                let c = (g % bs) * bs + k % bs;
                if b.get(r * w + c) == v {
                    in_box += 1;
                }
            }
            assert_eq!(in_row, 1, "value {v} not exactly once in row {g}");
            assert_eq!(in_col, 1, "value {v} not exactly once in column {g}");
            assert_eq!(in_box, 1, "value {v} not exactly once in box {g}");
        }
    }
}

/// Check that no two distinct assigned cells sharing a row, column, or box
/// hold the same value.
fn assert_consistent(b: &Board) {
    let w = b.width();
    let bs = b.box_size();
    for i in 0..w * w {
        for j in 0..w * w {
            if i == j {
                continue;
            }
            let (ri, ci) = (i / w, i % w);
            let (rj, cj) = (j / w, j % w);
            let shared = ri == rj || ci == cj || (ri / bs == rj / bs && ci / bs == cj / bs);
            if shared && b.get(i) != 0 {
                assert_ne!(b.get(i), b.get(j), "cells {i} and {j} conflict");
            }
        }
    }
}

#[test]
fn scenario_one_full_row() {
    let mut text = String::from("123456789");
    for _ in 0..72 {
        text.push('-');
    }
    let mut b = Board::from_str(3, &text).unwrap();
    assert!(b.solve());
    assert_latin(&b);
    for c in 0..9 {
        assert_eq!(b.get(c), (c + 1) as u8);
    }
}

#[test]
fn scenario_small_grid() {
    let mut b = Board::from_str(2, "1-------------4-").unwrap();
    assert!(b.solve());
    assert_latin(&b);
    assert_eq!(b.get(0), 1);
    assert_eq!(b.get(14), 4);
}

#[test]
fn scenario_repeated_value_in_row() {
    let mut text = String::from("5---5----");
    for _ in 0..72 {
        text.push('-');
    }
    let r = Board::from_str(3, &text);
    assert_eq!(r.unwrap_err(), ValidationError::InconsistentBoard);
}

#[test]
fn scenario_unique_solution_matches_exactly() {
    let text = canonical_with_diagonal_removed();
    let mut b = Board::from_str(3, &text).unwrap();
    assert!(b.solve());
    let expected: Vec<u8> = CANONICAL.bytes().map(|c| c - b'0').collect();
    for i in 0..81 {
        assert_eq!(b.get(i), expected[i], "cell {i} differs from the known solution");
    }
}

#[test]
fn scenario_unsatisfiable_grid() {
    // Row 0 lacks only the value 9 at its last cell, but the 9 placed in the
    // same box makes that cell impossible: no legal completion exists.
    let mut text = String::from("12345678-");
    text.push_str("------9--");
    for _ in 0..63 {
        text.push('-');
    }
    let mut b = Board::from_str(3, &text).unwrap();
    assert!(!b.solve());
    // The grid stays internally legal even though incomplete.
    assert_consistent(&b);
}

#[test]
fn repeated_solves_are_identical() {
    let puzzle = "9.3..42..4.65.......28..........5..4.67.4.92.1..9..........87.......94.3..83..6.1";
    let mut first = Board::from_str(3, puzzle).unwrap();
    assert!(first.solve());
    assert_latin(&first);
    let mut second = Board::from_str(3, puzzle).unwrap();
    assert!(second.solve());
    for i in 0..81 {
        assert_eq!(first.get(i), second.get(i), "solves differ at cell {i}");
    }
}

#[test]
fn preproc_is_idempotent() {
    let text = canonical_with_diagonal_removed();
    let mut b = Board::from_str(3, &text).unwrap();
    b.preproc();
    let snapshot: Vec<u8> = (0..81).map(|i| b.get(i)).collect();
    b.preproc();
    for i in 0..81 {
        assert_eq!(b.get(i), snapshot[i], "second propagation changed cell {i}");
    }
}

#[test]
fn preproc_fills_forced_cells() {
    // Each removed diagonal cell is a naked single; propagation alone must
    // recover the full canonical grid.
    let text = canonical_with_diagonal_removed();
    let mut b = Board::from_str(3, &text).unwrap();
    b.preproc();
    let expected: Vec<u8> = CANONICAL.bytes().map(|c| c - b'0').collect();
    for i in 0..81 {
        assert_eq!(b.get(i), expected[i]);
    }
}

#[test]
fn solve_dfs_alone_solves() {
    let mut b = Board::from_str(2, "1-------------4-").unwrap();
    assert!(b.solve_dfs());
    assert_latin(&b);
}

#[test]
fn solve_already_complete_grid() {
    let mut b = Board::from_str(3, CANONICAL).unwrap();
    assert!(b.solve());
    assert_latin(&b);
}

#[test]
fn most_constrained_prefers_filled_lines() {
    let mut b = Board::from_str(2, "12--------------").unwrap();
    // Cells 2 and 3 lie in the row with two assigned cells; cell 2 wins the
    // tie as the lower index.
    assert_eq!(b.most_constrained(), Some(2));
}

#[test]
fn most_constrained_none_when_full() {
    let mut b = Board::from_str(2, "1234341221434321").unwrap();
    assert_eq!(b.most_constrained(), None);
}

#[test]
fn first_unassigned_finds_lowest_gap() {
    let b = Board::from_str(2, "12--------------").unwrap();
    assert_eq!(b.first_unassigned(), Some(2));
    let full = Board::from_str(2, "1234341221434321").unwrap();
    assert_eq!(full.first_unassigned(), None);
}

#[test]
fn iterator_walks_all_cells() {
    let b = Board::from_str(2, "12--------------").unwrap();
    let mut it = b.iter();
    let mut seen = Vec::new();
    while let Some(v) = it.next() {
        seen.push(v);
    }
    assert_eq!(seen.len(), 16);
    for i in 0..16 {
        assert_eq!(seen[i], b.get(i));
    }
    assert_eq!(it.next(), None);
}

#[test]
fn sixteen_wide_tokens_decode_with_zero_as_sixteen() {
    let b = sudoku::SudokuBoard16::from_string("123456789ABCDEF0").unwrap();
    for c in 0..15 {
        assert_eq!(b.get(c), (c + 1) as u8);
    }
    assert_eq!(b.get(15), 16);
    assert_eq!(b.get(16), 0);
}

#[test]
fn sixteen_wide_grid_solves() {
    let mut b = sudoku::SudokuBoard16::from_string("123456789ABCDEF0").unwrap();
    assert!(b.solve());
    for v in 1..=16u8 {
        for g in 0..16 {
            let mut in_row = 0;
            for k in 0..16 {
                if b.get(g * 16 + k) == v {
                    in_row += 1;
                }
            }
            assert_eq!(in_row, 1);
        }
    }
}

#[test]
fn sixteen_wide_rejects_conflicts_and_bad_tokens() {
    assert_eq!(
        sudoku::SudokuBoard16::from_string("11").unwrap_err(),
        sudoku::ValidationError::InconsistentBoard,
    );
    assert_eq!(
        sudoku::SudokuBoard16::from_string("1.").unwrap_err(),
        sudoku::ValidationError::IllegalSymbol(b'.'),
    );
}

#[test]
fn one_by_one_grid_is_trivial() {
    let mut b = Board::from_str(1, "1").unwrap();
    assert!(b.solve());
    assert_eq!(b.get(0), 1);
    let mut empty = Board::from_str(1, "-").unwrap();
    assert!(empty.solve());
    assert_eq!(empty.get(0), 1);
}

#[test]
fn empty_nine_wide_grid_solves() {
    let text: String = std::iter::repeat('-').take(81).collect();
    let mut b = Board::from_str(3, &text).unwrap();
    assert!(b.solve());
    assert_latin(&b);
}

#[test]
fn largest_supported_box_size_constructs() {
    let b = Board::construct(15, vec![0u8; 225 * 225]).unwrap();
    assert_eq!(b.width(), 225);
    assert_eq!(b.get(0), 0);
    assert_eq!(b.get(225 * 225 - 1), 0);
}

#[test]
fn both_engines_agree_cell_for_cell() {
    // The same sixteen-wide position, once through the parametric engine and
    // once through the fixed 16 x 16 layer, must end byte-identical.
    let mut values = vec![0u8; 256];
    for r in 0..16 {
        for c in 0..16 {
            values[r * 16 + c] = (((r % 4) * 4 + r / 4 + c) % 16 + 1) as u8;
        }
    }
    for d in 0..16 {
        values[d * 16 + d] = 0;
    }
    let mut text = String::new();
    for i in 0..256 {
        text.push(match values[i] {
            0 => '-',
            v @ 1..=9 => (b'0' + v) as char,
            v @ 10..=15 => (b'A' + v - 10) as char,
            _ => '0',
        });
    }
    let mut generic = sudoku::Board::construct(4, values).unwrap();
    let mut sixteen = sudoku::SudokuBoard16::from_string(&text).unwrap();
    assert_eq!(generic.solve(), sixteen.solve());
    for i in 0..256 {
        assert_eq!(generic.get(i), sixteen.get(i), "engines differ at cell {i}");
    }
}
