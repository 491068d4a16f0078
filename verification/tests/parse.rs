use sudoku::Board;
use sudoku::ValidationError;

#[test]
fn digits_decode_to_their_values() {
    let b = Board::from_str(3, "123456789").unwrap();
    for c in 0..9 {
        assert_eq!(b.get(c), (c + 1) as u8);
    }
    for i in 9..81 {
        assert_eq!(b.get(i), 0);
    }
}

#[test]
fn dot_and_dash_both_mean_empty() {
    let b = Board::from_str(3, ".1-2").unwrap();
    assert_eq!(b.get(0), 0);
    assert_eq!(b.get(1), 1);
    assert_eq!(b.get(2), 0);
    assert_eq!(b.get(3), 2);
}

#[test]
fn zero_token_means_ten() {
    let b = Board::from_str(4, "0").unwrap();
    assert_eq!(b.get(0), 10);
}

#[test]
fn letters_decode_beyond_nine() {
    let b = Board::from_str(4, "ABCDEF").unwrap();
    for c in 0..6 {
        assert_eq!(b.get(c), (11 + c) as u8);
    }
}

#[test]
fn short_string_leaves_rest_empty() {
    let b = Board::from_str(2, "1").unwrap();
    assert_eq!(b.get(0), 1);
    for i in 1..16 {
        assert_eq!(b.get(i), 0);
    }
}

#[test]
fn empty_string_gives_empty_grid() {
    let b = Board::from_str(2, "").unwrap();
    for i in 0..16 {
        assert_eq!(b.get(i), 0);
    }
}

#[test]
fn overlong_string_is_rejected() {
    let text: String = std::iter::repeat('-').take(17).collect();
    assert_eq!(Board::from_str(2, &text).unwrap_err(), ValidationError::WrongLength);
}

#[test]
fn illegal_byte_is_reported() {
    assert_eq!(
        Board::from_str(3, "12@4").unwrap_err(),
        ValidationError::IllegalSymbol(b'@'),
    );
}

#[test]
fn first_bad_byte_wins() {
    // The out-of-range token stands before the illegal one.
    assert_eq!(
        Board::from_str(2, "1Z@").unwrap_err(),
        ValidationError::SymbolOutOfRange(b'Z'),
    );
}

#[test]
fn out_of_range_token_is_rejected() {
    assert_eq!(
        Board::from_str(3, "A").unwrap_err(),
        ValidationError::SymbolOutOfRange(b'A'),
    );
}

#[test]
fn silly_box_sizes_are_rejected() {
    assert_eq!(Board::from_str(0, "").unwrap_err(), ValidationError::UnsupportedBoxSize);
    assert_eq!(Board::from_str(16, "").unwrap_err(), ValidationError::UnsupportedBoxSize);
}

#[test]
fn construct_accepts_valid_values() {
    let mut values = vec![0u8; 16];
    values[0] = 1;
    values[15] = 4;
    let b = Board::construct(2, values).unwrap();
    assert_eq!(b.get(0), 1);
    assert_eq!(b.get(15), 4);
    assert_eq!(b.width(), 4);
    assert_eq!(b.box_size(), 2);
}

#[test]
fn construct_rejects_wrong_length() {
    assert_eq!(
        Board::construct(2, vec![0u8; 15]).unwrap_err(),
        ValidationError::WrongLength,
    );
}

#[test]
fn construct_rejects_out_of_range_value() {
    let mut values = vec![0u8; 16];
    values[3] = 5;
    assert_eq!(
        Board::construct(2, values).unwrap_err(),
        ValidationError::ValueOutOfRange,
    );
}

#[test]
fn construct_rejects_column_conflict() {
    let mut values = vec![0u8; 16];
    values[1] = 3;
    values[13] = 3;
    assert_eq!(
        Board::construct(2, values).unwrap_err(),
        ValidationError::InconsistentBoard,
    );
}

#[test]
fn construct_rejects_box_conflict() {
    let mut values = vec![0u8; 16];
    values[0] = 2;
    values[5] = 2;
    assert_eq!(
        Board::construct(2, values).unwrap_err(),
        ValidationError::InconsistentBoard,
    );
}
