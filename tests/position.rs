use steed::board::Board;
use steed::position::{Column, Position, PositionError};

#[test]
fn string_to_position() {
    let p: Position = Position::from_algebraic("a1").unwrap();
    assert_eq!(p.column, Column::A);
    assert_eq!(p.row, 1);

    let p: Position = Position::from_algebraic("b2").unwrap();
    assert_eq!(p.column, Column::B);
    assert_eq!(p.row, 2);
}

#[test]
fn index_round_trip_for_every_square() {
    for i in 0..64usize {
        let p = Position::from_index(i);
        assert_eq!(p.to_index(), i);
    }
}

#[test]
fn index_corners() {
    assert_eq!(Position::from_index(0), Position::from_algebraic("a8").unwrap());
    assert_eq!(Position::from_index(7), Position::from_algebraic("h8").unwrap());
    assert_eq!(Position::from_index(56), Position::from_algebraic("a1").unwrap());
    assert_eq!(Position::from_index(63), Position::from_algebraic("h1").unwrap());
    assert_eq!(Position::from_algebraic("e4").unwrap().to_index(), 36);
}

#[test]
fn malformed_labels_are_rejected() {
    for s in ["", "a", "a10", "i1", "a9", "a0", "A1", "11", "a1 "] {
        assert_eq!(Position::from_algebraic(s), Err(PositionError::InvalidPosition), "{}", s);
    }
}

#[test]
fn column_numbers() {
    assert_eq!(Column::A.number(), 1);
    assert_eq!(Column::H.number(), 8);
    assert_eq!(Column::from_number(3), Ok(Column::C));
    assert_eq!(Column::from_number(0), Err(PositionError::InvalidPosition));
    assert_eq!(Column::from_number(9), Err(PositionError::InvalidPosition));
    assert_eq!(Column::from_char('g'), Ok(Column::G));
    assert_eq!(Column::from_char('z'), Err(PositionError::InvalidPosition));
}

#[test]
fn offsets_stay_on_the_board() {
    let b4 = Position::from_algebraic("b4").unwrap();
    assert_eq!(Board::offset_in_bounds(b4, 1, 2), Ok(Position::from_algebraic("c6").unwrap()));
    assert_eq!(Board::offset_in_bounds(b4, -1, -3), Ok(Position::from_algebraic("a1").unwrap()));
    assert_eq!(Board::offset_in_bounds(b4, -2, 0), Err(PositionError::OffBoard));
    assert_eq!(Board::offset_in_bounds(b4, 0, 5), Err(PositionError::OffBoard));
    assert_eq!(Board::offset_in_bounds(b4, 127, 127), Err(PositionError::OffBoard));
    assert_eq!(Board::offset_in_bounds(b4, -128, 0), Err(PositionError::OffBoard));
    assert_eq!(Board::position_in_bounds(8, 8), Ok(Position::new(Column::H, 8)));
    assert_eq!(Board::position_in_bounds(0, 4), Err(PositionError::OffBoard));
    assert_eq!(Board::position_in_bounds(4, 9), Err(PositionError::OffBoard));
}
