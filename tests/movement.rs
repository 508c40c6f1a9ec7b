use steed::board::{Board, Color, Piece};
use steed::position::Position;

fn pos(s: &str) -> Position {
    Position::from_algebraic(s).unwrap()
}

fn expected(squares: &[&str]) -> Vec<Position> {
    let mut moves: Vec<Position> = squares.iter().map(|s| pos(s)).collect();
    moves.sort();
    moves
}

fn legal(board: &Board, at: &str) -> Vec<Position> {
    let mut moves = board.filtered_moves_for(pos(at));
    moves.sort();
    moves
}

fn alone(piece: Piece, at: &str) -> Vec<Position> {
    let mut board = Board::empty();
    board.add_piece(piece, pos(at));
    legal(&board, at)
}

#[test]
fn white_pawn_movement() {
    assert_eq!(alone(Piece::WhitePawn, "a2"), expected(&["a3", "a4"]));
    assert_eq!(alone(Piece::WhitePawn, "a3"), expected(&["a4"]));
    assert_eq!(alone(Piece::WhitePawn, "d2"), expected(&["d3", "d4"]));
    assert_eq!(alone(Piece::WhitePawn, "a8"), expected(&[]));
}

#[test]
fn black_pawn_movement() {
    assert_eq!(alone(Piece::BlackPawn, "a7"), expected(&["a6", "a5"]));
    assert_eq!(alone(Piece::BlackPawn, "a6"), expected(&["a5"]));
    assert_eq!(alone(Piece::BlackPawn, "d7"), expected(&["d6", "d5"]));
    assert_eq!(alone(Piece::BlackPawn, "a1"), expected(&[]));
}

#[test]
fn king_movement() {
    assert_eq!(
        alone(Piece::WhiteKing, "b4"),
        expected(&["a3", "a4", "a5", "b3", "b5", "c3", "c4", "c5"])
    );
    assert_eq!(alone(Piece::BlackKing, "a1"), expected(&["a2", "b1", "b2"]));
}

#[test]
fn queen_movement() {
    assert_eq!(
        alone(Piece::BlackQueen, "d4"),
        expected(&[
            "a1", "a4", "a7", "b2", "b4", "b6", "c3", "c4", "c5", "d1", "d2", "d3", "d5", "d6",
            "d7", "d8", "e3", "e4", "e5", "f2", "f4", "f6", "g1", "g4", "g7", "h4", "h8",
        ])
    );
}

#[test]
fn rook_movement() {
    assert_eq!(
        alone(Piece::BlackRook, "a1"),
        expected(&[
            "a2", "a3", "a4", "a5", "a6", "a7", "a8", "b1", "c1", "d1", "e1", "f1", "g1", "h1",
        ])
    );
}

#[test]
fn knight_movement() {
    assert_eq!(alone(Piece::BlackKnight, "a1"), expected(&["b3", "c2"]));
    assert_eq!(
        alone(Piece::WhiteKnight, "d4"),
        expected(&["e6", "f5", "f3", "e2", "c2", "b3", "b5", "c6"])
    );
}

#[test]
fn bishop_movement() {
    assert_eq!(
        alone(Piece::BlackBishop, "d4"),
        expected(&["a1", "a7", "b2", "b6", "c3", "c5", "e3", "e5", "f2", "f6", "g1", "g7", "h8"])
    );
}

#[test]
fn blank_square() {
    let board = Board::empty();
    let moves: Vec<Position> = [].to_vec();
    assert_eq!(board.filtered_moves_for(pos("a2")), moves);
}

#[test]
fn cant_move_into_check() {
    let mut board = Board::empty();
    board.add_piece(Piece::BlackRook, pos("b8"));
    board.add_piece(Piece::WhiteKing, pos("a1"));
    assert_eq!(legal(&board, "a1"), expected(&["a2"]));

    let mut board = Board::empty();
    board.add_piece(Piece::BlackKing, pos("d4"));
    board.add_piece(Piece::WhiteQueen, pos("c1"));
    board.add_piece(Piece::WhiteBishop, pos("a2"));
    assert_eq!(legal(&board, "d4"), expected(&["d3", "e5", "e4"]));
}

#[test]
fn cant_move_pinned_piece() {
    let mut board = Board::empty();
    board.add_piece(Piece::BlackKing, pos("d4"));
    board.add_piece(Piece::BlackPawn, pos("e4"));
    board.add_piece(Piece::WhiteRook, pos("f4"));

    assert_eq!(legal(&board, "e4"), expected(&[]));
}

#[test]
fn checkmate() {
    let mut board = Board::empty();
    board.add_piece(Piece::WhiteKing, pos("a1"));
    board.add_piece(Piece::BlackKing, pos("b2"));
    board.add_piece(Piece::BlackRook, pos("b8"));

    assert!(board.in_check(Color::White));
    assert_eq!(legal(&board, "a1"), expected(&[]));
    assert!(board.checkmate(Color::White));

    let mut board = Board::empty();
    board.add_piece(Piece::WhiteKing, pos("a1"));
    board.add_piece(Piece::BlackKing, pos("b2"));

    assert!(board.in_check(Color::White));
    assert_eq!(legal(&board, "a1"), expected(&["b2"]));
    assert!(!board.checkmate(Color::White));
}

#[test]
fn stalemate() {
    let mut board = Board::empty();
    board.add_piece(Piece::WhiteKing, pos("a1"));
    board.add_piece(Piece::BlackRook, pos("b8"));
    board.add_piece(Piece::BlackRook, pos("h2"));

    assert!(!board.in_check(Color::White));
    assert_eq!(legal(&board, "a1"), expected(&[]));
    assert!(board.stalemate());

    let mut board = Board::empty();
    board.add_piece(Piece::WhiteKing, pos("a1"));
    board.add_piece(Piece::BlackKing, pos("b2"));

    assert!(board.in_check(Color::White));
    assert_eq!(legal(&board, "a1"), expected(&["b2"]));
    assert!(!board.stalemate());
}

#[test]
fn pieces_block_movement() {
    let mut board = Board::empty();
    board.add_piece(Piece::BlackRook, pos("a8"));
    board.add_piece(Piece::BlackPawn, pos("a7"));
    board.add_piece(Piece::BlackKnight, pos("b8"));

    assert_eq!(legal(&board, "a8"), expected(&[]));

    let mut board = Board::empty();
    board.add_piece(Piece::BlackRook, pos("a8"));
    board.add_piece(Piece::WhitePawn, pos("a7"));
    board.add_piece(Piece::BlackBishop, pos("b8"));

    assert_eq!(legal(&board, "a8"), expected(&["a7"]));

    let mut board = Board::empty();
    board.add_piece(Piece::BlackQueen, pos("d8"));
    board.add_piece(Piece::BlackBishop, pos("c8"));
    board.add_piece(Piece::BlackBishop, pos("e8"));
    board.add_piece(Piece::WhiteBishop, pos("d7"));

    assert_eq!(
        legal(&board, "d8"),
        expected(&["d7", "c7", "b6", "a5", "e7", "f6", "g5", "h4"])
    );

    let mut board = Board::empty();
    board.add_piece(Piece::BlackQueen, pos("d8"));
    board.add_piece(Piece::BlackBishop, pos("c8"));
    board.add_piece(Piece::BlackBishop, pos("e8"));
    board.add_piece(Piece::WhiteBishop, pos("e7"));
    board.add_piece(Piece::BlackPawn, pos("c7"));

    assert_eq!(
        legal(&board, "d8"),
        expected(&["d7", "d6", "d5", "d4", "d3", "d2", "d1", "e7"])
    );

    let mut board = Board::empty();
    board.add_piece(Piece::BlackBishop, pos("c8"));
    board.add_piece(Piece::BlackPawn, pos("b7"));
    board.add_piece(Piece::WhiteBishop, pos("d7"));

    assert_eq!(legal(&board, "c8"), expected(&["d7"]));
}

#[test]
fn must_move_out_of_check() {
    let mut board = Board::empty();
    board.add_piece(Piece::BlackKing, pos("a8"));
    board.add_piece(Piece::WhiteRook, pos("a1"));
    board.add_piece(Piece::BlackPawn, pos("b7"));

    assert_eq!(legal(&board, "b7"), expected(&[]));
    assert_eq!(legal(&board, "a8"), expected(&["b8"]));
}

#[test]
fn opening_pawn_moves() {
    let board = Board::default();
    assert_eq!(legal(&board, "a2"), expected(&["a3", "a4"]));
    let mut board = Board::default();
    board.move_piece(pos("a2"), pos("a3"));
    assert_eq!(legal(&board, "a3"), expected(&["a4"]));
}

#[test]
fn opening_position_pieces() {
    let board = Board::default();
    assert_eq!(legal(&board, "b1"), expected(&["a3", "c3"]));
    assert_eq!(legal(&board, "a1"), expected(&[]));
    assert_eq!(legal(&board, "d1"), expected(&[]));
    assert_eq!(legal(&board, "e8"), expected(&[]));
    assert!(!board.in_check(Color::White));
    assert!(!board.in_check(Color::Black));
    assert!(!board.stalemate());
    assert!(!board.checkmate(Color::White));
}

#[test]
fn pawns_push_into_any_piece_ahead() {
    // pawns have no diagonal captures here; an enemy straight ahead may be taken
    let mut board = Board::empty();
    board.add_piece(Piece::WhitePawn, pos("e2"));
    board.add_piece(Piece::BlackKnight, pos("e3"));
    assert_eq!(legal(&board, "e2"), expected(&["e3", "e4"]));
    board.add_piece(Piece::WhiteKnight, pos("e3"));
    assert_eq!(legal(&board, "e2"), expected(&["e4"]));
}

#[test]
fn pseudo_moves_ignore_check() {
    let mut board = Board::empty();
    board.add_piece(Piece::BlackKing, pos("d4"));
    board.add_piece(Piece::BlackPawn, pos("e4"));
    board.add_piece(Piece::WhiteRook, pos("f4"));
    let mut moves = board.moves_for(pos("e4"));
    moves.sort();
    assert_eq!(moves, expected(&["e3"]));
    assert_eq!(board.moves_for(pos("a1")), Vec::<Position>::new());
}

#[test]
fn occupied_squares_of_one_color_are_dropped() {
    let mut board = Board::empty();
    board.add_piece(Piece::WhitePawn, pos("a2"));
    board.add_piece(Piece::BlackPawn, pos("b2"));
    let kept = board.filter_occupied_space(
        pos("a1"),
        vec![pos("a2"), pos("b2"), pos("c2")],
        Color::White,
    );
    assert_eq!(kept, vec![pos("b2"), pos("c2")]);
    let kept = board.filter_occupied_space(
        pos("a1"),
        vec![pos("a2"), pos("b2"), pos("c2")],
        Color::Black,
    );
    assert_eq!(kept, vec![pos("a2"), pos("c2")]);
}

#[test]
fn king_may_not_take_a_defended_piece() {
    let mut board = Board::empty();
    board.add_piece(Piece::WhiteKing, pos("e1"));
    board.add_piece(Piece::BlackPawn, pos("e2"));
    board.add_piece(Piece::BlackRook, pos("e8"));
    // e2 is guarded along the file once the pawn is gone; d1/f1/d2/f2 stay free
    assert_eq!(legal(&board, "e1"), expected(&["d1", "d2", "f1", "f2"]));
}
