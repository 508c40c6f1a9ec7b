use vstd::prelude::*;

use crate::movement::{legal_move, pseudo_move, Move};
use crate::position::{position_at, Position};

verus! {

/// What stands on a square: one of the twelve colored pieces, or nothing.
#[derive(Debug, Clone, Copy, PartialEq, Eq, Structural)]
pub enum Piece {
    WhitePawn,
    WhiteRook,
    WhiteKnight,
    WhiteBishop,
    WhiteKing,
    WhiteQueen,
    BlackPawn,
    BlackRook,
    BlackKnight,
    BlackBishop,
    BlackKing,
    BlackQueen,
    Empty,
}

/// A side.
#[derive(Debug, Clone, Copy, PartialEq, Eq, Structural)]
pub enum Color {
    White,
    Black,
}

/// The color of a piece; `Empty` counts as Black.
pub open spec fn piece_color(p: Piece) -> Color {
    match p {
        Piece::WhitePawn
        | Piece::WhiteRook
        | Piece::WhiteKnight
        | Piece::WhiteBishop
        | Piece::WhiteKing
        | Piece::WhiteQueen => Color::White,
        _ => Color::Black,
    }
}

/// A piece (not `Empty`) of color `c`.
pub open spec fn belongs_to(p: Piece, c: Color) -> bool {
    p != Piece::Empty && piece_color(p) == c
}

/// The king of color `c`.
pub open spec fn is_king_of(p: Piece, c: Color) -> bool {
    (p == Piece::WhiteKing && c == Color::White) || (p == Piece::BlackKing && c == Color::Black)
}

pub open spec fn opponent(c: Color) -> Color {
    match c {
        Color::White => Color::Black,
        Color::Black => Color::White,
    }
}

/// The piece on square `p` of the layout `b` (64 squares in index order).
pub open spec fn piece_on(b: Seq<Piece>, p: Position) -> Piece {
    b[p.index_of()]
}

/// The layout after the piece on `start` is lifted and set down on `end`.
pub open spec fn moved(b: Seq<Piece>, start: Position, end: Position) -> Seq<Piece> {
    b.update(start.index_of(), Piece::Empty).update(end.index_of(), piece_on(b, start))
}

/// The piece standing on square `i` in the opening position.
pub open spec fn opening_piece(i: int) -> Piece {
    if i == 0 || i == 7 {
        Piece::BlackRook
    } else if i == 1 || i == 6 {
        Piece::BlackKnight
    } else if i == 2 || i == 5 {
        Piece::BlackBishop
    } else if i == 3 {
        Piece::BlackQueen
    } else if i == 4 {
        Piece::BlackKing
    } else if 8 <= i < 16 {
        Piece::BlackPawn
    } else if 48 <= i < 56 {
        Piece::WhitePawn
    } else if i == 56 || i == 63 {
        Piece::WhiteRook
    } else if i == 57 || i == 62 {
        Piece::WhiteKnight
    } else if i == 58 || i == 61 {
        Piece::WhiteBishop
    } else if i == 59 {
        Piece::WhiteQueen
    } else if i == 60 {
        Piece::WhiteKing
    } else {
        Piece::Empty
    }
}

/// The number of times `s` appears in `states`.
pub open spec fn occurrences<S>(states: Seq<S>, s: S) -> nat
    decreases states.len(),
{
    if states.len() == 0 {
        0
    } else {
        occurrences(states.drop_last(), s) + (if states.last() == s {
            1nat
        } else {
            0nat
        })
    }
}

/// Square `i` holds the first king of color `c` in index order.
pub open spec fn first_king(b: Seq<Piece>, c: Color, i: int) -> bool {
    &&& 0 <= i < 64
    &&& is_king_of(b[i], c)
    &&& forall|j: int| 0 <= j < i ==> !is_king_of(#[trigger] b[j], c)
}

/// A piece of the side opposing `c` may move to `target` by its movement pattern.
pub open spec fn attacked(b: Seq<Piece>, c: Color, target: Position) -> bool {
    exists|e: int|
        0 <= e < 64 && belongs_to(b[e], opponent(c)) && #[trigger] pseudo_move(
            b,
            position_at(e),
            target,
        )
}

/// The king of color `c` (the first one, if there are several) is attacked. Without a king
/// a side is never in check.
pub open spec fn is_in_check(b: Seq<Piece>, c: Color) -> bool {
    exists|k: int| first_king(b, c, k) && attacked(b, c, position_at(k))
}

/// The piece on `p` has no legal move.
pub open spec fn no_legal_moves(b: Seq<Piece>, p: Position) -> bool {
    forall|q: Position| !#[trigger] legal_move(b, p, q)
}

/// No piece of color `c` has a legal move.
pub open spec fn stuck(b: Seq<Piece>, c: Color) -> bool {
    forall|i: int|
        0 <= i < 64 && belongs_to(#[trigger] b[i], c) ==> no_legal_moves(b, position_at(i))
}

/// Color `c` is in check and has no legal move.
pub open spec fn is_checkmate(b: Seq<Piece>, c: Color) -> bool {
    is_in_check(b, c) && stuck(b, c)
}

/// Color `c` is not in check and has no legal move.
pub open spec fn is_stalemate(b: Seq<Piece>, c: Color) -> bool {
    !is_in_check(b, c) && stuck(b, c)
}

impl Piece {
    pub fn color(self) -> (r: Color)
        ensures
            r == piece_color(self),
    {
        match self {
            Piece::WhitePawn
            | Piece::WhiteRook
            | Piece::WhiteKnight
            | Piece::WhiteBishop
            | Piece::WhiteKing
            | Piece::WhiteQueen => Color::White,
            _ => Color::Black,
        }
    }
}

/// One applied move, with the position it was played from.
#[derive(Debug, Clone, Copy)]
struct Ply {
    mv: Move,
    layout: [Piece; 64],
    to_move: Color,
}

/// A game in progress: 64 squares, the side to move, castling flags (kept, not yet used)
/// and the record of applied moves.
#[derive(Debug)]
pub struct Board {
    layout: [Piece; 64],
    history: Vec<Ply>,
    white_can_castle: bool,
    black_can_castle: bool,
    pub to_move: Color,
}

/// A board's layout always holds 64 squares.
pub broadcast proof fn lemma_squares_len(b: &Board)
    ensures
        #[trigger] b.squares().len() == 64,
{
}

impl Board {
    /// The 64 squares in index order (`a8` first, `h1` last).
    pub closed spec fn squares(&self) -> Seq<Piece> {
        self.layout@
    }

    /// The moves applied so far, oldest first.
    pub closed spec fn moves(&self) -> Seq<Move> {
        self.history@.map_values(|p: Ply| p.mv)
    }

    /// The positions (layout and side to move) from which the recorded moves were played.
    pub closed spec fn earlier_states(&self) -> Seq<(Seq<Piece>, Color)> {
        self.history@.map_values(|p: Ply| (p.layout@, p.to_move))
    }

    /// The castling flags of White and Black.
    pub closed spec fn castling(&self) -> (bool, bool) {
        (self.white_can_castle, self.black_can_castle)
    }

    /// The side to move.
    pub closed spec fn side(&self) -> Color {
        self.to_move
    }

    /// Every position the game has stood in, the current one last.
    pub open spec fn states(&self) -> Seq<(Seq<Piece>, Color)> {
        self.earlier_states().push((self.squares(), self.side()))
    }

    /// Some position has occurred at least three times.
    pub open spec fn repeated_thrice(&self) -> bool {
        exists|i: int|
            0 <= i < self.states().len() && #[trigger] occurrences(
                self.states(),
                self.states()[i],
            ) >= 3
    }

    /// All squares empty, White to move, both castling flags set, nothing recorded.
    pub fn empty() -> (r: Board)
        ensures
            forall|i: int| 0 <= i < 64 ==> r.squares()[i] == Piece::Empty,
            r.side() == Color::White,
            r.castling() == (true, true),
            r.moves().len() == 0,
            r.earlier_states().len() == 0,
    {
        Board::from_layout([Piece::Empty; 64])
    }

    /// A board with the given squares (index order), White to move, both castling flags
    /// set, nothing recorded.
    pub fn from_layout(layout: [Piece; 64]) -> (r: Board)
        ensures
            r.squares() == layout@,
            r.side() == Color::White,
            r.castling() == (true, true),
            r.moves().len() == 0,
            r.earlier_states().len() == 0,
    {
        let r = Board {
            layout,
            history: Vec::new(),
            white_can_castle: true,
            black_can_castle: true,
            to_move: Color::White,
        };
        proof {
            assert(r.moves() =~= Seq::<Move>::empty());
            assert(r.earlier_states() =~= Seq::<(Seq<Piece>, Color)>::empty());
        }
        r
    }

    /// All 64 squares, in index order.
    pub fn enumerate_pieces(&self) -> (r: Vec<(usize, Piece)>)
        ensures
            r@.len() == 64,
            forall|i: int| 0 <= i < 64 ==> #[trigger] r@[i] == (i as usize, self.squares()[i]),
    {
        let mut r: Vec<(usize, Piece)> = Vec::new();
        let mut i: usize = 0;
        while i < 64
            invariant
                i <= 64,
                r@.len() == i,
                forall|j: int| 0 <= j < i ==> #[trigger] r@[j] == (j as usize, self.squares()[j]),
            decreases 64 - i,
        {
            r.push((i, self.layout[i]));
            i += 1;
        }
        r
    }

    pub fn piece_at(&self, position: Position) -> (r: Piece)
        requires
            position.valid(),
        ensures
            r == piece_on(self.squares(), position),
    {
        self.layout[position.to_index()]
    }

    /// Puts `piece` on `position`, replacing whatever stood there.
    pub fn add_piece(&mut self, piece: Piece, position: Position)
        requires
            position.valid(),
        ensures
            final(self).squares() == old(self).squares().update(position.index_of(), piece),
            final(self).side() == old(self).side(),
            final(self).castling() == old(self).castling(),
            final(self).moves() == old(self).moves(),
            final(self).earlier_states() == old(self).earlier_states(),
    {
        let i = position.to_index();
        self.layout[i] = piece;
    }

    /// Applies a move without judging it: the piece on `start` goes to `end`, `start`
    /// becomes empty, the move is recorded and the other side is to move.
    pub fn move_piece(&mut self, start: Position, end: Position)
        requires
            start.valid(),
            end.valid(),
        ensures
            final(self).squares() == moved(old(self).squares(), start, end),
            final(self).side() == opponent(old(self).side()),
            final(self).castling() == old(self).castling(),
            final(self).moves() == old(self).moves().push(
                Move { start, end, piece: piece_on(old(self).squares(), start) },
            ),
            final(self).earlier_states() == old(self).earlier_states().push(
                (old(self).squares(), old(self).side()),
            ),
    {
        let piece = self.piece_at(start);
        let mv = Move { start, end, piece };
        let ply = Ply { mv, layout: self.layout, to_move: self.to_move };
        self.history.push(ply);
        self.add_piece(Piece::Empty, start);
        self.add_piece(piece, end);
        self.alternate_to_move();
        proof {
            assert(self.moves() =~= old(self).moves().push(ply.mv));
            assert(self.earlier_states() =~= old(self).earlier_states().push(
                (old(self).squares(), old(self).side()),
            ));
        }
    }

    fn alternate_to_move(&mut self)
        ensures
            final(self).side() == opponent(old(self).side()),
            final(self).squares() == old(self).squares(),
            final(self).castling() == old(self).castling(),
            final(self).history == old(self).history,
    {
        if self.to_move == Color::Black {
            self.to_move = Color::White;
        } else {
            self.to_move = Color::Black;
        }
    }

    /// The moves applied so far, oldest first.
    pub fn history(&self) -> (r: Vec<Move>)
        ensures
            r@ == self.moves(),
    {
        let mut r: Vec<Move> = Vec::new();
        let mut i: usize = 0;
        while i < self.history.len()
            invariant
                i <= self.history@.len(),
                r@ == self.moves().subrange(0, i as int),
            decreases self.history@.len() - i,
        {
            r.push(self.history[i].mv);
            i += 1;
            proof {
                assert(r@ =~= self.moves().subrange(0, i as int));
            }
        }
        proof {
            assert(r@ =~= self.moves());
        }
        r
    }

    /// The layout of state `k`: a recorded earlier position for `k` below the number of
    /// moves, the current one for `k` equal to it.
    fn state_layout(&self, k: usize) -> (r: &[Piece; 64])
        requires
            k <= self.history@.len(),
        ensures
            r@ == self.states()[k as int].0,
    {
        if k < self.history.len() {
            &self.history[k].layout
        } else {
            &self.layout
        }
    }

    fn state_side(&self, k: usize) -> (r: Color)
        requires
            k <= self.history@.len(),
        ensures
            r == self.states()[k as int].1,
    {
        if k < self.history.len() {
            self.history[k].to_move
        } else {
            self.to_move
        }
    }

    /// States `a` and `b` are the same position.
    fn same_state(&self, a: usize, b: usize) -> (r: bool)
        requires
            a <= self.history@.len(),
            b <= self.history@.len(),
        ensures
            r == (self.states()[a as int] == self.states()[b as int]),
    {
        if self.state_side(a) != self.state_side(b) {
            return false;
        }
        same_layout(self.state_layout(a), self.state_layout(b))
    }

    /// State `i` occurs at least three times among the states of the game.
    fn occurs_thrice(&self, i: usize) -> (r: bool)
        requires
            i <= self.history@.len(),
        ensures
            r == (occurrences(self.states(), self.states()[i as int]) >= 3),
    {
        let n = self.history.len();
        let ghost target = self.states()[i as int];
        let mut count: usize = 0;
        let mut j: usize = 0;
        while j < n
            invariant
                n == self.history@.len(),
                i <= n,
                j <= n,
                self.states().len() == n + 1,
                target == self.states()[i as int],
                count <= 3,
                count == (if occurrences(self.states().subrange(0, j as int), target) < 3 {
                    occurrences(self.states().subrange(0, j as int), target)
                } else {
                    3
                }),
            decreases n - j,
        {
            proof {
                assert(self.states().subrange(0, j + 1).drop_last() =~= self.states().subrange(
                    0,
                    j as int,
                ));
            }
            if self.same_state(j, i) && count < 3 {
                count += 1;
            }
            j += 1;
        }
        proof {
            assert(self.states().drop_last() =~= self.states().subrange(0, n as int));
        }
        if self.same_state(n, i) {
            count >= 2
        } else {
            count >= 3
        }
    }

    /// Some position of the game, the current one included, has occurred three times.
    pub fn threefold_draw(&self) -> (r: bool)
        ensures
            r == self.repeated_thrice(),
    {
        let n = self.history.len();
        let mut i: usize = 0;
        while i < n
            invariant
                n == self.history@.len(),
                i <= n,
                self.states().len() == n + 1,
                forall|k: int|
                    0 <= k < i ==> #[trigger] occurrences(self.states(), self.states()[k]) < 3,
            decreases n - i,
        {
            if self.occurs_thrice(i) {
                return true;
            }
            i += 1;
        }
        self.occurs_thrice(n)
    }

    /// A copy of the board with the piece on `start` moved to `end`; the side to move and
    /// the record stay as they are.
    pub fn hypothetical_move(&self, start: Position, end: Position) -> (r: Board)
        requires
            start.valid(),
            end.valid(),
        ensures
            r.squares() == moved(self.squares(), start, end),
            r.side() == self.side(),
            r.castling() == self.castling(),
            r.moves() == self.moves(),
            r.earlier_states() == self.earlier_states(),
    {
        let mut history: Vec<Ply> = Vec::new();
        let mut i: usize = 0;
        while i < self.history.len()
            invariant
                i <= self.history@.len(),
                history@ == self.history@.subrange(0, i as int),
            decreases self.history@.len() - i,
        {
            history.push(self.history[i]);
            i += 1;
            proof {
                assert(history@ =~= self.history@.subrange(0, i as int));
            }
        }
        proof {
            assert(history@ =~= self.history@);
        }
        let mut board = Board {
            layout: self.layout,
            history,
            white_can_castle: self.white_can_castle,
            black_can_castle: self.black_can_castle,
            to_move: self.to_move,
        };
        let piece = self.piece_at(start);
        board.layout[start.to_index()] = Piece::Empty;
        board.layout[end.to_index()] = piece;
        board
    }

    /// The first square, in index order, that holds the king of color `color`.
    fn find_king(&self, color: Color) -> (r: Option<Position>)
        ensures
            r is None ==> forall|k: int| !first_king(self.squares(), color, k),
            r is Some ==> r->0.valid() && first_king(self.squares(), color, r->0.index_of())
                && r->0 == position_at(r->0.index_of()),
    {
        let mut i: usize = 0;
        while i < 64
            invariant
                i <= 64,
                forall|j: int| 0 <= j < i ==> !is_king_of(#[trigger] self.squares()[j], color),
            decreases 64 - i,
        {
            let piece = self.layout[i];
            if piece.color() == color && (piece == Piece::WhiteKing || piece == Piece::BlackKing) {
                return Some(Position::from_index(i));
            }
            i += 1;
        }
        None
    }

    /// Whether the king of `color` is attacked by a piece of the other side.
    pub fn in_check(&self, color: Color) -> (r: bool)
        ensures
            r == is_in_check(self.squares(), color),
    {
        let ghost b = self.squares();
        match self.find_king(color) {
            None => false,
            Some(king) => {
                proof {
                    assert forall|k: int| #[trigger]
                        first_king(b, color, k) implies k == king.index_of() by {
                        if k < king.index_of() {
                            assert(!is_king_of(b[k], color));
                        } else if k > king.index_of() {
                            assert(!is_king_of(b[king.index_of()], color));
                        }
                    }
                }
                let mut i: usize = 0;
                while i < 64
                    invariant
                        i <= 64,
                        b == self.squares(),
                        king.valid(),
                        first_king(b, color, king.index_of()),
                        king == position_at(king.index_of()),
                        forall|k: int| #[trigger] first_king(b, color, k) ==> k == king.index_of(),
                        forall|e: int|
                            0 <= e < i ==> !(belongs_to(b[e], opponent(color))
                                && #[trigger] pseudo_move(b, position_at(e), king)),
                    decreases 64 - i,
                {
                    let piece = self.layout[i];
                    if piece != Piece::Empty && piece.color() != color {
                        let from = Position::from_index(i);
                        let moves = self.moves_for(from);
                        if listed(&moves, king) {
                            proof {
                                assert(pseudo_move(b, position_at(i as int), king));
                                assert(belongs_to(b[i as int], opponent(color)));
                                assert(attacked(b, color, position_at(king.index_of())));
                                assert(first_king(b, color, king.index_of()));
                                assert(is_in_check(b, color));
                            }
                            return true;
                        }
                    }
                    i += 1;
                }
                false
            },
        }
    }

    /// No piece of `color` has a legal move.
    fn no_moves(&self, color: Color) -> (r: bool)
        ensures
            r == stuck(self.squares(), color),
    {
        let ghost b = self.squares();
        let mut i: usize = 0;
        while i < 64
            invariant
                i <= 64,
                b == self.squares(),
                forall|j: int|
                    0 <= j < i && belongs_to(#[trigger] b[j], color) ==> no_legal_moves(
                        b,
                        position_at(j),
                    ),
            decreases 64 - i,
        {
            let piece = self.layout[i];
            if piece != Piece::Empty && piece.color() == color {
                let from = Position::from_index(i);
                let moves = self.filtered_moves_for(from);
                if moves.len() > 0 {
                    proof {
                        assert(moves@.contains(moves@[0]));
                        assert(legal_move(b, from, moves@[0]));
                    }
                    return false;
                }
                proof {
                    assert forall|q: Position| !#[trigger] legal_move(b, from, q) by {
                        if legal_move(b, from, q) {
                            assert(moves@.contains(q));
                        }
                    }
                }
            }
            i += 1;
        }
        true
    }

    /// The side to move is not in check and has no legal move.
    pub fn stalemate(&self) -> (r: bool)
        ensures
            r == is_stalemate(self.squares(), self.side()),
    {
        if self.in_check(self.to_move) {
            return false;
        }
        self.no_moves(self.to_move)
    }

    /// `color` is in check and has no legal move.
    pub fn checkmate(&self, color: Color) -> (r: bool)
        ensures
            r == is_checkmate(self.squares(), color),
    {
        if !self.in_check(color) {
            return false;
        }
        self.no_moves(color)
    }
}

impl Default for Board {
    /// The opening position, White to move.
    fn default() -> (r: Board)
        ensures
            forall|i: int| 0 <= i < 64 ==> #[trigger] r.squares()[i] == opening_piece(i),
            r.side() == Color::White,
            r.castling() == (true, true),
            r.moves().len() == 0,
            r.earlier_states().len() == 0,
    {
        let layout: [Piece; 64] = [
            Piece::BlackRook,
            Piece::BlackKnight,
            Piece::BlackBishop,
            Piece::BlackQueen,
            Piece::BlackKing,
            Piece::BlackBishop,
            Piece::BlackKnight,
            Piece::BlackRook,
            Piece::BlackPawn,
            Piece::BlackPawn,
            Piece::BlackPawn,
            Piece::BlackPawn,
            Piece::BlackPawn,
            Piece::BlackPawn,
            Piece::BlackPawn,
            Piece::BlackPawn,
            Piece::Empty,
            Piece::Empty,
            Piece::Empty,
            Piece::Empty,
            Piece::Empty,
            Piece::Empty,
            Piece::Empty,
            Piece::Empty,
            Piece::Empty,
            Piece::Empty,
            Piece::Empty,
            Piece::Empty,
            Piece::Empty,
            Piece::Empty,
            Piece::Empty,
            Piece::Empty,
            Piece::Empty,
            Piece::Empty,
            Piece::Empty,
            Piece::Empty,
            Piece::Empty,
            Piece::Empty,
            Piece::Empty,
            Piece::Empty,
            Piece::Empty,
            Piece::Empty,
            Piece::Empty,
            Piece::Empty,
            Piece::Empty,
            Piece::Empty,
            Piece::Empty,
            Piece::Empty,
            Piece::WhitePawn,
            Piece::WhitePawn,
            Piece::WhitePawn,
            Piece::WhitePawn,
            Piece::WhitePawn,
            Piece::WhitePawn,
            Piece::WhitePawn,
            Piece::WhitePawn,
            Piece::WhiteRook,
            Piece::WhiteKnight,
            Piece::WhiteBishop,
            Piece::WhiteQueen,
            Piece::WhiteKing,
            Piece::WhiteBishop,
            Piece::WhiteKnight,
            Piece::WhiteRook,
        ];
        Board::from_layout(layout)
    }
}

impl PartialEq for Board {
    fn eq(&self, other: &Board) -> (r: bool) {
        if self.to_move != other.to_move || self.white_can_castle != other.white_can_castle
            || self.black_can_castle != other.black_can_castle {
            return false;
        }
        if !same_layout(&self.layout, &other.layout) {
            return false;
        }
        if self.history.len() != other.history.len() {
            proof {
                assert(self.moves().len() != other.moves().len());
            }
            return false;
        }
        let mut i: usize = 0;
        while i < self.history.len()
            invariant
                i <= self.history@.len(),
                self.history@.len() == other.history@.len(),
                forall|j: int| 0 <= j < i ==> #[trigger] self.moves()[j] == other.moves()[j],
                forall|j: int|
                    0 <= j < i ==> #[trigger] self.earlier_states()[j]
                        == other.earlier_states()[j],
            decreases self.history@.len() - i,
        {
            let a = &self.history[i];
            let b = &other.history[i];
            if a.mv != b.mv {
                proof {
                    assert(self.moves()[i as int] != other.moves()[i as int]);
                }
                return false;
            }
            if a.to_move != b.to_move || !same_layout(&a.layout, &b.layout) {
                proof {
                    assert(self.earlier_states()[i as int] != other.earlier_states()[i as int]);
                }
                return false;
            }
            i += 1;
        }
        proof {
            assert(self.moves() =~= other.moves());
            assert(self.earlier_states() =~= other.earlier_states());
        }
        true
    }
}

impl vstd::std_specs::cmp::PartialEqSpecImpl for Board {
    open spec fn obeys_eq_spec() -> bool {
        true
    }

    /// Same squares, side to move, castling flags and record of moves.
    open spec fn eq_spec(&self, other: &Board) -> bool {
        &&& self.squares() == other.squares()
        &&& self.side() == other.side()
        &&& self.castling() == other.castling()
        &&& self.moves() == other.moves()
        &&& self.earlier_states() == other.earlier_states()
    }
}

/// The two layouts hold the same piece on every square.
fn same_layout(a: &[Piece; 64], b: &[Piece; 64]) -> (r: bool)
    ensures
        r == (a@ == b@),
{
    let mut i: usize = 0;
    while i < 64
        invariant
            i <= 64,
            forall|j: int| 0 <= j < i ==> a@[j] == b@[j],
        decreases 64 - i,
    {
        if a[i] != b[i] {
            return false;
        }
        i += 1;
    }
    proof {
        assert(a@ =~= b@);
    }
    true
}

/// `p` occurs in `v`.
fn listed(v: &Vec<Position>, p: Position) -> (r: bool)
    ensures
        r == v@.contains(p),
{
    let mut i: usize = 0;
    while i < v.len()
        invariant
            i <= v@.len(),
            forall|j: int| 0 <= j < i ==> v@[j] != p,
        decreases v@.len() - i,
    {
        if v[i] == p {
            return true;
        }
        i += 1;
    }
    false
}

} // verus!
