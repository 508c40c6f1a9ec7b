use vstd::prelude::*;

use crate::board::{belongs_to, is_in_check, moved, piece_color, piece_on, Board, Color, Piece};
use crate::position::{column_of_number, lemma_column_number, Column, Position, PositionError};

verus! {

broadcast use {
    crate::board::lemma_squares_len,
    vstd::seq_lib::lemma_seq_contains_after_push,
    vstd::seq_lib::lemma_seq_concat_contains_all_elements,
};

/// A move as recorded: where the piece came from, where it went, and which piece it was.
#[derive(Debug, Clone, Copy, PartialEq, Eq, Structural)]
pub struct Move {
    pub start: Position,
    pub end: Position,
    pub piece: Piece,
}

pub open spec fn abs(x: int) -> int {
    if x < 0 {
        -x
    } else {
        x
    }
}

pub open spec fn sign(x: int) -> int {
    if x > 0 {
        1
    } else if x < 0 {
        -1
    } else {
        0
    }
}

/// Files from `p` to `q`.
pub open spec fn d_col(p: Position, q: Position) -> int {
    q.col() - p.col()
}

/// Ranks from `p` to `q`.
pub open spec fn d_row(p: Position, q: Position) -> int {
    q.row - p.row
}

/// King-step distance from `p` to `q`.
pub open spec fn distance(p: Position, q: Position) -> int {
    if abs(d_col(p, q)) < abs(d_row(p, q)) {
        abs(d_row(p, q))
    } else {
        abs(d_col(p, q))
    }
}

/// `q` is another square on the rank or the file of `p`.
pub open spec fn straight(p: Position, q: Position) -> bool {
    (d_col(p, q) != 0 || d_row(p, q) != 0) && (d_col(p, q) == 0 || d_row(p, q) == 0)
}

/// `q` is another square on a diagonal of `p`.
pub open spec fn diagonal(p: Position, q: Position) -> bool {
    d_col(p, q) != 0 && abs(d_col(p, q)) == abs(d_row(p, q))
}

/// `q` lies on the ray that leaves `p` in direction (`dc`, `dr`).
pub open spec fn on_ray(p: Position, q: Position, dc: int, dr: int) -> bool {
    (straight(p, q) || diagonal(p, q)) && sign(d_col(p, q)) == dc && sign(d_row(p, q)) == dr
}

/// `s` lies strictly between `p` and `q` on the line that joins them.
pub open spec fn between(p: Position, s: Position, q: Position) -> bool {
    on_ray(p, s, sign(d_col(p, q)), sign(d_row(p, q))) && distance(p, s) < distance(p, q)
}

/// No piece stands strictly between `p` and `q`.
pub open spec fn clear_path(b: Seq<Piece>, p: Position, q: Position) -> bool {
    forall|s: Position| s.valid() && #[trigger] between(p, s, q) ==> piece_on(b, s) == Piece::Empty
}

/// `q` holds no piece of the color of the piece on `p`.
pub open spec fn open_to(b: Seq<Piece>, p: Position, q: Position) -> bool {
    !belongs_to(piece_on(b, q), piece_color(piece_on(b, p)))
}

/// A sliding piece on `p` reaches `q` along the ray (`dc`, `dr`): the way is clear and `q`
/// is empty or holds an enemy piece.
pub open spec fn ray_target(b: Seq<Piece>, p: Position, q: Position, dc: int, dr: int) -> bool {
    q.valid() && on_ray(p, q, dc, dr) && clear_path(b, p, q) && open_to(b, p, q)
}

/// A sliding piece on `p` reaches `q` along its ranks and files (`straight_ok`) or its
/// diagonals (`diagonal_ok`).
pub open spec fn slide_target(
    b: Seq<Piece>,
    p: Position,
    q: Position,
    straight_ok: bool,
    diagonal_ok: bool,
) -> bool {
    &&& q.valid()
    &&& (straight_ok && straight(p, q)) || (diagonal_ok && diagonal(p, q))
    &&& clear_path(b, p, q)
    &&& open_to(b, p, q)
}

/// A pawn on `p` advances to `q`: one rank forward, or two from its starting rank.
pub open spec fn pawn_step(piece: Piece, p: Position, q: Position) -> bool {
    &&& q.valid()
    &&& q.column == p.column
    &&& match piece {
        Piece::WhitePawn => q.row == p.row + 1 || (p.row == 2 && q.row == 4),
        Piece::BlackPawn => q.row == p.row - 1 || (p.row == 7 && q.row == 5),
        _ => false,
    }
}

/// `q` is one of the eight squares around `p`.
pub open spec fn king_step(p: Position, q: Position) -> bool {
    &&& q.valid()
    &&& abs(d_col(p, q)) <= 1
    &&& abs(d_row(p, q)) <= 1
    &&& (d_col(p, q) != 0 || d_row(p, q) != 0)
}

/// `q` is a knight's jump away from `p`.
pub open spec fn knight_jump(p: Position, q: Position) -> bool {
    &&& q.valid()
    &&& (abs(d_col(p, q)) == 1 && abs(d_row(p, q)) == 2) || (abs(d_col(p, q)) == 2 && abs(
        d_row(p, q),
    ) == 1)
}

/// The piece on `p` may go to `q` by its movement pattern, check left aside.
pub open spec fn pseudo_move(b: Seq<Piece>, p: Position, q: Position) -> bool {
    match piece_on(b, p) {
        Piece::WhitePawn | Piece::BlackPawn => pawn_step(piece_on(b, p), p, q),
        Piece::WhiteKing | Piece::BlackKing => king_step(p, q),
        Piece::WhiteKnight | Piece::BlackKnight => knight_jump(p, q),
        Piece::WhiteRook | Piece::BlackRook => slide_target(b, p, q, true, false),
        Piece::WhiteBishop | Piece::BlackBishop => slide_target(b, p, q, false, true),
        Piece::WhiteQueen | Piece::BlackQueen => slide_target(b, p, q, true, true),
        Piece::Empty => false,
    }
}

/// The piece on `p` may move to `q`: by its pattern, onto a square without a piece of its
/// own color, and without leaving its own king in check.
pub open spec fn legal_move(b: Seq<Piece>, p: Position, q: Position) -> bool {
    &&& pseudo_move(b, p, q)
    &&& !is_in_check(moved(b, p, q), piece_color(piece_on(b, p)))
    &&& open_to(b, p, q)
}

/// The square `dc` files and `dr` ranks away from `p`.
pub open spec fn shifted(p: Position, dc: int, dr: int) -> Position {
    Position { column: column_of_number(p.col() + dc), row: (p.row + dr) as u8 }
}

/// Column and row numbers that name a square of the board.
pub open spec fn on_board(column: int, row: int) -> bool {
    1 <= column <= 8 && 1 <= row <= 8
}

/// A valid square is fixed by its file and rank numbers.
proof fn lemma_shifted(p: Position, dc: int, dr: int)
    requires
        p.valid(),
        on_board(p.col() + dc, p.row + dr),
    ensures
        shifted(p, dc, dr).valid(),
        d_col(p, shifted(p, dc, dr)) == dc,
        d_row(p, shifted(p, dc, dr)) == dr,
        forall|x: Position|
            x.valid() ==> ((x == shifted(p, dc, dr)) <==> (d_col(p, x) == dc && d_row(p, x)
                == dr)),
{
    lemma_column_number(p.column, p.col() + dc);
    assert forall|x: Position|
        x.valid() && d_col(p, x) == dc && d_row(p, x) == dr implies x == shifted(p, dc, dr) by {
        lemma_column_number(x.column, p.col() + dc);
    }
}

/// Every square has file and rank numbers 1 to 8.
proof fn lemma_coords(x: Position)
    requires
        x.valid(),
    ensures
        on_board(x.col(), x.row as int),
        0 <= x.index_of() < 64,
{
    lemma_column_number(x.column, 1);
}

/// Adding an element that is not there yet keeps a sequence free of duplicates.
proof fn lemma_push_no_dup(s: Seq<Position>, x: Position)
    requires
        s.no_duplicates(),
        !s.contains(x),
    ensures
        s.push(x).no_duplicates(),
{
    let t = s.push(x);
    assert forall|i: int, j: int| 0 <= i < t.len() && 0 <= j < t.len() && i != j implies t[i]
        != t[j] by {
        if i == s.len() {
            assert(s.contains(s[j]));
        } else if j == s.len() {
            assert(s.contains(s[i]));
        }
    }
}

/// Concatenating two duplicate-free sequences with no common element gives a duplicate-free one.
proof fn lemma_no_dup_append(a: Seq<Position>, b: Seq<Position>)
    requires
        a.no_duplicates(),
        b.no_duplicates(),
        forall|x: Position| a.contains(x) ==> !b.contains(x),
    ensures
        (a + b).no_duplicates(),
{
    let c = a + b;
    assert forall|i: int, j: int| 0 <= i < c.len() && 0 <= j < c.len() && i != j implies c[i]
        != c[j] by {
        if i < a.len() && j >= a.len() {
            assert(a.contains(c[i]));
            assert(b.contains(c[j]));
        } else if j < a.len() && i >= a.len() {
            assert(a.contains(c[j]));
            assert(b.contains(c[i]));
        }
    }
}

/// Appends `more` to `moves`, where the two share no square.
fn extend_moves(moves: &mut Vec<Position>, more: Vec<Position>)
    requires
        old(moves)@.no_duplicates(),
        more@.no_duplicates(),
        forall|x: Position| old(moves)@.contains(x) ==> !more@.contains(x),
    ensures
        final(moves)@ == old(moves)@ + more@,
        final(moves)@.no_duplicates(),
        forall|x: Position|
            final(moves)@.contains(x) <==> (old(moves)@.contains(x) || more@.contains(x)),
{
    proof {
        lemma_no_dup_append(moves@, more@);
    }
    let ghost before = moves@;
    let ghost added = more@;
    let mut more = more;
    moves.append(&mut more);
    proof {
        assert forall|x: Position| moves@.contains(x) implies (before.contains(x)
            || added.contains(x)) by {
            let i = choose|i: int| 0 <= i < moves@.len() && moves@[i] == x;
            if i >= before.len() {
                assert(added[i - before.len()] == x);
            }
        }
        assert forall|x: Position| added.contains(x) implies moves@.contains(x) by {
            let i = choose|i: int| 0 <= i < added.len() && added[i] == x;
            assert(moves@[before.len() + i] == x);
        }
        assert forall|x: Position| before.contains(x) implies moves@.contains(x) by {
            let i = choose|i: int| 0 <= i < before.len() && before[i] == x;
            assert(moves@[i] == x);
        }
    }
}

/// Adds to `moves` the square `dc` files and `dr` ranks away from `position`, if it is on
/// the board.
fn push_step(moves: &mut Vec<Position>, position: Position, dc: i8, dr: i8)
    requires
        position.valid(),
        old(moves)@.no_duplicates(),
        forall|x: Position|
            old(moves)@.contains(x) ==> !(d_col(position, x) == dc && d_row(position, x) == dr),
    ensures
        final(moves)@.no_duplicates(),
        forall|x: Position|
            final(moves)@.contains(x) <==> (old(moves)@.contains(x) || (x.valid() && d_col(
                position,
                x,
            ) == dc && d_row(position, x) == dr)),
{
    if let Ok(q) = Board::offset_in_bounds(position, dc, dr) {
        proof {
            lemma_shifted(position, dc as int, dr as int);
        }
        moves.push(q);
    } else {
        proof {
            assert forall|x: Position| x.valid() implies !(d_col(position, x) == dc && d_row(
                position,
                x,
            ) == dr) by {
                lemma_coords(x);
            }
        }
    }
}

/// Signed step of length `k` in direction `d`.
pub open spec fn step(d: int, k: int) -> int {
    if d > 0 {
        k
    } else if d < 0 {
        -k
    } else {
        0
    }
}

/// A direction of the eight rays: each component -1, 0 or 1, not both 0.
pub open spec fn is_direction(dc: int, dr: int) -> bool {
    -1 <= dc <= 1 && -1 <= dr <= 1 && (dc != 0 || dr != 0)
}

/// The square at distance `k` on a ray is `k` steps along the ray's direction.
proof fn lemma_ray_square(p: Position, x: Position, dc: int, dr: int, k: int)
    requires
        is_direction(dc, dr),
        k >= 1,
    ensures
        (on_ray(p, x, dc, dr) && distance(p, x) == k) <==> (d_col(p, x) == step(dc, k) && d_row(
            p,
            x,
        ) == step(dr, k)),
{
}

/// Rays run straight: when the square `k` steps out is off the board, so is every square
/// further out.
proof fn lemma_ray_leaves_board(p: Position, x: Position, dc: int, dr: int, k: int)
    requires
        p.valid(),
        x.valid(),
        is_direction(dc, dr),
        k >= 1,
        !on_board(p.col() + step(dc, k), p.row + step(dr, k)),
        on_ray(p, x, dc, dr),
    ensures
        distance(p, x) < k,
{
    lemma_coords(p);
    lemma_coords(x);
}

/// The path to a square of a ray is clear when every square of the ray nearer than `k` is empty.
proof fn lemma_clear_up_to(b: Seq<Piece>, p: Position, x: Position, dc: int, dr: int, k: int)
    requires
        is_direction(dc, dr),
        on_ray(p, x, dc, dr),
        distance(p, x) <= k,
        forall|y: Position|
            y.valid() && on_ray(p, y, dc, dr) && distance(p, y) < k ==> piece_on(b, y)
                == Piece::Empty,
    ensures
        clear_path(b, p, x),
{
    assert forall|s: Position| s.valid() && #[trigger] between(p, s, x) implies piece_on(b, s)
        == Piece::Empty by {
        assert(on_ray(p, s, dc, dr));
        assert(distance(p, s) < k);
    }
}

/// Two valid squares at the same distance on one ray are the same square.
proof fn lemma_ray_unique(p: Position, x: Position, y: Position, dc: int, dr: int)
    requires
        is_direction(dc, dr),
        x.valid(),
        y.valid(),
        on_ray(p, x, dc, dr),
        on_ray(p, y, dc, dr),
        distance(p, x) == distance(p, y),
    ensures
        x == y,
{
    lemma_ray_square(p, x, dc, dr, distance(p, x));
    lemma_ray_square(p, y, dc, dr, distance(p, x));
    lemma_column_number(x.column, 1);
    lemma_column_number(y.column, 1);
}

/// `moves` holds exactly the squares of the ray nearer than `k`.
#[verifier::opaque]
spec fn ray_prefix(moves: Seq<Position>, p: Position, dc: int, dr: int, k: int) -> bool {
    &&& moves.no_duplicates()
    &&& forall|x: Position|
        moves.contains(x) <==> (x.valid() && on_ray(p, x, dc, dr) && distance(p, x) < k)
}

/// Every square of the ray nearer than `k` is empty.
#[verifier::opaque]
spec fn ray_empty(b: Seq<Piece>, p: Position, dc: int, dr: int, k: int) -> bool {
    forall|x: Position|
        x.valid() && on_ray(p, x, dc, dr) && distance(p, x) < k ==> piece_on(b, x) == Piece::Empty
}

/// Moving one empty square further along the ray.
proof fn lemma_ray_extend(
    b: Seq<Piece>,
    moves: Seq<Position>,
    p: Position,
    q: Position,
    dc: int,
    dr: int,
    k: int,
)
    requires
        is_direction(dc, dr),
        k >= 1,
        q.valid(),
        on_ray(p, q, dc, dr),
        distance(p, q) == k,
        piece_on(b, q) == Piece::Empty,
        ray_prefix(moves, p, dc, dr, k),
        ray_empty(b, p, dc, dr, k),
    ensures
        ray_prefix(moves.push(q), p, dc, dr, k + 1),
        ray_empty(b, p, dc, dr, k + 1),
{
    reveal(ray_prefix);
    reveal(ray_empty);
    assert(!moves.contains(q));
    assert forall|x: Position|
        moves.push(q).contains(x) <==> (x.valid() && on_ray(p, x, dc, dr) && distance(p, x) < k
            + 1) by {
        assert(moves.contains(x) <==> (x.valid() && on_ray(p, x, dc, dr) && distance(p, x) < k));
        if x.valid() && on_ray(p, x, dc, dr) && distance(p, x) == k {
            lemma_ray_unique(p, x, q, dc, dr);
        }
    }
    lemma_push_no_dup(moves, q);
    assert forall|x: Position|
        x.valid() && on_ray(p, x, dc, dr) && distance(p, x) < k + 1 implies piece_on(b, x)
        == Piece::Empty by {
        if distance(p, x) == k {
            lemma_ray_unique(p, x, q, dc, dr);
        }
    }
}

/// The ray ends at the edge of the board: the squares nearer than `k` are all it reaches.
proof fn lemma_ray_off_board(
    b: Seq<Piece>,
    moves: Seq<Position>,
    p: Position,
    dc: int,
    dr: int,
    k: int,
)
    requires
        p.valid(),
        is_direction(dc, dr),
        k >= 1,
        !on_board(p.col() + step(dc, k), p.row + step(dr, k)),
        ray_prefix(moves, p, dc, dr, k),
        ray_empty(b, p, dc, dr, k),
    ensures
        moves.no_duplicates(),
        forall|x: Position| moves.contains(x) <==> ray_target(b, p, x, dc, dr),
{
    reveal(ray_prefix);
    reveal(ray_empty);
    assert forall|x: Position| moves.contains(x) <==> ray_target(b, p, x, dc, dr) by {
        if x.valid() && on_ray(p, x, dc, dr) {
            lemma_ray_leaves_board(p, x, dc, dr, k);
            lemma_clear_up_to(b, p, x, dc, dr, k);
        }
    }
}

/// The ray ends at the piece on `q`, at distance `k`: the squares nearer than `k`, and `q`
/// itself when it holds an enemy piece, are all it reaches.
proof fn lemma_ray_blocked(
    b: Seq<Piece>,
    moves: Seq<Position>,
    p: Position,
    q: Position,
    dc: int,
    dr: int,
    k: int,
)
    requires
        is_direction(dc, dr),
        k >= 1,
        q.valid(),
        on_ray(p, q, dc, dr),
        distance(p, q) == k,
        piece_on(b, q) != Piece::Empty,
        ray_prefix(moves, p, dc, dr, k),
        ray_empty(b, p, dc, dr, k),
    ensures
        open_to(b, p, q) ==> moves.push(q).no_duplicates(),
        open_to(b, p, q) ==> forall|x: Position|
            moves.push(q).contains(x) <==> ray_target(b, p, x, dc, dr),
        !open_to(b, p, q) ==> moves.no_duplicates(),
        !open_to(b, p, q) ==> forall|x: Position|
            moves.contains(x) <==> ray_target(b, p, x, dc, dr),
{
    reveal(ray_prefix);
    reveal(ray_empty);
    let r = if open_to(b, p, q) {
        moves.push(q)
    } else {
        moves
    };
    assert(!moves.contains(q));
    assert forall|x: Position| r.contains(x) <==> ray_target(b, p, x, dc, dr) by {
        if x.valid() && on_ray(p, x, dc, dr) {
            if distance(p, x) > k {
                assert(between(p, q, x));
            } else {
                lemma_clear_up_to(b, p, x, dc, dr, k);
                if distance(p, x) == k {
                    lemma_ray_unique(p, x, q, dc, dr);
                }
            }
        }
    }
    lemma_push_no_dup(moves, q);
}

/// Filtering keeps exactly the elements that pass, and introduces no duplicates.
proof fn lemma_filter_keeps(s: Seq<Position>, pred: spec_fn(Position) -> bool)
    ensures
        forall|x: Position| s.filter(pred).contains(x) <==> (s.contains(x) && pred(x)),
        s.no_duplicates() ==> s.filter(pred).no_duplicates(),
    decreases s.len(),
{
    reveal(Seq::filter);
    if s.len() > 0 {
        let rest = s.drop_last();
        lemma_filter_keeps(rest, pred);
        assert(s =~= rest.push(s.last()));
        if s.no_duplicates() {
            assert(rest.no_duplicates());
            assert(!rest.contains(s.last())) by {
                if rest.contains(s.last()) {
                    let j = choose|j: int| 0 <= j < rest.len() && rest[j] == s.last();
                    assert(s[j] == s[s.len() - 1]);
                }
            }
            if pred(s.last()) {
                lemma_push_no_dup(rest.filter(pred), s.last());
            }
        }
    }
}

impl Board {
    /// The square with column number `column` and rank `row`, if both lie in 1..=8.
    pub fn position_in_bounds(column: i8, row: i8) -> (r: Result<Position, PositionError>)
        ensures
            on_board(column as int, row as int) ==> r == Ok::<Position, PositionError>(
                Position { column: column_of_number(column as int), row: row as u8 },
            ),
            !on_board(column as int, row as int) ==> r == Err::<Position, PositionError>(
                PositionError::OffBoard,
            ),
    {
        if column > 0 && column <= 8 && row > 0 && row <= 8 {
            match Column::from_number(column) {
                Ok(c) => Ok(Position::new(c, row as u8)),
                Err(_) => Err(PositionError::OffBoard),
            }
        } else {
            Err(PositionError::OffBoard)
        }
    }

    /// The square `column_offset` files and `row_offset` ranks away from `position`, if it
    /// is on the board.
    pub fn offset_in_bounds(position: Position, column_offset: i8, row_offset: i8) -> (r: Result<
        Position,
        PositionError,
    >)
        requires
            position.valid(),
        ensures
            on_board(position.col() + column_offset, position.row + row_offset) ==> r == Ok::<
                Position,
                PositionError,
            >(shifted(position, column_offset as int, row_offset as int)),
            !on_board(position.col() + column_offset, position.row + row_offset) ==> r == Err::<
                Position,
                PositionError,
            >(PositionError::OffBoard),
    {
        let row = position.row as i16 + row_offset as i16;
        let column = position.column.number() as i16 + column_offset as i16;
        if column < 1 || column > 8 || row < 1 || row > 8 {
            return Err(PositionError::OffBoard);
        }
        Board::position_in_bounds(column as i8, row as i8)
    }

    fn pawn_moves(&self, position: Position, piece: Piece) -> (r: Vec<Position>)
        requires
            position.valid(),
            piece == Piece::WhitePawn || piece == Piece::BlackPawn,
        ensures
            r@.no_duplicates(),
            forall|q: Position| r@.contains(q) <==> pawn_step(piece, position, q),
    {
        let mut moves: Vec<Position> = Vec::new();
        if piece == Piece::WhitePawn {
            if position.row < 8 {
                moves.push(Position::new(position.column, position.row + 1));
            }
            if position.row == 2 {
                moves.push(Position::new(position.column, 4));
            }
        } else {
            if position.row > 1 {
                moves.push(Position::new(position.column, position.row - 1));
            }
            if position.row == 7 {
                moves.push(Position::new(position.column, 5));
            }
        }
        proof {
            assert forall|q: Position| moves@.contains(q) <==> pawn_step(piece, position, q) by {
                if pawn_step(piece, position, q) {
                    assert(q == Position { column: position.column, row: q.row });
                }
            }
        }
        moves
    }

    fn king_moves(&self, position: Position) -> (r: Vec<Position>)
        requires
            position.valid(),
        ensures
            r@.no_duplicates(),
            forall|q: Position| r@.contains(q) <==> king_step(position, q),
    {
        let mut moves: Vec<Position> = Vec::new();
        let mut i: i8 = -1;
        while i <= 1
            invariant
                position.valid(),
                -1 <= i <= 2,
                moves@.no_duplicates(),
                forall|q: Position|
                    moves@.contains(q) <==> (king_step(position, q) && d_col(position, q) < i),
            decreases 2 - i,
        {
            let mut j: i8 = -1;
            while j <= 1
                invariant
                    position.valid(),
                    -1 <= i <= 1,
                    -1 <= j <= 2,
                    moves@.no_duplicates(),
                    forall|q: Position|
                        moves@.contains(q) <==> (king_step(position, q) && (d_col(position, q) < i
                            || (d_col(position, q) == i && d_row(position, q) < j))),
                decreases 2 - j,
            {
                let ghost before = moves@;
                if i != 0 || j != 0 {
                    push_step(&mut moves, position, i, j);
                }
                proof {
                    assert forall|q: Position|
                        moves@.contains(q) <==> (king_step(position, q) && (d_col(position, q) < i
                            || (d_col(position, q) == i && d_row(position, q) < j + 1))) by {
                        if d_col(position, q) == i && d_row(position, q) == j {
                            assert(before.contains(q) == false);
                        }
                    }
                }
                j += 1;
            }
            i += 1;
        }
        moves
    }

    fn knight_moves(&self, position: Position) -> (r: Vec<Position>)
        requires
            position.valid(),
        ensures
            r@.no_duplicates(),
            forall|q: Position| r@.contains(q) <==> knight_jump(position, q),
    {
        let mut moves: Vec<Position> = Vec::new();
        let mut i: i8 = -2;
        while i <= 2
            invariant
                position.valid(),
                -2 <= i <= 3,
                moves@.no_duplicates(),
                forall|q: Position|
                    moves@.contains(q) <==> (knight_jump(position, q) && d_col(position, q) < i),
            decreases 3 - i,
        {
            let mut j: i8 = -2;
            while j <= 2
                invariant
                    position.valid(),
                    -2 <= i <= 2,
                    -2 <= j <= 3,
                    moves@.no_duplicates(),
                    forall|q: Position|
                        moves@.contains(q) <==> (knight_jump(position, q) && (d_col(position, q)
                            < i || (d_col(position, q) == i && d_row(position, q) < j))),
                decreases 3 - j,
            {
                let long_file = i == 2 || i == -2;
                let long_rank = j == 2 || j == -2;
                let ghost before = moves@;
                if i != 0 && j != 0 && long_file != long_rank {
                    push_step(&mut moves, position, i, j);
                }
                proof {
                    assert forall|q: Position|
                        moves@.contains(q) <==> (knight_jump(position, q) && (d_col(position, q)
                            < i || (d_col(position, q) == i && d_row(position, q) < j + 1))) by {
                        if d_col(position, q) == i && d_row(position, q) == j {
                            assert(before.contains(q) == false);
                        }
                    }
                }
                j += 1;
            }
            i += 1;
        }
        moves
    }

    /// What a sliding piece on `position` reaches along one ray: every empty square up to
    /// the first piece, and that piece's square when it is an enemy.
    fn projection_moves(&self, position: Position, dc: i8, dr: i8) -> (r: Vec<Position>)
        requires
            position.valid(),
            is_direction(dc as int, dr as int),
        ensures
            r@.no_duplicates(),
            forall|q: Position|
                r@.contains(q) <==> ray_target(self.squares(), position, q, dc as int, dr as int),
    {
        let ghost b = self.squares();
        let color = self.piece_at(position).color();
        let mut moves: Vec<Position> = Vec::new();
        proof {
            reveal(ray_prefix);
            reveal(ray_empty);
        }
        let mut k: i8 = 1;
        while k <= 7
            invariant
                b == self.squares(),
                position.valid(),
                is_direction(dc as int, dr as int),
                1 <= k <= 8,
                color == piece_color(piece_on(b, position)),
                ray_prefix(moves@, position, dc as int, dr as int, k as int),
                ray_empty(b, position, dc as int, dr as int, k as int),
            decreases 8 - k,
        {
            let oc: i8 = if dc > 0 {
                k
            } else if dc < 0 {
                -k
            } else {
                0
            };
            let or: i8 = if dr > 0 {
                k
            } else if dr < 0 {
                -k
            } else {
                0
            };
            match Board::offset_in_bounds(position, oc, or) {
                Err(_) => {
                    proof {
                        lemma_ray_off_board(b, moves@, position, dc as int, dr as int, k as int);
                    }
                    return moves;
                },
                Ok(q) => {
                    proof {
                        lemma_shifted(position, oc as int, or as int);
                        lemma_ray_square(position, q, dc as int, dr as int, k as int);
                    }
                    let piece = self.piece_at(q);
                    if piece == Piece::Empty {
                        proof {
                            lemma_ray_extend(
                                b,
                                moves@,
                                position,
                                q,
                                dc as int,
                                dr as int,
                                k as int,
                            );
                        }
                        moves.push(q);
                        k += 1;
                    } else {
                        proof {
                            lemma_ray_blocked(
                                b,
                                moves@,
                                position,
                                q,
                                dc as int,
                                dr as int,
                                k as int,
                            );
                        }
                        if piece.color() != color {
                            moves.push(q);
                        }
                        return moves;
                    }
                },
            }
        }
        proof {
            lemma_coords(position);
            lemma_ray_off_board(b, moves@, position, dc as int, dr as int, k as int);
        }
        moves
    }

    /// The squares a piece on `position` may go to by its movement pattern, whether or not
    /// the move would leave its own king in check. An empty square has none.
    pub fn moves_for(&self, position: Position) -> (r: Vec<Position>)
        requires
            position.valid(),
        ensures
            r@.no_duplicates(),
            forall|q: Position| r@.contains(q) <==> pseudo_move(self.squares(), position, q),
    {
        let piece = self.piece_at(position);
        match piece {
            Piece::BlackPawn | Piece::WhitePawn => self.pawn_moves(position, piece),
            Piece::BlackKing | Piece::WhiteKing => self.king_moves(position),
            Piece::BlackQueen | Piece::WhiteQueen => self.queen_moves(position),
            Piece::BlackRook | Piece::WhiteRook => self.rook_moves(position),
            Piece::BlackBishop | Piece::WhiteBishop => self.bishop_moves(position),
            Piece::BlackKnight | Piece::WhiteKnight => self.knight_moves(position),
            Piece::Empty => Vec::new(),
        }
    }

    fn queen_moves(&self, position: Position) -> (r: Vec<Position>)
        requires
            position.valid(),
        ensures
            r@.no_duplicates(),
            forall|q: Position|
                r@.contains(q) <==> slide_target(self.squares(), position, q, true, true),
    {
        let mut moves = self.diagonal_moves(position);
        extend_moves(&mut moves, self.columnar_moves(position));
        moves
    }

    fn rook_moves(&self, position: Position) -> (r: Vec<Position>)
        requires
            position.valid(),
        ensures
            r@.no_duplicates(),
            forall|q: Position|
                r@.contains(q) <==> slide_target(self.squares(), position, q, true, false),
    {
        self.columnar_moves(position)
    }

    fn bishop_moves(&self, position: Position) -> (r: Vec<Position>)
        requires
            position.valid(),
        ensures
            r@.no_duplicates(),
            forall|q: Position|
                r@.contains(q) <==> slide_target(self.squares(), position, q, false, true),
    {
        self.diagonal_moves(position)
    }

    /// The four diagonal rays.
    fn diagonal_moves(&self, position: Position) -> (r: Vec<Position>)
        requires
            position.valid(),
        ensures
            r@.no_duplicates(),
            forall|q: Position|
                r@.contains(q) <==> slide_target(self.squares(), position, q, false, true),
    {
        let mut moves = self.projection_moves(position, 1, 1);
        extend_moves(&mut moves, self.projection_moves(position, -1, 1));
        extend_moves(&mut moves, self.projection_moves(position, 1, -1));
        extend_moves(&mut moves, self.projection_moves(position, -1, -1));
        moves
    }

    /// The four rays along the rank and the file.
    fn columnar_moves(&self, position: Position) -> (r: Vec<Position>)
        requires
            position.valid(),
        ensures
            r@.no_duplicates(),
            forall|q: Position|
                r@.contains(q) <==> slide_target(self.squares(), position, q, true, false),
    {
        let mut moves = self.projection_moves(position, 1, 0);
        extend_moves(&mut moves, self.projection_moves(position, -1, 0));
        extend_moves(&mut moves, self.projection_moves(position, 0, 1));
        extend_moves(&mut moves, self.projection_moves(position, 0, -1));
        moves
    }

    /// The moves the piece on `position` may legally make: its pattern's squares, less
    /// those that would leave its own king in check and those held by its own side.
    pub fn filtered_moves_for(&self, position: Position) -> (r: Vec<Position>)
        requires
            position.valid(),
        ensures
            r@.no_duplicates(),
            forall|q: Position| r@.contains(q) <==> legal_move(self.squares(), position, q),
    {
        let ghost b = self.squares();
        let piece = self.piece_at(position);
        let mut moves = self.moves_for(position);
        let ghost pseudo = moves@;
        moves = self.filter_in_check(position, moves, piece.color());
        let ghost safe = moves@;
        moves = self.filter_occupied_space(position, moves, piece.color());
        proof {
            let c = piece_color(piece_on(b, position));
            let not_checked = |q: Position| !is_in_check(moved(b, position, q), c);
            let not_own = |q: Position| !belongs_to(piece_on(b, q), c);
            assert(safe == pseudo.filter(not_checked));
            assert(moves@ == safe.filter(not_own));
            lemma_filter_keeps(pseudo, not_checked);
            lemma_filter_keeps(safe, not_own);
            assert forall|q: Position| moves@.contains(q) <==> legal_move(b, position, q) by {
                assert(moves@.contains(q) <==> (safe.contains(q) && not_own(q)));
                assert(safe.contains(q) <==> (pseudo.contains(q) && not_checked(q)));
            }
        }
        moves
    }

    /// Keeps the squares of `positions` to which moving the piece on `start` leaves the
    /// king of `color` out of check.
    fn filter_in_check(&self, start: Position, positions: Vec<Position>, color: Color) -> (r: Vec<
        Position,
    >)
        requires
            start.valid(),
            forall|q: Position| positions@.contains(q) ==> q.valid(),
        ensures
            r@ == positions@.filter(
                |q: Position| !is_in_check(moved(self.squares(), start, q), color),
            ),
            forall|q: Position| r@.contains(q) ==> q.valid(),
    {
        let ghost pred = |q: Position| !is_in_check(moved(self.squares(), start, q), color);
        let mut moves: Vec<Position> = Vec::new();
        let mut i: usize = 0;
        while i < positions.len()
            invariant
                i <= positions@.len(),
                start.valid(),
                forall|q: Position| positions@.contains(q) ==> q.valid(),
                pred == (|q: Position| !is_in_check(moved(self.squares(), start, q), color)),
                moves@ == positions@.subrange(0, i as int).filter(pred),
            decreases positions@.len() - i,
        {
            let position = positions[i];
            proof {
                assert(positions@.contains(position));
                assert(positions@.subrange(0, i + 1) =~= positions@.subrange(0, i as int).push(
                    position,
                ));
                positions@.subrange(0, i as int).lemma_filter_push(position, pred);
            }
            let board = self.hypothetical_move(start, position);
            if !board.in_check(color) {
                moves.push(position);
            }
            i += 1;
        }
        proof {
            assert(positions@.subrange(0, positions@.len() as int) =~= positions@);
            lemma_filter_keeps(positions@, pred);
        }
        moves
    }

    /// Keeps the squares of `positions` that hold no piece of `color`.
    pub fn filter_occupied_space(
        &self,
        _start: Position,
        positions: Vec<Position>,
        color: Color,
    ) -> (r: Vec<Position>)
        requires
            forall|q: Position| positions@.contains(q) ==> q.valid(),
        ensures
            r@ == positions@.filter(|q: Position| !belongs_to(piece_on(self.squares(), q), color)),
            forall|q: Position| r@.contains(q) ==> q.valid(),
    {
        let ghost pred = |q: Position| !belongs_to(piece_on(self.squares(), q), color);
        let mut moves: Vec<Position> = Vec::new();
        let mut i: usize = 0;
        while i < positions.len()
            invariant
                i <= positions@.len(),
                forall|q: Position| positions@.contains(q) ==> q.valid(),
                pred == (|q: Position| !belongs_to(piece_on(self.squares(), q), color)),
                moves@ == positions@.subrange(0, i as int).filter(pred),
            decreases positions@.len() - i,
        {
            let position = positions[i];
            proof {
                assert(positions@.contains(position));
                assert(positions@.subrange(0, i + 1) =~= positions@.subrange(0, i as int).push(
                    position,
                ));
                positions@.subrange(0, i as int).lemma_filter_push(position, pred);
            }
            let piece = self.piece_at(position);
            if piece == Piece::Empty || piece.color() != color {
                moves.push(position);
            }
            i += 1;
        }
        proof {
            assert(positions@.subrange(0, positions@.len() as int) =~= positions@);
            lemma_filter_keeps(positions@, pred);
        }
        moves
    }
}

} // verus!
