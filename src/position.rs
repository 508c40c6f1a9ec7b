use vstd::prelude::*;

verus! {

/// A file of the board, `A` (left of White) to `H`.
#[derive(Debug, Clone, Copy, PartialEq, Eq, PartialOrd, Ord, Structural)]
pub enum Column {
    A,
    B,
    C,
    D,
    E,
    F,
    G,
    H,
}

/// Why a coordinate could not become a square.
#[derive(Debug, Clone, Copy, PartialEq, Eq, Structural)]
pub enum PositionError {
    /// Malformed input: not two characters, an unknown file or rank, or a column number
    /// outside 1..=8.
    InvalidPosition,
    /// Coordinate arithmetic stepped off the board.
    OffBoard,
}

/// The number of a file: `A` is 1, `H` is 8.
pub open spec fn column_number(c: Column) -> int {
    match c {
        Column::A => 1,
        Column::B => 2,
        Column::C => 3,
        Column::D => 4,
        Column::E => 5,
        Column::F => 6,
        Column::G => 7,
        Column::H => 8,
    }
}

/// The file with number `n` (meaningful for `1 <= n <= 8`).
pub open spec fn column_of_number(n: int) -> Column {
    if n <= 1 {
        Column::A
    } else if n == 2 {
        Column::B
    } else if n == 3 {
        Column::C
    } else if n == 4 {
        Column::D
    } else if n == 5 {
        Column::E
    } else if n == 6 {
        Column::F
    } else if n == 7 {
        Column::G
    } else {
        Column::H
    }
}

/// The file named by a lower-case letter `a` to `h`.
pub open spec fn column_of_char(c: char) -> Option<Column> {
    if c == 'a' {
        Some(Column::A)
    } else if c == 'b' {
        Some(Column::B)
    } else if c == 'c' {
        Some(Column::C)
    } else if c == 'd' {
        Some(Column::D)
    } else if c == 'e' {
        Some(Column::E)
    } else if c == 'f' {
        Some(Column::F)
    } else if c == 'g' {
        Some(Column::G)
    } else if c == 'h' {
        Some(Column::H)
    } else {
        None
    }
}

/// The rank named by a digit `1` to `8`.
pub open spec fn rank_of_char(c: char) -> Option<u8> {
    if c == '1' {
        Some(1u8)
    } else if c == '2' {
        Some(2u8)
    } else if c == '3' {
        Some(3u8)
    } else if c == '4' {
        Some(4u8)
    } else if c == '5' {
        Some(5u8)
    } else if c == '6' {
        Some(6u8)
    } else if c == '7' {
        Some(7u8)
    } else if c == '8' {
        Some(8u8)
    } else {
        None
    }
}

/// The square named by a two-character label such as `"e4"`, if it names one.
pub open spec fn algebraic(s: Seq<char>) -> Option<Position> {
    if s.len() == 2 && column_of_char(s[0]) is Some && rank_of_char(s[1]) is Some {
        Some(Position { column: column_of_char(s[0])->0, row: rank_of_char(s[1])->0 })
    } else {
        None
    }
}

/// The square at a linear index: index 0 is `a8`, 7 is `h8`, 63 is `h1`.
pub open spec fn position_at(i: int) -> Position {
    Position { column: column_of_number(i % 8 + 1), row: (8 - i / 8) as u8 }
}

/// A square: a file and a rank.
#[derive(Debug, Clone, Copy, PartialEq, Eq, PartialOrd, Ord, Structural)]
pub struct Position {
    pub column: Column,
    pub row: u8,
}

impl Position {
    /// The square lies on the board: its rank is 1 to 8.
    pub open spec fn valid(self) -> bool {
        1 <= self.row <= 8
    }

    /// The file as a number 1 to 8.
    pub open spec fn col(self) -> int {
        column_number(self.column)
    }

    /// The linear index of the square: rank 8 first, files `A` to `H` within a rank.
    pub open spec fn index_of(self) -> int {
        (8 - self.row) * 8 + (self.col() - 1)
    }

    /// The square on `column` and rank `row`; it lies on the board when `row` is 1 to 8.
    pub fn new(column: Column, row: u8) -> (r: Position)
        ensures
            r.column == column,
            r.row == row,
    {
        Position { column, row }
    }

    /// Reads a label of exactly two characters: a file `a`-`h`, then a rank `1`-`8`.
    pub fn from_algebraic(s: &str) -> (r: Result<Position, PositionError>)
        ensures
            algebraic(s@) is Some ==> r == Ok::<Position, PositionError>(algebraic(s@)->0),
            algebraic(s@) is None ==> r == Err::<Position, PositionError>(
                PositionError::InvalidPosition,
            ),
    {
        if s.unicode_len() != 2 {
            return Err(PositionError::InvalidPosition);
        }
        let column = match Column::from_char(s.get_char(0)) {
            Ok(c) => c,
            Err(e) => return Err(e),
        };
        let row: u8 = match s.get_char(1) {
            '1' => 1,
            '2' => 2,
            '3' => 3,
            '4' => 4,
            '5' => 5,
            '6' => 6,
            '7' => 7,
            '8' => 8,
            _ => return Err(PositionError::InvalidPosition),
        };
        Ok(Position { column, row })
    }

    /// The square with linear index `i`.
    pub fn from_index(i: usize) -> (r: Position)
        requires
            i < 64,
        ensures
            r == position_at(i as int),
            r.valid(),
            r.index_of() == i,
    {
        let column = match i % 8 {
            0 => Column::A,
            1 => Column::B,
            2 => Column::C,
            3 => Column::D,
            4 => Column::E,
            5 => Column::F,
            6 => Column::G,
            _ => Column::H,
        };
        Position { column, row: (8 - i / 8) as u8 }
    }

    /// The square's linear index.
    pub fn to_index(self) -> (r: usize)
        requires
            self.valid(),
        ensures
            r == self.index_of(),
            r < 64,
    {
        let row = (8 - self.row) as usize;
        (row * 8) + self.column.number() as usize - 1
    }
}

impl Column {
    /// Reads a lower-case file letter.
    pub fn from_char(c: char) -> (r: Result<Column, PositionError>)
        ensures
            column_of_char(c) is Some ==> r == Ok::<Column, PositionError>(column_of_char(c)->0),
            column_of_char(c) is None ==> r == Err::<Column, PositionError>(
                PositionError::InvalidPosition,
            ),
    {
        match c {
            'a' => Ok(Column::A),
            'b' => Ok(Column::B),
            'c' => Ok(Column::C),
            'd' => Ok(Column::D),
            'e' => Ok(Column::E),
            'f' => Ok(Column::F),
            'g' => Ok(Column::G),
            'h' => Ok(Column::H),
            _ => Err(PositionError::InvalidPosition),
        }
    }

    /// The file's number, 1 to 8.
    pub fn number(self) -> (r: i8)
        ensures
            r == column_number(self),
            1 <= r <= 8,
    {
        match self {
            Column::A => 1,
            Column::B => 2,
            Column::C => 3,
            Column::D => 4,
            Column::E => 5,
            Column::F => 6,
            Column::G => 7,
            Column::H => 8,
        }
    }

    /// The file with the given number.
    pub fn from_number(n: i8) -> (r: Result<Column, PositionError>)
        ensures
            1 <= n <= 8 ==> r == Ok::<Column, PositionError>(column_of_number(n as int)),
            !(1 <= n <= 8) ==> r == Err::<Column, PositionError>(PositionError::InvalidPosition),
    {
        match n {
            1 => Ok(Column::A),
            2 => Ok(Column::B),
            3 => Ok(Column::C),
            4 => Ok(Column::D),
            5 => Ok(Column::E),
            6 => Ok(Column::F),
            7 => Ok(Column::G),
            8 => Ok(Column::H),
            _ => Err(PositionError::InvalidPosition),
        }
    }
}

/// The file numbering is a bijection between the eight files and 1..=8.
pub proof fn lemma_column_number(c: Column, n: int)
    requires
        1 <= n <= 8,
    ensures
        1 <= column_number(c) <= 8,
        column_of_number(column_number(c)) == c,
        column_number(column_of_number(n)) == n,
{
}

/// Every index 0..=63 names a square, and that square's index is the index itself.
pub proof fn lemma_index_round_trip(i: int)
    requires
        0 <= i < 64,
    ensures
        position_at(i).valid(),
        position_at(i).index_of() == i,
{
}

/// Every square of the board has an index 0..=63, and that index names the square itself.
pub proof fn lemma_position_round_trip(p: Position)
    requires
        p.valid(),
    ensures
        0 <= p.index_of() < 64,
        position_at(p.index_of()) == p,
{
}

} // verus!
