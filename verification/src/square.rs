//! Players, directions and the numbering of the 81 squares.
//!
//! Squares are numbered row by row: `a1` is 0, `i1` is 8, `a2` is 9 and `i9`
//! is 80. The column of a square is its number modulo 9, its row the number
//! divided by 9.

use vstd::prelude::*;

verus! {

/// One of the two players. White moves towards row 0, Black towards row 8.
#[derive(Clone, Copy, Debug, PartialEq, Eq, Structural)]
pub enum Player {
    White,
    Black,
}

impl Player {
    /// The index of the player in per-player arrays: 0 for White, 1 for Black.
    pub open spec fn idx(self) -> int {
        match self {
            Player::White => 0,
            Player::Black => 1,
        }
    }

    /// The opponent, as a specification.
    pub open spec fn opponent(self) -> Player {
        match self {
            Player::White => Player::Black,
            Player::Black => Player::White,
        }
    }

    /// Whether `sq` lies on the row this player has to reach.
    pub open spec fn is_goal(self, sq: int) -> bool {
        match self {
            Player::White => 0 <= sq < 9,
            Player::Black => 72 <= sq < 81,
        }
    }

    /// The opponent.
    pub fn other(&self) -> (r: Player)
        ensures
            r == self.opponent(),
    {
        match self {
            Player::White => Player::Black,
            Player::Black => Player::White,
        }
    }

    /// The index of the player in per-player arrays.
    pub fn index(&self) -> (r: usize)
        ensures
            r == self.idx(),
            r < 2,
    {
        match self {
            Player::White => 0,
            Player::Black => 1,
        }
    }

    /// Whether `sqnum` lies on the row this player has to reach.
    pub fn reaches_goal_at(&self, sqnum: u8) -> (r: bool)
        ensures
            r == self.is_goal(sqnum as int),
    {
        match self {
            Player::White => sqnum < 9,
            Player::Black => sqnum > 71 && sqnum < 81,
        }
    }
}

impl Default for Player {
    /// White, who moves first.
    fn default() -> (r: Player)
        ensures
            r == Player::White,
    {
        Player::White
    }
}

/// One of the four directions a pawn can step in.
#[derive(Clone, Copy, Debug, PartialEq, Eq, Structural)]
pub enum Direction {
    North,
    South,
    East,
    West,
}

impl Direction {
    /// The change of the square number made by one step in this direction.
    pub open spec fn delta(self) -> int {
        match self {
            Direction::North => -9,
            Direction::South => 9,
            Direction::East => 1,
            Direction::West => -1,
        }
    }

    /// The direction a quarter turn counter-clockwise from this one.
    pub open spec fn turned_left(self) -> Direction {
        match self {
            Direction::North => Direction::West,
            Direction::West => Direction::South,
            Direction::South => Direction::East,
            Direction::East => Direction::North,
        }
    }

    /// The direction a quarter turn clockwise from this one.
    pub open spec fn turned_right(self) -> Direction {
        match self {
            Direction::North => Direction::East,
            Direction::East => Direction::South,
            Direction::South => Direction::West,
            Direction::West => Direction::North,
        }
    }

    /// The position of this direction in the fixed order North, South, East, West.
    pub open spec fn rank(self) -> int {
        match self {
            Direction::North => 0,
            Direction::South => 1,
            Direction::East => 2,
            Direction::West => 3,
        }
    }

    /// The direction with the given position in the order North, South, East, West.
    pub open spec fn of_rank(k: int) -> Direction {
        if k == 0 {
            Direction::North
        } else if k == 1 {
            Direction::South
        } else if k == 2 {
            Direction::East
        } else {
            Direction::West
        }
    }

    /// Rotates counter-clockwise.
    pub fn left(&self) -> (r: Direction)
        ensures
            r == self.turned_left(),
    {
        match self {
            Direction::North => Direction::West,
            Direction::South => Direction::East,
            Direction::East => Direction::North,
            Direction::West => Direction::South,
        }
    }

    /// Rotates clockwise.
    pub fn right(&self) -> (r: Direction)
        ensures
            r == self.turned_right(),
    {
        match self {
            Direction::North => Direction::East,
            Direction::South => Direction::West,
            Direction::East => Direction::South,
            Direction::West => Direction::North,
        }
    }

    /// The number of the square one step from `sqnum` in this direction.
    pub fn move_sqnum(&self, sqnum: u8) -> (r: u8)
        requires
            0 <= sqnum + self.delta() <= u8::MAX,
        ensures
            r == sqnum + self.delta(),
    {
        match self {
            Direction::North => sqnum - 9,
            Direction::South => sqnum + 9,
            Direction::East => sqnum + 1,
            Direction::West => sqnum - 1,
        }
    }

    /// The direction at position `k` of the order North, South, East, West.
    pub fn nth(k: u8) -> (r: Direction)
        requires
            k < 4,
        ensures
            r == Direction::of_rank(k as int),
            r.rank() == k,
    {
        if k == 0 {
            Direction::North
        } else if k == 1 {
            Direction::South
        } else if k == 2 {
            Direction::East
        } else {
            Direction::West
        }
    }
}

/// The letter of a column, whatever its case, as a column number; 9 and more
/// for anything that is no column letter.
pub open spec fn column_of(col: char) -> int {
    if 'a' <= col <= 'i' {
        col as int - 'a' as int
    } else if 'A' <= col <= 'I' {
        col as int - 'A' as int
    } else {
        9
    }
}

/// The number of the square in column `col` (a letter from `a` to `i`, in
/// either case) and row `row` (from 1 to 9).
pub fn sqnum_for_coord(col: char, row: u8) -> (r: u8)
    requires
        column_of(col) < 9,
        1 <= row <= 9,
    ensures
        r == (row - 1) * 9 + column_of(col),
        r < 81,
{
    let c: u8 = if 'a' <= col && col <= 'i' {
        (col as u8) - 97
    } else {
        (col as u8) - 65
    };
    (row - 1) * 9 + c
}

/// The text of a square, as a column letter and a row digit.
pub open spec fn square_text(sq: int) -> Seq<char> {
    seq![((sq % 9) + 97) as char, ((sq / 9) + 49) as char]
}

/// Whether `text` names a square: a column letter from `a` to `i`, in either
/// case, and a row digit from `1` to `9`.
pub open spec fn is_square_text(text: Seq<char>) -> bool {
    &&& text.len() == 2
    &&& column_of(text[0]) < 9
    &&& '1' <= text[1] <= '9'
}

/// The number of the square that `text` names.
pub open spec fn square_of_text(text: Seq<char>) -> int {
    (text[1] as int - '1' as int) * 9 + column_of(text[0])
}

/// The number of the square written as a column letter and a row digit.
pub fn sqnum_for_string(string: &str) -> (r: u8)
    requires
        is_square_text(string@),
    ensures
        r == square_of_text(string@),
        r < 81,
{
    let col = string.get_char(0);
    let row = string.get_char(1);
    sqnum_for_coord(col, (row as u8) - 48)
}

/// The column letter and row digit of a square.
pub fn string_for_sqnum(sqnum: u8) -> (r: String)
    ensures
        r@ == square_text(sqnum as int),
{
    let row = sqnum / 9;
    let col = sqnum % 9;
    let mut string = String::new();
    string.push((col + 97) as char);
    string.push((row + 49) as char);
    string
}

/// Writing a square and reading it back gives the square.
pub proof fn lemma_square_text_round_trip(sq: int)
    requires
        0 <= sq < 81,
    ensures
        is_square_text(square_text(sq)),
        square_of_text(square_text(sq)) == sq,
{
}

} // verus!
