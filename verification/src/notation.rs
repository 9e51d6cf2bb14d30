//! Boards as text: the 73 characters of the TQBN encoding, the grid that is
//! shown to people, and the names of moves.
//!
//! A TQBN text holds, in this order: 64 characters for the wall slots (`h`
//! for a horizontal wall, `v` for a vertical one, `n` for none), one digit
//! for the player to move (`1` for White, `2` for Black), White's square and
//! two digits for White's stock of walls, Black's square and two digits for
//! Black's stock. Letters may be written in either case.

use vstd::prelude::*;
use vstd::string::*;
use crate::bits::{has_bit, lemma_slots_of_zero, slots, with_bit};
use crate::board::Board;
use crate::model::{BoardView, Walls};
use crate::square::{column_of, sqnum_for_coord, square_text, string_for_sqnum, Direction, Player};

verus! {

/// Why a text is no TQBN encoding.
#[derive(Clone, Copy, Debug, PartialEq, Eq, Structural)]
pub enum TqbnError {
    /// The text does not have 73 characters.
    WrongLength,
    /// A wall slot holds something other than `h`, `v` or `n`, or the player
    /// to move is neither `1` nor `2`.
    UnknownCharacter,
    /// A pawn's column is no letter from `a` to `i`, or its row no digit from
    /// `1` to `9`.
    PawnOutOfRange,
    /// A stock of walls is not written as two digits.
    NonNumericWallCount,
}

/// Whether `c` stands for a horizontal wall.
pub open spec fn is_h(c: char) -> bool {
    c == 'h' || c == 'H'
}

/// Whether `c` stands for a vertical wall.
pub open spec fn is_v(c: char) -> bool {
    c == 'v' || c == 'V'
}

/// Whether `c` stands for a free slot.
pub open spec fn is_n(c: char) -> bool {
    c == 'n' || c == 'N'
}

/// Whether `c` is a digit.
pub open spec fn is_digit(c: char) -> bool {
    '0' <= c <= '9'
}

/// Whether `col` and `row` name a square.
pub open spec fn is_coord(col: char, row: char) -> bool {
    column_of(col) < 9 && '1' <= row <= '9'
}

/// The square that `col` and `row` name.
pub open spec fn coord_square(col: char, row: char) -> int {
    (row as int - '1' as int) * 9 + column_of(col)
}

/// The number that two digits write.
pub open spec fn two_digits(tens: char, ones: char) -> int {
    (tens as int - '0' as int) * 10 + (ones as int - '0' as int)
}

/// What is wrong with `text` as a TQBN encoding, if anything. Of several
/// faults the first in this order is named: the length, the wall slots and
/// the player to move, the pawns, the stocks.
pub open spec fn tqbn_error(text: Seq<char>) -> Option<TqbnError> {
    if text.len() != 73 {
        Some(TqbnError::WrongLength)
    } else if exists|i: int| 0 <= i < 64 && !is_h(text[i]) && !is_v(text[i]) && !is_n(text[i]) {
        Some(TqbnError::UnknownCharacter)
    } else if text[64] != '1' && text[64] != '2' {
        Some(TqbnError::UnknownCharacter)
    } else if !is_coord(text[65], text[66]) || !is_coord(text[69], text[70]) {
        Some(TqbnError::PawnOutOfRange)
    } else if !is_digit(text[67]) || !is_digit(text[68]) || !is_digit(text[71]) || !is_digit(
        text[72],
    ) {
        Some(TqbnError::NonNumericWallCount)
    } else {
        None
    }
}

/// The position that a TQBN text encodes.
pub open spec fn tqbn_view(text: Seq<char>) -> BoardView {
    BoardView {
        white: coord_square(text[65], text[66]),
        black: coord_square(text[69], text[70]),
        white_stock: two_digits(text[67], text[68]),
        black_stock: two_digits(text[71], text[72]),
        walls: Walls {
            h: Set::new(|s: int| 0 <= s < 64 && is_h(text[s])),
            v: Set::new(|s: int| 0 <= s < 64 && is_v(text[s])),
        },
        turn: if text[64] == '1' {
            Player::White
        } else {
            Player::Black
        },
        white_route: None,
        black_route: None,
    }
}

/// The character of slot `s` in the TQBN text of a position.
pub open spec fn slot_char(v: BoardView, s: int) -> char {
    if v.walls.h.contains(s) {
        'h'
    } else if v.walls.v.contains(s) {
        'v'
    } else {
        'n'
    }
}

/// The two digits of a number below 100.
pub open spec fn digits_text(n: int) -> Seq<char> {
    seq![(n / 10 + 48) as char, (n % 10 + 48) as char]
}

/// The TQBN text of a position, in lower case.
pub open spec fn tqbn_text(v: BoardView) -> Seq<char> {
    Seq::new(64, |s: int| slot_char(v, s)) + seq![
        if v.turn == Player::White {
            '1'
        } else {
            '2'
        },
    ] + square_text(v.white) + digits_text(v.white_stock) + square_text(v.black) + digits_text(
        v.black_stock,
    )
}

/// Reading the TQBN text of a position in which no slot holds two walls and
/// each stock has at most two digits gives the position back, but for the
/// routes it remembered: the pawns, the walls, the stocks and the player to
/// move are the same.
pub proof fn lemma_tqbn_round_trip(v: BoardView)
    requires
        v.inv(),
        v.walls.h.disjoint(v.walls.v),
        v.white_stock <= 99,
        v.black_stock <= 99,
    ensures
        tqbn_error(tqbn_text(v)) is None,
        tqbn_view(tqbn_text(v)) == v.forgetful(),
{
    let text = tqbn_text(v);
    assert(text.len() == 73);
    assert forall|i: int| 0 <= i < 64 implies text[i] == slot_char(v, i) by {}
    assert(text[64] == (if v.turn == Player::White {
        '1'
    } else {
        '2'
    }));
    assert(text[65] == square_text(v.white)[0]);
    assert(text[66] == square_text(v.white)[1]);
    assert(text[67] == digits_text(v.white_stock)[0]);
    assert(text[68] == digits_text(v.white_stock)[1]);
    assert(text[69] == square_text(v.black)[0]);
    assert(text[70] == square_text(v.black)[1]);
    assert(text[71] == digits_text(v.black_stock)[0]);
    assert(text[72] == digits_text(v.black_stock)[1]);
    let back = tqbn_view(text);
    assert(back.walls.h =~= v.walls.h);
    assert(back.walls.v =~= v.walls.v);
}

/// The mark of a square in the grid: `W` or `B` for a pawn, else a dot.
pub open spec fn square_mark(v: BoardView, sq: int) -> char {
    if v.white == sq {
        'W'
    } else if v.black == sq {
        'B'
    } else {
        '.'
    }
}

/// The first `n` squares of row `row` of the grid, each followed, but for
/// the last of the row, by the edge to its east: ` # ` where a vertical wall
/// closes it, else three blanks.
pub open spec fn squares_text(v: BoardView, row: int, n: int) -> Seq<char>
    decreases n,
{
    if n <= 0 {
        Seq::empty()
    } else {
        let col = n - 1;
        squares_text(v, row, n - 1) + seq![square_mark(v, row * 9 + col)] + (if col == 8 {
            Seq::empty()
        } else if v.walls.east_blocked(row, col) {
            " # "@
        } else {
            "   "@
        })
    }
}

/// The edges south of the first `n` squares of row `row`: for each, two
/// blanks and then `# ` where a horizontal wall closes it, else two more
/// blanks.
pub open spec fn edges_text(v: BoardView, row: int, n: int) -> Seq<char>
    decreases n,
{
    if n <= 0 {
        Seq::empty()
    } else {
        edges_text(v, row, n - 1) + "  "@ + (if v.walls.south_blocked(row, n - 1) {
            "# "@
        } else {
            "  "@
        })
    }
}

/// The first `n` rows of the grid: for each, its number, a blank, its
/// squares and a line end, and below every row but the last the line of the
/// edges to its south.
pub open spec fn rows_text(v: BoardView, n: int) -> Seq<char>
    decreases n,
{
    if n <= 0 {
        Seq::empty()
    } else {
        let row = n - 1;
        rows_text(v, n - 1) + seq![(row + 49) as char, ' '] + squares_text(v, row, 9) + seq!['\n']
            + (if row < 8 {
            edges_text(v, row, 9) + seq!['\n']
        } else {
            Seq::empty()
        })
    }
}

/// The grid of a position: who is to move, the letters of the columns, and
/// the nine rows.
pub open spec fn grid_text(v: BoardView) -> Seq<char> {
    (if v.turn == Player::White {
        "white to move\n"@
    } else {
        "black to move\n"@
    }) + "  a   b   c   d   e   f   g   h   i\n"@ + rows_text(v, 9)
}

/// The lowest slot from `n` on that is in `s`; 64 if there is none.
pub open spec fn first_slot(s: Set<int>, n: int) -> int
    decreases 64 - n,
{
    if n >= 64 {
        64
    } else if s.contains(n) {
        n
    } else {
        first_slot(s, n + 1)
    }
}

/// Whether `child` differs from `parent` as a move would have it: the turn
/// has passed, and the mover's pawn stands elsewhere, or the mover's stock
/// has changed and a slot is newly taken.
pub open spec fn is_move(parent: BoardView, child: BoardView) -> bool {
    let mover = parent.turn;
    &&& child.turn != mover
    &&& {
        ||| child.pawn(mover) != parent.pawn(mover)
        ||| {
            &&& child.stock(mover) != parent.stock(mover)
            &&& (first_slot(child.walls.h.difference(parent.walls.h), 0) < 64 || first_slot(
                child.walls.v.difference(parent.walls.v),
                0,
            ) < 64)
        }
    }
}

/// The name of the move from `parent` to `child`: the square the mover's
/// pawn went to, or, if it stayed, the square north-west of the lowest newly
/// taken slot followed by `h` or `v`, a horizontal wall before a vertical
/// one.
pub open spec fn move_text(parent: BoardView, child: BoardView) -> Seq<char> {
    let mover = parent.turn;
    let h = first_slot(child.walls.h.difference(parent.walls.h), 0);
    let v = first_slot(child.walls.v.difference(parent.walls.v), 0);
    if child.pawn(mover) != parent.pawn(mover) {
        square_text(child.pawn(mover))
    } else if h < 64 {
        square_text(h + h / 8).push('h')
    } else {
        square_text(v + v / 8).push('v')
    }
}

/// The lowest slot that is in `after` and not in `before`; 64 if there is
/// none.
fn first_new_slot(before: u64, after: u64) -> (r: u8)
    ensures
        r == first_slot(slots(after).difference(slots(before)), 0),
        r <= 64,
{
    let mut i: u8 = 0;
    let ghost fresh = slots(after).difference(slots(before));
    while i < 64
        invariant
            i <= 64,
            fresh == slots(after).difference(slots(before)),
            first_slot(fresh, 0) == first_slot(fresh, i as int),
        decreases 64 - i,
    {
        if has_bit(after, i) && !has_bit(before, i) {
            return i;
        }
        i = i + 1;
    }
    i
}

/// Whether `row` is a digit from `1` to `9` and `col` a column letter.
fn coord_ok(col: char, row: char) -> (r: bool)
    ensures
        r == is_coord(col, row),
{
    (('a' <= col && col <= 'i') || ('A' <= col && col <= 'I')) && '1' <= row && row <= '9'
}

/// Whether `c` is a digit.
fn digit_ok(c: char) -> (r: bool)
    ensures
        r == is_digit(c),
{
    '0' <= c && c <= '9'
}

/// The number that two digits write.
fn read_two_digits(tens: char, ones: char) -> (r: u8)
    requires
        is_digit(tens),
        is_digit(ones),
    ensures
        r == two_digits(tens, ones),
{
    ((tens as u8) - 48) * 10 + ((ones as u8) - 48)
}

impl Board {
    /// The board that a TQBN text encodes. The board remembers no route.
    pub fn from_tqbn(tqbn: &str) -> (b: Board)
        requires
            tqbn_error(tqbn@) is None,
        ensures
            b@ == tqbn_view(tqbn@),
            b.inv(),
    {
        let mut hwalls: u64 = 0;
        let mut vwalls: u64 = 0;
        let mut i: u8 = 0;
        proof {
            lemma_slots_of_zero();
            assert(slots(hwalls) =~= Set::new(|s: int| 0 <= s < 0 && is_h(tqbn@[s])));
            assert(slots(vwalls) =~= Set::new(|s: int| 0 <= s < 0 && is_v(tqbn@[s])));
        }
        while i < 64
            invariant
                i <= 64,
                tqbn@.len() == 73,
                slots(hwalls) == Set::new(|s: int| 0 <= s < i && is_h(tqbn@[s])),
                slots(vwalls) == Set::new(|s: int| 0 <= s < i && is_v(tqbn@[s])),
            decreases 64 - i,
        {
            let c = tqbn.get_char(i as usize);
            if c == 'h' || c == 'H' {
                hwalls = with_bit(hwalls, i);
            } else if c == 'v' || c == 'V' {
                vwalls = with_bit(vwalls, i);
            }
            proof {
                assert(slots(hwalls) =~= Set::new(|s: int| 0 <= s < i + 1 && is_h(tqbn@[s])));
                assert(slots(vwalls) =~= Set::new(|s: int| 0 <= s < i + 1 && is_v(tqbn@[s])));
            }
            i = i + 1;
        }
        let turn = if tqbn.get_char(64) == '1' {
            Player::White
        } else {
            Player::Black
        };
        let white = sqnum_for_coord(tqbn.get_char(65), (tqbn.get_char(66) as u8) - 48);
        let black = sqnum_for_coord(tqbn.get_char(69), (tqbn.get_char(70) as u8) - 48);
        let stocks = [
            read_two_digits(tqbn.get_char(67), tqbn.get_char(68)),
            read_two_digits(tqbn.get_char(71), tqbn.get_char(72)),
        ];
        let b = Board::with_parts([white, black], stocks, hwalls, vwalls, turn);
        proof {
            assert(b@.walls.h =~= tqbn_view(tqbn@).walls.h);
            assert(b@.walls.v =~= tqbn_view(tqbn@).walls.v);
        }
        b
    }

    /// What is wrong with a text as a TQBN encoding, if anything.
    pub fn check_tqbn(tqbn: &str) -> (r: Option<TqbnError>)
        ensures
            r == tqbn_error(tqbn@),
    {
        if tqbn.unicode_len() != 73 {
            return Some(TqbnError::WrongLength);
        }
        let mut i: usize = 0;
        while i < 64
            invariant
                i <= 64,
                tqbn@.len() == 73,
                forall|j: int| 0 <= j < i ==> is_h(tqbn@[j]) || is_v(tqbn@[j]) || is_n(tqbn@[j]),
            decreases 64 - i,
        {
            let c = tqbn.get_char(i);
            if !(c == 'h' || c == 'H' || c == 'v' || c == 'V' || c == 'n' || c == 'N') {
                return Some(TqbnError::UnknownCharacter);
            }
            i = i + 1;
        }
        let turn = tqbn.get_char(64);
        if turn != '1' && turn != '2' {
            return Some(TqbnError::UnknownCharacter);
        }
        if !coord_ok(tqbn.get_char(65), tqbn.get_char(66)) || !coord_ok(
            tqbn.get_char(69),
            tqbn.get_char(70),
        ) {
            return Some(TqbnError::PawnOutOfRange);
        }
        if !digit_ok(tqbn.get_char(67)) || !digit_ok(tqbn.get_char(68)) || !digit_ok(
            tqbn.get_char(71),
        ) || !digit_ok(tqbn.get_char(72)) {
            return Some(TqbnError::NonNumericWallCount);
        }
        None
    }

    /// Reads a board from its TQBN text, or says what is wrong with the
    /// text. The board remembers no route.
    pub fn parse_tqbn(tqbn: &str) -> (r: Result<Board, TqbnError>)
        ensures
            match r {
                Ok(b) => tqbn_error(tqbn@) is None && b@ == tqbn_view(tqbn@) && b.inv(),
                Err(e) => tqbn_error(tqbn@) == Some(e),
            },
    {
        match Board::check_tqbn(tqbn) {
            Some(e) => Err(e),
            None => Ok(Board::from_tqbn(tqbn)),
        }
    }

    /// The TQBN text of the board, in lower case.
    pub fn to_tqbn(&self) -> (r: String)
        requires
            self.inv(),
            self@.white_stock <= 99,
            self@.black_stock <= 99,
        ensures
            r@ == tqbn_text(self@),
            self@.walls.h.disjoint(self@.walls.v) ==> tqbn_error(r@) is None && tqbn_view(r@)
                == self@.forgetful(),
    {
        let hwalls = self.hwalls();
        let vwalls = self.vwalls();
        let mut text = String::new();
        let mut i: u8 = 0;
        while i < 64
            invariant
                i <= 64,
                slots(hwalls) == self@.walls.h,
                slots(vwalls) == self@.walls.v,
                text@ == Seq::new(i as nat, |s: int| slot_char(self@, s)),
            decreases 64 - i,
        {
            let c = if has_bit(hwalls, i) {
                'h'
            } else if has_bit(vwalls, i) {
                'v'
            } else {
                'n'
            };
            text.push(c);
            proof {
                assert(text@ =~= Seq::new((i + 1) as nat, |s: int| slot_char(self@, s)));
            }
            i = i + 1;
        }
        text.push(
            match self.turn() {
                Player::White => '1',
                Player::Black => '2',
            },
        );
        let pawns = self.pawns();
        let stocks = self.remaining_walls();
        let white = string_for_sqnum(pawns[0]);
        text.append(white.as_str());
        text.push((stocks[0] / 10 + 48) as char);
        text.push((stocks[0] % 10 + 48) as char);
        let black = string_for_sqnum(pawns[1]);
        text.append(black.as_str());
        text.push((stocks[1] / 10 + 48) as char);
        text.push((stocks[1] % 10 + 48) as char);
        proof {
            assert(text@ =~= tqbn_text(self@));
            if self@.walls.h.disjoint(self@.walls.v) {
                lemma_tqbn_round_trip(self@);
            }
        }
        text
    }

    /// The grid of the board, as it is shown to people.
    pub fn to_string(&self) -> (r: String)
        requires
            self.inv(),
        ensures
            r@ == grid_text(self@),
    {
        let pawns = self.pawns();
        let mut s = String::new();
        match self.turn() {
            Player::White => s.append("white to move\n"),
            Player::Black => s.append("black to move\n"),
        }
        s.append("  a   b   c   d   e   f   g   h   i\n");
        let ghost head = s@;
        let mut row: u8 = 0;
        while row < 9
            invariant
                row <= 9,
                self.inv(),
                pawns[0] == self@.white,
                pawns[1] == self@.black,
                s@ == head + rows_text(self@, row as int),
            decreases 9 - row,
        {
            s.push((row + 49) as char);
            s.push(' ');
            let ghost lead = s@;
            let mut col: u8 = 0;
            while col < 9
                invariant
                    col <= 9,
                    row < 9,
                    self.inv(),
                    pawns[0] == self@.white,
                    pawns[1] == self@.black,
                    s@ == lead + squares_text(self@, row as int, col as int),
                decreases 9 - col,
            {
                let sqnum = row * 9 + col;
                if pawns[0] == sqnum {
                    s.push('W');
                } else if pawns[1] == sqnum {
                    s.push('B');
                } else {
                    s.push('.');
                }
                if col != 8 {
                    if !self.is_open(sqnum, &Direction::East) {
                        s.append(" # ");
                    } else {
                        s.append("   ");
                    }
                }
                proof {
                    assert(s@ =~= lead + squares_text(self@, row as int, col as int + 1));
                }
                col = col + 1;
            }
            s.push('\n');
            let ghost middle = s@;
            if row < 8 {
                let mut col: u8 = 0;
                while col < 9
                    invariant
                        col <= 9,
                        row < 8,
                        self.inv(),
                        s@ == middle + edges_text(self@, row as int, col as int),
                    decreases 9 - col,
                {
                    let sqnum = row * 9 + col;
                    s.append("  ");
                    if !self.is_open(sqnum, &Direction::South) {
                        s.append("# ");
                    } else {
                        s.append("  ");
                    }
                    proof {
                        assert(s@ =~= middle + edges_text(self@, row as int, col as int + 1));
                    }
                    col = col + 1;
                }
                s.push('\n');
            }
            proof {
                assert(s@ =~= head + rows_text(self@, row as int + 1));
            }
            row = row + 1;
        }
        s
    }

    /// Whether `child` differs from the board as a move would have it, so
    /// that the move has a name.
    pub fn is_move_to(&self, child: &Board) -> (r: bool)
        ensures
            r == is_move(self@, child@),
    {
        let mover = self.turn();
        if mover == child.turn() {
            return false;
        }
        if self.pawn_of(mover) != child.pawn_of(mover) {
            return true;
        }
        if self.remaining_walls()[mover.index()] == child.remaining_walls()[mover.index()] {
            return false;
        }
        first_new_slot(self.hwalls(), child.hwalls()) < 64 || first_new_slot(
            self.vwalls(),
            child.vwalls(),
        ) < 64
    }

    /// The name of the move that leads from the board to `child`: for a pawn
    /// move the square the pawn went to, for a wall the square north-west of
    /// its slot and then `h` or `v`.
    pub fn move_string_to(&self, child: &Board) -> (r: String)
        requires
            is_move(self@, child@),
        ensures
            r@ == move_text(self@, child@),
    {
        let mover = self.turn();
        if self.pawn_of(mover) != child.pawn_of(mover) {
            return string_for_sqnum(child.pawn_of(mover));
        }
        let h = first_new_slot(self.hwalls(), child.hwalls());
        if h < 64 {
            let mut text = string_for_sqnum(h + h / 8);
            text.push('h');
            text
        } else {
            let v = first_new_slot(self.vwalls(), child.vwalls());
            let mut text = string_for_sqnum(v + v / 8);
            text.push('v');
            text
        }
    }
}

} // verus!
