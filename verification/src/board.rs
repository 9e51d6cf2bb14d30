//! The board: two pawns, two stocks of walls, two bit masks of wall slots,
//! the player to move, and the shortest routes it remembers.

use vstd::prelude::*;
use crate::bits::{has_bit, lemma_slots_finite, lemma_slots_of_zero, slots, with_bit};
use crate::model::{BoardView, Walls};
use crate::routes::lemma_first_route_rest;
use crate::square::{Direction, Player};

verus! {

/// A position of the game.
///
/// The fields are private: every board that can be built obeys
/// [`Board::inv`], and every function keeps it so.
#[derive(Clone, Debug)]
pub struct Board {
    /// The squares of the pawns, White's first.
    pawns: [u8; 2],
    /// The walls each player may still place, White's first.
    remaining_walls: [u8; 2],
    /// The slots that hold a horizontal wall.
    hwalls: u64,
    /// The slots that hold a vertical wall.
    vwalls: u64,
    /// The player to move.
    turn: Player,
    /// The shortest route remembered for White.
    white_route: Option<Vec<u8>>,
    /// The shortest route remembered for Black.
    black_route: Option<Vec<u8>>,
}

/// The view of a remembered route.
pub open spec fn route_view(route: Option<Vec<u8>>) -> Option<Seq<u8>> {
    match route {
        Some(r) => Some(r@),
        None => None,
    }
}

/// The position with the given pawns, stocks, wall masks and player to
/// move, in which nothing is remembered.
pub open spec fn parts_view(
    pawns: [u8; 2],
    remaining_walls: [u8; 2],
    hwalls: u64,
    vwalls: u64,
    turn: Player,
) -> BoardView {
    BoardView {
        white: pawns[0] as int,
        black: pawns[1] as int,
        white_stock: remaining_walls[0] as int,
        black_stock: remaining_walls[1] as int,
        walls: Walls { h: slots(hwalls), v: slots(vwalls) },
        turn,
        white_route: None,
        black_route: None,
    }
}

/// A copy of a route.
pub fn copy_route(route: &Vec<u8>) -> (r: Vec<u8>)
    ensures
        r@ == route@,
{
    let mut r: Vec<u8> = Vec::new();
    let mut i: usize = 0;
    while i < route.len()
        invariant
            i <= route.len(),
            r@ == route@.subrange(0, i as int),
        decreases route.len() - i,
    {
        r.push(route[i]);
        proof {
            assert(r@ =~= route@.subrange(0, i as int + 1));
        }
        i = i + 1;
    }
    proof {
        assert(r@ =~= route@);
    }
    r
}

/// A copy of a route that may be missing.
pub fn copy_route_option(route: &Option<Vec<u8>>) -> (r: Option<Vec<u8>>)
    ensures
        route_view(r) == route_view(*route),
{
    match route {
        Some(v) => Some(copy_route(v)),
        None => None,
    }
}

impl View for Board {
    type V = BoardView;

    /// The position that the board holds.
    closed spec fn view(&self) -> BoardView {
        BoardView {
            white: self.pawns[0] as int,
            black: self.pawns[1] as int,
            white_stock: self.remaining_walls[0] as int,
            black_stock: self.remaining_walls[1] as int,
            walls: Walls { h: slots(self.hwalls), v: slots(self.vwalls) },
            turn: self.turn,
            white_route: route_view(self.white_route),
            black_route: route_view(self.black_route),
        }
    }
}

impl Board {
    /// What holds of every board; see [`BoardView::inv`].
    pub open spec fn inv(&self) -> bool {
        self@.inv()
    }

    /// The walls of a board lie on slots, and its stocks fit a byte.
    proof fn lemma_masks(&self)
        ensures
            self@.walls.inv(),
            0 <= self@.white_stock <= 255,
            0 <= self@.black_stock <= 255,
    {
        lemma_slots_finite(self.hwalls);
        lemma_slots_finite(self.vwalls);
    }

    /// The position at the start of a game: White on `e9`, Black on `e1`,
    /// ten walls each, none placed, White to move, nothing remembered.
    pub open spec fn initial() -> BoardView {
        BoardView {
            white: 76,
            black: 4,
            white_stock: 10,
            black_stock: 10,
            walls: Walls { h: Set::empty(), v: Set::empty() },
            turn: Player::White,
            white_route: None,
            black_route: None,
        }
    }

    /// The board at the start of a game.
    pub fn new() -> (b: Board)
        ensures
            b@ == Self::initial(),
            b.inv(),
    {
        let b = Board {
            pawns: [76, 4],
            remaining_walls: [10, 10],
            hwalls: 0,
            vwalls: 0,
            turn: Player::White,
            white_route: None,
            black_route: None,
        };
        proof {
            lemma_slots_of_zero();
            b.lemma_masks();
        }
        b
    }

    /// A board with the given pawns, stocks, wall masks and player to move,
    /// and nothing remembered.
    pub(crate) fn with_parts(
        pawns: [u8; 2],
        remaining_walls: [u8; 2],
        hwalls: u64,
        vwalls: u64,
        turn: Player,
    ) -> (b: Board)
        requires
            pawns[0] < 81,
            pawns[1] < 81,
        ensures
            b.inv(),
            b@ == parts_view(pawns, remaining_walls, hwalls, vwalls, turn),
    {
        let b = Board {
            pawns,
            remaining_walls,
            hwalls,
            vwalls,
            turn,
            white_route: None,
            black_route: None,
        };
        proof {
            b.lemma_masks();
        }
        b
    }

    /// A board with the given pawns, stocks, wall masks and player to move,
    /// and nothing remembered; none if a pawn would stand off the board.
    pub fn from_parts(
        pawns: [u8; 2],
        remaining_walls: [u8; 2],
        hwalls: u64,
        vwalls: u64,
        turn: Player,
    ) -> (r: Option<Board>)
        ensures
            r is Some <==> pawns[0] < 81 && pawns[1] < 81,
            r matches Some(b) ==> b.inv() && b@ == parts_view(
                pawns,
                remaining_walls,
                hwalls,
                vwalls,
                turn,
            ),
    {
        if pawns[0] >= 81 || pawns[1] >= 81 {
            return None;
        }
        Some(Self::with_parts(pawns, remaining_walls, hwalls, vwalls, turn))
    }

    /// Remembers `route` as the first shortest route of `player`.
    pub(crate) fn remember(&mut self, player: Player, route: Vec<u8>)
        requires
            old(self).inv(),
            old(self)@.walls.is_first_route(player, old(self)@.pawn(player), route@),
        ensures
            final(self).inv(),
            final(self)@ == old(self)@.remembering(player, Some(route@)),
    {
        match player {
            Player::White => {
                self.white_route = Some(route);
            },
            Player::Black => {
                self.black_route = Some(route);
            },
        }
    }

    /// What is left of a remembered route once the pawn stands on `to`.
    fn rest_of_route(route: &Option<Vec<u8>>, to: u8) -> (r: Option<Vec<u8>>)
        ensures
            route_view(r) == BoardView::route_from(route_view(*route), to as int),
    {
        match route {
            Some(v) => {
                if v.len() > 1 && v[0] == to {
                    let mut rest: Vec<u8> = Vec::new();
                    let mut i: usize = 1;
                    while i < v.len()
                        invariant
                            1 <= i <= v.len(),
                            rest@ == v@.subrange(1, i as int),
                        decreases v.len() - i,
                    {
                        rest.push(v[i]);
                        proof {
                            assert(rest@ =~= v@.subrange(1, i as int + 1));
                        }
                        i = i + 1;
                    }
                    proof {
                        assert(rest@ =~= v@.skip(1));
                    }
                    Some(rest)
                } else {
                    None
                }
            },
            None => None,
        }
    }

    /// The board after the player to move has put the pawn on `to`.
    pub(crate) fn stepped(&self, to: u8) -> (child: Board)
        requires
            self.inv(),
            to < 81,
        ensures
            child.inv(),
            child@ == self@.after_step(to as int),
    {
        let mut pawns = self.pawns;
        pawns[self.turn.index()] = to;
        let (white_route, black_route) = match self.turn {
            Player::White => (
                Self::rest_of_route(&self.white_route, to),
                copy_route_option(&self.black_route),
            ),
            Player::Black => (
                copy_route_option(&self.white_route),
                Self::rest_of_route(&self.black_route, to),
            ),
        };
        let child = Board {
            pawns,
            remaining_walls: self.remaining_walls,
            hwalls: self.hwalls,
            vwalls: self.vwalls,
            turn: self.turn.other(),
            white_route,
            black_route,
        };
        proof {
            let mover = self@.turn;
            match self@.route(mover) {
                Some(r) => {
                    if r.len() > 1 && r[0] as int == to as int {
                        lemma_first_route_rest(self@.walls, mover, self@.pawn(mover), r);
                    }
                },
                None => {},
            }
            assert(child@ == self@.after_step(to as int));
        }
        child
    }

    /// The board after the player to move has placed a wall on `slot`.
    pub(crate) fn walled(&self, slot: u8, horizontal: bool) -> (child: Board)
        requires
            self.inv(),
            slot < 64,
            self@.stock(self@.turn) > 0,
        ensures
            child.inv(),
            child@ == self@.after_wall(slot as int, horizontal),
    {
        let mut remaining_walls = self.remaining_walls;
        remaining_walls[self.turn.index()] = remaining_walls[self.turn.index()] - 1;
        let child = Board {
            pawns: self.pawns,
            remaining_walls,
            hwalls: if horizontal {
                with_bit(self.hwalls, slot)
            } else {
                self.hwalls
            },
            vwalls: if horizontal {
                self.vwalls
            } else {
                with_bit(self.vwalls, slot)
            },
            turn: self.turn.other(),
            white_route: None,
            black_route: None,
        };
        proof {
            child.lemma_masks();
            assert(child@ == self@.after_wall(slot as int, horizontal));
        }
        child
    }

    /// A copy of the board.
    pub fn duplicate(&self) -> (r: Board)
        requires
            self.inv(),
        ensures
            r@ == self@,
            r.inv(),
    {
        Board {
            pawns: self.pawns,
            remaining_walls: self.remaining_walls,
            hwalls: self.hwalls,
            vwalls: self.vwalls,
            turn: self.turn,
            white_route: copy_route_option(&self.white_route),
            black_route: copy_route_option(&self.black_route),
        }
    }

    /// The player to move.
    pub fn turn(&self) -> (r: Player)
        ensures
            r == self@.turn,
    {
        self.turn
    }

    /// The squares of the pawns, White's first.
    pub fn pawns(&self) -> (r: [u8; 2])
        ensures
            r[0] == self@.white,
            r[1] == self@.black,
    {
        self.pawns
    }

    /// The square of the pawn of `player`.
    pub fn pawn_of(&self, player: Player) -> (r: u8)
        ensures
            r == self@.pawn(player),
    {
        self.pawns[player.index()]
    }

    /// The square of the pawn of the player to move.
    pub fn turn_pawn(&self) -> (r: u8)
        ensures
            r == self@.pawn(self@.turn),
    {
        self.pawns[self.turn.index()]
    }

    /// The square of the pawn of the player who is not to move.
    pub fn other_pawn(&self) -> (r: u8)
        ensures
            r == self@.pawn(self@.turn.opponent()),
    {
        self.pawns[self.turn.other().index()]
    }

    /// The walls each player may still place, White's first.
    pub fn remaining_walls(&self) -> (r: [u8; 2])
        ensures
            r[0] == self@.white_stock,
            r[1] == self@.black_stock,
    {
        self.remaining_walls
    }

    /// The mask of the slots that hold a horizontal wall.
    pub fn hwalls(&self) -> (r: u64)
        ensures
            slots(r) == self@.walls.h,
    {
        self.hwalls
    }

    /// The mask of the slots that hold a vertical wall.
    pub fn vwalls(&self) -> (r: u64)
        ensures
            slots(r) == self@.walls.v,
    {
        self.vwalls
    }

    /// The shortest route remembered for `player`, if any.
    pub fn cached_path(&self, player: Player) -> (r: Option<Vec<u8>>)
        ensures
            route_view(r) == self@.route(player),
    {
        match player {
            Player::White => copy_route_option(&self.white_route),
            Player::Black => copy_route_option(&self.black_route),
        }
    }

    /// The winner, if a pawn stands on its goal row: White if White's pawn
    /// stands on row 0, else Black if Black's pawn stands on row 8.
    pub fn winner(&self) -> (r: Option<Player>)
        ensures
            r == self@.winner(),
    {
        if self.pawns[0] < 9 {
            return Some(Player::White);
        }
        if self.pawns[1] > 71 {
            return Some(Player::Black);
        }
        None
    }

    /// Whether a pawn on `sqnum` can step in `direction`: the step stays on
    /// the board and no wall closes the edge it crosses.
    pub fn is_open(&self, sqnum: u8, direction: &Direction) -> (r: bool)
        ensures
            r == self@.walls.open(sqnum as int, *direction),
    {
        if sqnum >= 81 {
            return false;
        }
        let row: u8 = sqnum / 9;
        let col: u8 = sqnum % 9;
        match direction {
            Direction::North => row > 0 && !self.south_closed(row - 1, col),
            Direction::South => row < 8 && !self.south_closed(row, col),
            Direction::East => col < 8 && !self.east_closed(row, col),
            Direction::West => col > 0 && !self.east_closed(row, col - 1),
        }
    }

    /// Whether a horizontal wall closes the edge between the square in row
    /// `row`, column `col` and the square south of it.
    fn south_closed(&self, row: u8, col: u8) -> (r: bool)
        requires
            row < 8,
            col < 9,
        ensures
            r == self@.walls.south_blocked(row as int, col as int),
    {
        (col < 8 && has_bit(self.hwalls, row * 8 + col)) || (col > 0 && has_bit(
            self.hwalls,
            row * 8 + col - 1,
        ))
    }

    /// Whether a vertical wall closes the edge between the square in row
    /// `row`, column `col` and the square east of it.
    fn east_closed(&self, row: u8, col: u8) -> (r: bool)
        requires
            row < 9,
            col < 8,
        ensures
            r == self@.walls.east_blocked(row as int, col as int),
    {
        (row < 8 && has_bit(self.vwalls, row * 8 + col)) || (row > 0 && has_bit(
            self.vwalls,
            (row - 1) * 8 + col,
        ))
    }
}

} // verus!
