//! The mathematical model of a position: where the pawns stand, which wall
//! slots are taken, and what that means for a pawn that wants to step.
//!
//! A wall slot `s` sits at the corner shared by the squares `(r, c)`,
//! `(r, c + 1)`, `(r + 1, c)` and `(r + 1, c + 1)`, where `r = s / 8` and
//! `c = s % 8`. A horizontal wall there closes the two edges between rows `r`
//! and `r + 1` that meet in the corner; a vertical wall closes the two edges
//! between columns `c` and `c + 1`.

use vstd::prelude::*;
use crate::square::{Direction, Player};

verus! {

/// The walls on the board: the slots that hold a horizontal wall and those
/// that hold a vertical one.
pub struct Walls {
    pub h: Set<int>,
    pub v: Set<int>,
}

impl Walls {
    /// Whether a horizontal wall closes the edge between the square in row
    /// `row`, column `col` and the square south of it.
    pub open spec fn south_blocked(self, row: int, col: int) -> bool {
        ||| (col < 8 && self.h.contains(row * 8 + col))
        ||| (col > 0 && self.h.contains(row * 8 + col - 1))
    }

    /// Whether a vertical wall closes the edge between the square in row
    /// `row`, column `col` and the square east of it.
    pub open spec fn east_blocked(self, row: int, col: int) -> bool {
        ||| (row < 8 && self.v.contains(row * 8 + col))
        ||| (row > 0 && self.v.contains((row - 1) * 8 + col))
    }

    /// Whether a pawn on `sq` can step in direction `d`: `sq` is a square,
    /// the step stays on the board and no wall closes the edge.
    pub open spec fn open(self, sq: int, d: Direction) -> bool {
        let row = sq / 9;
        let col = sq % 9;
        0 <= sq < 81 && match d {
            Direction::North => row > 0 && !self.south_blocked(row - 1, col),
            Direction::South => row < 8 && !self.south_blocked(row, col),
            Direction::East => col < 8 && !self.east_blocked(row, col),
            Direction::West => col > 0 && !self.east_blocked(row, col - 1),
        }
    }

    /// Whether one open step leads from `a` to `b`.
    pub open spec fn adjacent(self, a: int, b: int) -> bool {
        ||| (self.open(a, Direction::North) && b == a - 9)
        ||| (self.open(a, Direction::South) && b == a + 9)
        ||| (self.open(a, Direction::East) && b == a + 1)
        ||| (self.open(a, Direction::West) && b == a - 1)
    }

    /// The square before entry `i` of a walk that starts at `from`.
    pub open spec fn before(from: int, steps: Seq<u8>, i: int) -> int {
        if i == 0 {
            from
        } else {
            steps[i - 1] as int
        }
    }

    /// Whether `steps` is a walk from `from`: every entry is one open step
    /// away from the entry before it, the first from `from`.
    pub open spec fn is_walk(self, from: int, steps: Seq<u8>) -> bool {
        forall|i: int|
            0 <= i < steps.len() ==> self.adjacent(
                #[trigger] Self::before(from, steps, i),
                steps[i] as int,
            )
    }

    /// Whether `steps` is a route for `player` from `from`: a walk of at
    /// least one step that ends on the player's goal row.
    pub open spec fn is_route(self, player: Player, from: int, steps: Seq<u8>) -> bool {
        &&& steps.len() > 0
        &&& self.is_walk(from, steps)
        &&& player.is_goal(steps.last() as int)
    }

    /// Whether `player` can walk from `from` onto the goal row.
    pub open spec fn connected(self, player: Player, from: int) -> bool {
        exists|steps: Seq<u8>| self.is_route(player, from, steps)
    }

    /// Whether `steps` is a route for `player` from `from` and no route is
    /// shorter.
    pub open spec fn is_shortest_route(self, player: Player, from: int, steps: Seq<u8>) -> bool {
        &&& self.is_route(player, from, steps)
        &&& forall|other: Seq<u8>| #[trigger]
            self.is_route(player, from, other) ==> steps.len() <= other.len()
    }

    /// Whether `steps` is the first of the shortest routes of `player` from
    /// `from`: it is a shortest route, and it comes before every other.
    pub open spec fn is_first_route(self, player: Player, from: int, steps: Seq<u8>) -> bool {
        &&& self.is_shortest_route(player, from, steps)
        &&& forall|other: Seq<u8>| #[trigger]
            self.is_shortest_route(player, from, other) ==> other == steps || earlier(
                from,
                steps,
                other,
            )
    }

    /// The first of the shortest routes of `player` from `from`; empty if
    /// the player cannot reach the goal row from there.
    pub open spec fn best_route(self, player: Player, from: int) -> Seq<u8> {
        if self.connected(player, from) {
            choose|steps: Seq<u8>| self.is_first_route(player, from, steps)
        } else {
            Seq::empty()
        }
    }

    /// The number of steps of the shortest routes of `player` from `from`; 0
    /// if there is no route.
    pub open spec fn distance(self, player: Player, from: int) -> nat {
        let route = choose|route: Seq<u8>| self.is_shortest_route(player, from, route);
        if self.is_shortest_route(player, from, route) {
            route.len()
        } else {
            0
        }
    }

    /// Whether `steps` is a trail of `player` from `from` around `avoid`: a
    /// walk that does not come back to `from`, does not enter `avoid`, and
    /// goes no further once it stands on the player's goal row.
    pub open spec fn is_trail(self, player: Player, from: int, avoid: int, steps: Seq<u8>) -> bool {
        &&& self.is_walk(from, steps)
        &&& forall|i: int|
            0 <= i < steps.len() ==> {
                &&& #[trigger] steps[i] as int != from
                &&& steps[i] as int != avoid
                &&& i < steps.len() - 1 ==> !player.is_goal(steps[i] as int)
            }
    }

    /// Whether a trail of `n` steps ends on `sq`.
    pub open spec fn has_trail(
        self,
        player: Player,
        from: int,
        avoid: int,
        sq: int,
        n: int,
    ) -> bool {
        exists|t: Seq<u8>|
            t.len() == n && #[trigger] self.is_trail(player, from, avoid, t) && t.last() as int
                == sq
    }

    /// Whether `n` is the distance of `sq` along trails: 0 if no trail of at
    /// least one step ends on `sq`, else the length of a shortest one.
    pub open spec fn is_distance(
        self,
        player: Player,
        from: int,
        avoid: int,
        sq: int,
        n: int,
    ) -> bool {
        &&& n >= 0
        &&& n > 0 ==> self.has_trail(player, from, avoid, sq, n)
        &&& forall|t: Seq<u8>|
            t.len() > 0 && #[trigger] self.is_trail(player, from, avoid, t) && t.last() as int
                == sq ==> 0 < n <= t.len()
    }

    /// The distance of `sq` along trails: 0 if no trail of at least one step
    /// ends on `sq`, else the length of a shortest one.
    pub open spec fn trail_distance(self, player: Player, from: int, avoid: int, sq: int) -> int {
        choose|n: int| self.is_distance(player, from, avoid, sq, n)
    }

    /// Whether no two walls of the same kind lie on neighbouring slots: a
    /// horizontal wall has none at the next slot, a vertical wall none eight
    /// slots on.
    pub open spec fn no_overlap(self) -> bool {
        &&& forall|s: int| !(#[trigger] self.h.contains(s) && self.h.contains(s + 1))
        &&& forall|s: int| !(#[trigger] self.v.contains(s) && self.v.contains(s + 8))
    }

    /// Whether slot `s` holds one wall at most, and no wall that overlaps
    /// the wall of its kind on the next slot.
    pub open spec fn clear_at(self, s: int) -> bool {
        &&& !(self.h.contains(s) && self.v.contains(s))
        &&& !(self.h.contains(s) && self.h.contains(s + 1))
        &&& !(self.v.contains(s) && self.v.contains(s + 8))
    }

    /// Whether the wall sets are sets of slots.
    pub open spec fn inv(self) -> bool {
        &&& self.h.finite()
        &&& self.v.finite()
        &&& forall|s: int| self.h.contains(s) ==> 0 <= s < 64
        &&& forall|s: int| self.v.contains(s) ==> 0 <= s < 64
    }
}

/// The place of the step from `a` to `b` in the order North, South, East,
/// West.
pub open spec fn step_rank(a: int, b: int) -> int {
    if b == a - 9 {
        0
    } else if b == a + 9 {
        1
    } else if b == a + 1 {
        2
    } else {
        3
    }
}

/// Whether two walks from `from` agree on their first `i` steps and the
/// first walk then takes the earlier direction.
pub open spec fn parts_at(from: int, first: Seq<u8>, second: Seq<u8>, i: int) -> bool {
    &&& 0 <= i < first.len()
    &&& i < second.len()
    &&& first.subrange(0, i) == second.subrange(0, i)
    &&& step_rank(Walls::before(from, first, i), first[i] as int) < step_rank(
        Walls::before(from, first, i),
        second[i] as int,
    )
}

/// Whether the walk `first` comes before the walk `second`, both from
/// `from`: where the two part, `first` takes the earlier direction of the
/// order North, South, East, West.
pub open spec fn earlier(from: int, first: Seq<u8>, second: Seq<u8>) -> bool {
    exists|i: int| #[trigger] parts_at(from, first, second, i)
}

/// A position: the view of a board.
pub struct BoardView {
    /// The square of White's pawn.
    pub white: int,
    /// The square of Black's pawn.
    pub black: int,
    /// The walls White may still place.
    pub white_stock: int,
    /// The walls Black may still place.
    pub black_stock: int,
    /// The walls on the board.
    pub walls: Walls,
    /// The player to move.
    pub turn: Player,
    /// The shortest route remembered for White, if any.
    pub white_route: Option<Seq<u8>>,
    /// The shortest route remembered for Black, if any.
    pub black_route: Option<Seq<u8>>,
}

impl BoardView {
    /// The square of the pawn of `player`.
    pub open spec fn pawn(self, player: Player) -> int {
        match player {
            Player::White => self.white,
            Player::Black => self.black,
        }
    }

    /// The number of walls `player` may still place.
    pub open spec fn stock(self, player: Player) -> int {
        match player {
            Player::White => self.white_stock,
            Player::Black => self.black_stock,
        }
    }

    /// The route remembered for `player`, if any.
    pub open spec fn route(self, player: Player) -> Option<Seq<u8>> {
        match player {
            Player::White => self.white_route,
            Player::Black => self.black_route,
        }
    }

    /// Whether a remembered route of `player`, if there is one, is the
    /// first shortest route of that player from where the pawn stands.
    pub open spec fn route_valid(self, player: Player) -> bool {
        self.route(player) matches Some(r) ==> self.walls.is_first_route(
            player,
            self.pawn(player),
            r,
        )
    }

    /// What holds of every board: the pawns stand on squares, the stocks fit
    /// a byte, the walls lie on slots, and a remembered route is the first
    /// shortest route.
    pub open spec fn inv(self) -> bool {
        &&& 0 <= self.white < 81
        &&& 0 <= self.black < 81
        &&& 0 <= self.white_stock <= 255
        &&& 0 <= self.black_stock <= 255
        &&& self.walls.inv()
        &&& self.route_valid(Player::White)
        &&& self.route_valid(Player::Black)
    }

    /// The position with `route` remembered for `player` in place of what
    /// was remembered before.
    pub open spec fn remembering(self, player: Player, route: Option<Seq<u8>>) -> BoardView {
        match player {
            Player::White => BoardView { white_route: route, ..self },
            Player::Black => BoardView { black_route: route, ..self },
        }
    }

    /// The position with the pawn of `player` on `sq`.
    pub open spec fn with_pawn(self, player: Player, sq: int) -> BoardView {
        match player {
            Player::White => BoardView { white: sq, ..self },
            Player::Black => BoardView { black: sq, ..self },
        }
    }

    /// The position with `n` walls in the stock of `player`.
    pub open spec fn with_stock(self, player: Player, n: int) -> BoardView {
        match player {
            Player::White => BoardView { white_stock: n, ..self },
            Player::Black => BoardView { black_stock: n, ..self },
        }
    }

    /// What is left of a remembered route once the pawn stands on `to`: the
    /// rest of the route if `to` is its first square and more follow, else
    /// nothing.
    pub open spec fn route_from(route: Option<Seq<u8>>, to: int) -> Option<Seq<u8>> {
        match route {
            Some(r) => if r.len() > 1 && r[0] as int == to {
                Some(r.skip(1))
            } else {
                None
            },
            None => None,
        }
    }

    /// The position after the player to move has put the pawn on `to`: the
    /// turn passes, the mover's remembered route is followed or dropped, and
    /// the opponent's stays.
    pub open spec fn after_step(self, to: int) -> BoardView {
        let mover = self.turn;
        BoardView { turn: mover.opponent(), ..self }.with_pawn(mover, to).remembering(
            mover,
            Self::route_from(self.route(mover), to),
        )
    }

    /// The position after the player to move has placed a wall on `slot`:
    /// the slot is taken, the mover's stock is one less, the turn passes and
    /// nothing is remembered.
    pub open spec fn after_wall(self, slot: int, horizontal: bool) -> BoardView {
        let mover = self.turn;
        let walls = if horizontal {
            Walls { h: self.walls.h.insert(slot), v: self.walls.v }
        } else {
            Walls { h: self.walls.h, v: self.walls.v.insert(slot) }
        };
        BoardView {
            walls,
            turn: mover.opponent(),
            white_route: None,
            black_route: None,
            ..self
        }.with_stock(mover, self.stock(mover) - 1)
    }

    /// The position without what it remembers.
    pub open spec fn forgetful(self) -> BoardView {
        BoardView { white_route: None, black_route: None, ..self }
    }

    /// The winner, if a pawn stands on its goal row. White is looked at
    /// first.
    pub open spec fn winner(self) -> Option<Player> {
        if self.white < 9 {
            Some(Player::White)
        } else if self.black > 71 {
            Some(Player::Black)
        } else {
            None
        }
    }

    /// Whether the position obeys the rules of the game: the pawns stand on
    /// different squares, twenty walls are in the game, no slot holds two
    /// walls, no two walls overlap, and each player can still reach the goal
    /// row.
    pub open spec fn legal(self) -> bool {
        &&& self.white != self.black
        &&& self.white_stock + self.black_stock + self.walls.h.len() + self.walls.v.len() == 20
        &&& self.walls.h.disjoint(self.walls.v)
        &&& self.walls.no_overlap()
        &&& self.walls.connected(Player::White, self.white)
        &&& self.walls.connected(Player::Black, self.black)
    }
}

} // verus!
