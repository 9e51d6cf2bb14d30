//! What holds of the moves of every position.

use vstd::prelude::*;
use crate::model::{BoardView, Walls};
use crate::routes::{lemma_direction_of, lemma_first_route_rest, lemma_route_from_start};
use crate::notation::{first_slot, is_move};
use crate::square::{Direction, Player};

verus! {

impl Direction {
    /// The direction that leads back.
    pub open spec fn reversed(self) -> Direction {
        match self {
            Direction::North => Direction::South,
            Direction::South => Direction::North,
            Direction::East => Direction::West,
            Direction::West => Direction::East,
        }
    }
}

/// An open edge is open from both sides.
pub proof fn lemma_open_both_ways(walls: Walls, sq: int, d: Direction)
    requires
        walls.open(sq, d),
    ensures
        walls.open(sq + d.delta(), d.reversed()),
        walls.adjacent(sq, sq + d.delta()),
        walls.adjacent(sq + d.delta(), sq),
        0 <= sq + d.delta() < 81,
{
}

/// Whoever can reach the goal row from a square can reach it from every
/// square one open step away.
pub proof fn lemma_connected_from_neighbour(walls: Walls, player: Player, from: int, near: int)
    requires
        walls.connected(player, from),
        walls.adjacent(near, from),
        0 <= from < 81,
    ensures
        walls.connected(player, near),
{
    let route = choose|route: Seq<u8>| walls.is_route(player, from, route);
    lemma_route_from_start(walls, player, near, from, route);
}

impl BoardView {
    /// Whether `to` is a square the pawn of the player to move can go to.
    pub open spec fn is_target(self, to: int) -> bool {
        exists|d: Direction, j: int|
            0 <= j < self.pawn_targets(d).len() && #[trigger] self.pawn_targets(d)[j] == to
    }

    /// Whether a pawn move leads from the position to `child`.
    pub open spec fn steps_to(self, child: BoardView) -> bool {
        exists|to: int| self.is_target(to) && child == #[trigger] self.after_step(to)
    }

    /// Whether a wall placement leads from the position to `child`; with
    /// `validate_paths`, one that leaves each player a route.
    pub open spec fn walls_to(self, child: BoardView, validate_paths: bool) -> bool {
        &&& self.stock(self.turn) > 0
        &&& exists|slot: int, horizontal: bool|
            {
                &&& self.can_place(slot, horizontal)
                &&& validate_paths ==> self.after_wall(slot, horizontal).paths_exist()
                &&& child == #[trigger] self.after_wall(slot, horizontal)
            }
    }

    /// Whether a move leads from the position to `child`: a pawn move or a
    /// wall placement, whether or not it leaves each player a route.
    pub open spec fn is_move_to(self, child: BoardView) -> bool {
        self.steps_to(child) || self.walls_to(child, false)
    }

    /// Whether a legal move leads from the position to `child`: a pawn move,
    /// or a wall placement that leaves each player a route.
    pub open spec fn is_legal_move_to(self, child: BoardView) -> bool {
        self.steps_to(child) || self.walls_to(child, true)
    }
}

/// Every square a pawn can go to is a square of the board other than the
/// squares of the two pawns, and the mover can reach it by open steps: in
/// one, or in two over the square of the other pawn.
pub proof fn lemma_target(v: BoardView, d: Direction, j: int)
    requires
        v.inv(),
        0 <= j < v.pawn_targets(d).len(),
    ensures
        ({
            let to = v.pawn_targets(d)[j];
            let pawn = v.pawn(v.turn);
            let rival = v.pawn(v.turn.opponent());
            &&& 0 <= to < 81
            &&& to != rival
            &&& to != pawn
            &&& v.walls.adjacent(to, pawn) || (v.walls.adjacent(to, rival) && v.walls.adjacent(
                rival,
                pawn,
            ))
        }),
{
    let pawn = v.pawn(v.turn);
    let next = pawn + d.delta();
    lemma_open_both_ways(v.walls, pawn, d);
    if next == v.pawn(v.turn.opponent()) {
        if v.walls.open(next, d) {
            lemma_open_both_ways(v.walls, next, d);
        } else {
            if v.walls.open(next, d.turned_left()) {
                lemma_open_both_ways(v.walls, next, d.turned_left());
            }
            if v.walls.open(next, d.turned_right()) {
                lemma_open_both_ways(v.walls, next, d.turned_right());
            }
        }
    }
}

/// A pawn move from a legal position leads to a legal position.
pub proof fn lemma_step_keeps_legal(v: BoardView, d: Direction, j: int)
    requires
        v.inv(),
        v.legal(),
        0 <= j < v.pawn_targets(d).len(),
    ensures
        v.after_step(v.pawn_targets(d)[j]).inv(),
        v.after_step(v.pawn_targets(d)[j]).legal(),
{
    let to = v.pawn_targets(d)[j];
    let mover = v.turn;
    let pawn = v.pawn(mover);
    let rival = v.pawn(mover.opponent());
    let child = v.after_step(to);
    lemma_target(v, d, j);
    if v.walls.adjacent(to, pawn) {
        lemma_connected_from_neighbour(v.walls, mover, pawn, to);
    } else {
        lemma_connected_from_neighbour(v.walls, mover, pawn, rival);
        lemma_connected_from_neighbour(v.walls, mover, rival, to);
    }
    match v.route(mover) {
        Some(r) => {
            if r.len() > 1 && r[0] as int == to {
                lemma_first_route_rest(v.walls, mover, pawn, r);
            }
        },
        None => {},
    }
    assert(child.route_valid(Player::White));
    assert(child.route_valid(Player::Black));
}

/// A wall placement from a legal position that leaves each player a route
/// leads to a legal position that remembers no route.
pub proof fn lemma_wall_keeps_legal(v: BoardView, slot: int, horizontal: bool)
    requires
        v.inv(),
        v.legal(),
        v.stock(v.turn) > 0,
        v.can_place(slot, horizontal),
        v.after_wall(slot, horizontal).paths_exist(),
    ensures
        v.after_wall(slot, horizontal).inv(),
        v.after_wall(slot, horizontal).legal(),
        v.after_wall(slot, horizontal).white_route is None,
        v.after_wall(slot, horizontal).black_route is None,
{
    let child = v.after_wall(slot, horizontal);
    if horizontal {
        assert(child.walls.h.len() == v.walls.h.len() + 1);
    } else {
        assert(child.walls.v.len() == v.walls.v.len() + 1);
    }
}

/// The positions after the pawn moves in the first `n` directions are
/// reached by pawn moves.
pub proof fn lemma_pawn_moves_step(v: BoardView, n: int, i: int)
    requires
        0 <= n <= 4,
        0 <= i < v.pawn_moves_upto(n).len(),
    ensures
        exists|d: Direction, j: int|
            0 <= j < v.pawn_targets(d).len() && v.pawn_moves_upto(n)[i] == v.after_step(
                #[trigger] v.pawn_targets(d)[j],
            ),
    decreases n,
{
    let before = v.pawn_moves_upto(n - 1);
    let d = Direction::of_rank(n - 1);
    if i < before.len() {
        lemma_pawn_moves_step(v, n - 1, i);
    } else {
        let j = i - before.len();
        assert(v.pawn_moves_upto(n)[i] == v.pawn_moves_in(d)[j]);
        assert(v.pawn_moves_in(d)[j] == v.after_step(v.pawn_targets(d)[j]));
    }
}

/// The positions after the wall placements on the first `n` slots are
/// reached by wall placements, which leave each player a route where that
/// was asked for.
pub proof fn lemma_wall_moves_place(v: BoardView, n: int, validate_paths: bool, i: int)
    requires
        0 <= n <= 64,
        0 <= i < v.wall_moves_upto(n, validate_paths).len(),
    ensures
        exists|slot: int, horizontal: bool|
            {
                &&& v.can_place(slot, horizontal)
                &&& validate_paths ==> v.after_wall(slot, horizontal).paths_exist()
                &&& v.wall_moves_upto(n, validate_paths)[i] == #[trigger] v.after_wall(
                    slot,
                    horizontal,
                )
            },
    decreases n,
{
    let before = v.wall_moves_upto(n - 1, validate_paths);
    let across = v.wall_move(n - 1, true, validate_paths);
    if i < before.len() {
        lemma_wall_moves_place(v, n - 1, validate_paths, i);
    } else if i < before.len() + across.len() {
        assert(v.wall_moves_upto(n, validate_paths)[i] == v.after_wall(n - 1, true));
    } else {
        assert(v.wall_moves_upto(n, validate_paths)[i] == v.after_wall(n - 1, false));
    }
}

/// Every position that the move generator lists is reached by a pawn move
/// or by a wall placement; with `validate_paths`, by a legal move.
pub proof fn lemma_listed_moves(
    v: BoardView,
    moves_only: bool,
    validate_paths: bool,
    return_wins: bool,
    i: int,
)
    requires
        v.inv(),
        0 <= i < v.moves_detailed(moves_only, validate_paths, return_wins).len(),
    ensures
        ({
            let child = v.moves_detailed(moves_only, validate_paths, return_wins)[i];
            v.steps_to(child) || v.walls_to(child, validate_paths)
        }),
{
    let listed = v.moves_detailed(moves_only, validate_paths, return_wins);
    let child = listed[i];
    let steps = v.pawn_moves();
    let win = BoardView::first_win(steps);
    crate::moves::lemma_first_win_is_first(steps);
    let k = if return_wins && win < steps.len() {
        win
    } else {
        i
    };
    if k < steps.len() {
        assert(child == steps[k]);
        lemma_pawn_moves_step(v, 4, k);
        let (d, j) = choose|d: Direction, j: int|
            0 <= j < v.pawn_targets(d).len() && steps[k] == v.after_step(
                #[trigger] v.pawn_targets(d)[j],
            );
        assert(v.is_target(v.pawn_targets(d)[j]));
        assert(v.steps_to(child));
    } else {
        lemma_wall_moves_place(v, 64, validate_paths, i - steps.len());
        assert(child == v.wall_moves(validate_paths)[i - steps.len()]);
        assert(v.walls_to(child, validate_paths));
    }
}

/// The position after every pawn move is listed among the pawn moves.
pub proof fn lemma_step_is_listed(v: BoardView, d: Direction, j: int)
    requires
        0 <= j < v.pawn_targets(d).len(),
    ensures
        exists|i: int|
            0 <= i < v.pawn_moves().len() && #[trigger] v.pawn_moves()[i] == v.after_step(
                v.pawn_targets(d)[j],
            ),
{
    reveal_with_fuel(BoardView::pawn_moves_upto, 5);
    let north = v.pawn_moves_in(Direction::North);
    let south = v.pawn_moves_in(Direction::South);
    let east = v.pawn_moves_in(Direction::East);
    let steps = v.pawn_moves();
    assert(steps =~= north + south + east + v.pawn_moves_in(Direction::West));
    let i: int = match d {
        Direction::North => j,
        Direction::South => north.len() + j,
        Direction::East => north.len() + south.len() + j,
        Direction::West => north.len() + south.len() + east.len() + j,
    };
    assert(steps[i] == v.pawn_moves_in(d)[j]);
}

/// The position after every wall placement on one of the first `n` slots is
/// listed among the wall placements on these slots, where the wall may be
/// placed and, if that is asked for, leaves each player a route.
pub proof fn lemma_wall_is_listed(
    v: BoardView,
    n: int,
    validate_paths: bool,
    slot: int,
    horizontal: bool,
)
    requires
        0 <= slot < n <= 64,
        v.can_place(slot, horizontal),
        validate_paths ==> v.after_wall(slot, horizontal).paths_exist(),
    ensures
        exists|i: int|
            0 <= i < v.wall_moves_upto(n, validate_paths).len() && #[trigger] v.wall_moves_upto(
                n,
                validate_paths,
            )[i] == v.after_wall(slot, horizontal),
    decreases n,
{
    let before = v.wall_moves_upto(n - 1, validate_paths);
    let across = v.wall_move(n - 1, true, validate_paths);
    let listed = v.wall_moves_upto(n, validate_paths);
    if slot == n - 1 {
        let i: int = if horizontal {
            before.len() as int
        } else {
            (before.len() + across.len()) as int
        };
        assert(listed[i] == v.after_wall(slot, horizontal));
    } else {
        lemma_wall_is_listed(v, n - 1, validate_paths, slot, horizontal);
        let i = choose|i: int|
            0 <= i < before.len() && #[trigger] before[i] == v.after_wall(slot, horizontal);
        assert(listed[i] == before[i]);
    }
}

/// The move generator lists every legal successor: the legal successors of
/// a position are the positions that legal moves lead to, no more and no
/// fewer.
pub proof fn lemma_legal_moves_listed(v: BoardView, child: BoardView)
    requires
        v.inv(),
    ensures
        v.is_legal_move_to(child) <==> exists|i: int|
            0 <= i < v.moves().len() && #[trigger] v.moves()[i] == child,
{
    let steps = v.pawn_moves();
    if v.steps_to(child) {
        let to = choose|to: int| v.is_target(to) && child == #[trigger] v.after_step(to);
        let (d, j) = choose|d: Direction, j: int|
            0 <= j < v.pawn_targets(d).len() && #[trigger] v.pawn_targets(d)[j] == to;
        lemma_step_is_listed(v, d, j);
        let i = choose|i: int| 0 <= i < steps.len() && #[trigger] steps[i] == child;
        assert(v.moves()[i] == child);
    } else if v.walls_to(child, true) {
        let (slot, horizontal) = choose|slot: int, horizontal: bool|
            {
                &&& v.can_place(slot, horizontal)
                &&& true ==> v.after_wall(slot, horizontal).paths_exist()
                &&& child == #[trigger] v.after_wall(slot, horizontal)
            };
        lemma_wall_is_listed(v, 64, true, slot, horizontal);
        let i = choose|i: int|
            0 <= i < v.wall_moves(true).len() && #[trigger] v.wall_moves(true)[i] == child;
        assert(v.moves()[steps.len() + i] == child);
    }
    if exists|i: int| 0 <= i < v.moves().len() && #[trigger] v.moves()[i] == child {
        let i = choose|i: int| 0 <= i < v.moves().len() && #[trigger] v.moves()[i] == child;
        lemma_listed_moves(v, false, true, false, i);
    }
}

/// Where a move leads somewhere, the move generator has something to list,
/// also where it does not ask whether the walls leave each player a route
/// and lists a winning move alone.
pub proof fn lemma_move_is_listed(v: BoardView, child: BoardView)
    requires
        v.inv(),
        v.is_move_to(child),
    ensures
        v.moves_detailed(false, false, true).len() > 0,
{
    let steps = v.pawn_moves();
    crate::moves::lemma_first_win_is_first(steps);
    if v.steps_to(child) {
        let to = choose|to: int| v.is_target(to) && child == #[trigger] v.after_step(to);
        let (d, j) = choose|d: Direction, j: int|
            0 <= j < v.pawn_targets(d).len() && #[trigger] v.pawn_targets(d)[j] == to;
        lemma_step_is_listed(v, d, j);
    } else {
        let (slot, horizontal) = choose|slot: int, horizontal: bool|
            {
                &&& v.can_place(slot, horizontal)
                &&& false ==> v.after_wall(slot, horizontal).paths_exist()
                &&& child == #[trigger] v.after_wall(slot, horizontal)
            };
        lemma_wall_is_listed(v, 64, false, slot, horizontal);
    }
}

/// Every legal successor of a legal position is a legal position: the pawns
/// stand on different squares, twenty walls are in the game, no slot holds
/// two walls, no two walls overlap, and each player can still reach the goal
/// row.
pub proof fn lemma_successors_legal(v: BoardView, i: int)
    requires
        v.inv(),
        v.legal(),
        0 <= i < v.moves().len(),
    ensures
        v.moves()[i].inv(),
        v.moves()[i].legal(),
{
    let child = v.moves()[i];
    let steps = v.pawn_moves();
    if i < steps.len() {
        assert(child == steps[i]);
        lemma_pawn_moves_step(v, 4, i);
        let (d, j) = choose|d: Direction, j: int|
            0 <= j < v.pawn_targets(d).len() && steps[i] == v.after_step(
                #[trigger] v.pawn_targets(d)[j],
            );
        lemma_step_keeps_legal(v, d, j);
    } else {
        lemma_wall_moves_place(v, 64, true, i - steps.len());
        assert(child == v.wall_moves(true)[i - steps.len()]);
        let (slot, horizontal) = choose|slot: int, horizontal: bool|
            {
                &&& v.can_place(slot, horizontal)
                &&& true ==> v.after_wall(slot, horizontal).paths_exist()
                &&& child == #[trigger] v.after_wall(slot, horizontal)
            };
        lemma_wall_keeps_legal(v, slot, horizontal);
    }
}

/// The last time a walk of `n` steps stands on the square it began on.
proof fn lemma_last_visit(from: int, route: Seq<u8>, n: int) -> (j: int)
    requires
        0 <= n <= route.len(),
    ensures
        0 <= j <= n,
        Walls::before(from, route, j) == from,
        forall|i: int| j < i <= n ==> Walls::before(from, route, i) != from,
    decreases n,
{
    if n == 0 {
        0
    } else if Walls::before(from, route, n) == from {
        n
    } else {
        lemma_last_visit(from, route, n - 1)
    }
}

/// Where the pawn can set out in a direction and get somewhere, the player
/// to move has a move.
proof fn lemma_target_is_move(v: BoardView, d: Direction)
    requires
        v.pawn_targets(d).len() >= 1,
    ensures
        v.pawn_moves().len() >= 1,
        v.moves().len() >= 1,
{
    assert(v.pawn_moves_in(d).len() >= 1);
    reveal_with_fuel(BoardView::pawn_moves_upto, 5);
    assert(d == Direction::of_rank(d.rank()));
}

/// In a legal position that has no winner, the player to move has a pawn
/// move, and so a legal move.
pub proof fn lemma_some_move(v: BoardView)
    requires
        v.inv(),
        v.legal(),
        v.winner() is None,
    ensures
        v.pawn_moves().len() >= 1,
        v.moves().len() >= 1,
{
    let mover = v.turn;
    let other = mover.opponent();
    let pawn = v.pawn(mover);
    let rival = v.pawn(other);
    let route = choose|route: Seq<u8>| v.walls.is_route(mover, pawn, route);
    let j = lemma_last_visit(pawn, route, route.len() as int);
    assert(j < route.len()) by {
        if j == route.len() {
            assert(Walls::before(pawn, route, j) == route.last() as int);
        }
    }
    assert(v.walls.adjacent(Walls::before(pawn, route, j), route[j] as int));
    let d = lemma_direction_of(v.walls, pawn, route[j] as int);
    if route[j] as int != rival {
        lemma_target_is_move(v, d);
    } else if j + 1 < route.len() {
        assert(Walls::before(pawn, route, j + 1) == rival);
        assert(v.walls.adjacent(Walls::before(pawn, route, j + 1), route[j + 1] as int));
        let e = lemma_direction_of(v.walls, rival, route[j + 1] as int);
        assert(Walls::before(pawn, route, j + 2) == route[j + 1] as int);
        assert(e != d.reversed());
        assert(e == d || e == d.turned_left() || e == d.turned_right());
        lemma_target_is_move(v, d);
    } else {
        assert(mover.is_goal(rival));
        let back = choose|back: Seq<u8>| v.walls.is_route(other, rival, back);
        let k = lemma_last_visit(rival, back, back.len() as int);
        assert(k < back.len()) by {
            if k == back.len() {
                assert(Walls::before(rival, back, k) == back.last() as int);
            }
        }
        assert(v.walls.adjacent(Walls::before(rival, back, k), back[k] as int));
        let e = lemma_direction_of(v.walls, rival, back[k] as int);
        if back[k] as int != pawn {
            assert(e != d.reversed());
            assert(e == d || e == d.turned_left() || e == d.turned_right());
            lemma_target_is_move(v, d);
        } else {
            assert(k + 1 < back.len()) by {
                if k + 1 == back.len() {
                    assert(back.last() as int == pawn);
                }
            }
            assert(Walls::before(rival, back, k + 1) == pawn);
            assert(v.walls.adjacent(Walls::before(rival, back, k + 1), back[k + 1] as int));
            let f = lemma_direction_of(v.walls, pawn, back[k + 1] as int);
            assert(Walls::before(rival, back, k + 2) == back[k + 1] as int);
            assert(back[k + 1] as int != rival);
            lemma_target_is_move(v, f);
        }
    }
}

/// The lowest slot of a set is no higher than any slot in it.
proof fn lemma_first_slot(s: Set<int>, n: int, x: int)
    requires
        0 <= n <= x < 64,
        s.contains(x),
    ensures
        n <= first_slot(s, n) <= x,
    decreases 64 - n,
{
    if !s.contains(n) {
        lemma_first_slot(s, n + 1, x);
    }
}

/// Every position that the move generator lists differs from the position
/// as a move would have it, so that the move has a name.
pub proof fn lemma_listed_moves_have_names(
    v: BoardView,
    moves_only: bool,
    validate_paths: bool,
    return_wins: bool,
    i: int,
)
    requires
        v.inv(),
        0 <= i < v.moves_detailed(moves_only, validate_paths, return_wins).len(),
    ensures
        is_move(v, v.moves_detailed(moves_only, validate_paths, return_wins)[i]),
{
    let child = v.moves_detailed(moves_only, validate_paths, return_wins)[i];
    lemma_listed_moves(v, moves_only, validate_paths, return_wins, i);
    if v.steps_to(child) {
        let to = choose|to: int| v.is_target(to) && child == #[trigger] v.after_step(to);
        let (d, j) = choose|d: Direction, j: int|
            0 <= j < v.pawn_targets(d).len() && #[trigger] v.pawn_targets(d)[j] == to;
        lemma_target(v, d, j);
    } else {
        let (slot, horizontal) = choose|slot: int, horizontal: bool|
            {
                &&& v.can_place(slot, horizontal)
                &&& validate_paths ==> v.after_wall(slot, horizontal).paths_exist()
                &&& child == #[trigger] v.after_wall(slot, horizontal)
            };
        if horizontal {
            lemma_first_slot(child.walls.h.difference(v.walls.h), 0, slot);
        } else {
            lemma_first_slot(child.walls.v.difference(v.walls.v), 0, slot);
        }
    }
}

/// Every successor by a wall placement remembers no route.
pub proof fn lemma_wall_moves_forget(v: BoardView, validate_paths: bool, i: int)
    requires
        0 <= i < v.wall_moves(validate_paths).len(),
    ensures
        v.wall_moves(validate_paths)[i].white_route is None,
        v.wall_moves(validate_paths)[i].black_route is None,
{
    lemma_wall_moves_place(v, 64, validate_paths, i);
}

} // verus!
