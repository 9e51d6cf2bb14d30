//! The legal-move generator: the pawn moves of the player to move, with
//! jumps over the other pawn, and the wall placements.

use vstd::prelude::*;
use crate::bits::{has_bit, slots};
use crate::board::Board;
use crate::laws::{lemma_listed_moves_have_names, lemma_successors_legal};
use crate::model::BoardView;
use crate::notation::is_move;
use crate::square::{Direction, Player};

verus! {

impl BoardView {
    /// Whether each player can walk from where the pawn stands onto the goal
    /// row.
    pub open spec fn paths_exist(self) -> bool {
        self.walls.connected(Player::White, self.white) && self.walls.connected(
            Player::Black,
            self.black,
        )
    }

    /// The squares the pawn of the player to move can go to by setting out
    /// in direction `d`: none if the edge is closed; the next square if it is
    /// free; else, over the other pawn, the square behind it if that edge is
    /// open, and if not the squares to its left and right whose edges are
    /// open, the left one first.
    pub open spec fn pawn_targets(self, d: Direction) -> Seq<int> {
        let pawn = self.pawn(self.turn);
        let rival = self.pawn(self.turn.opponent());
        let next = pawn + d.delta();
        if !self.walls.open(pawn, d) {
            Seq::empty()
        } else if next != rival {
            seq![next]
        } else if self.walls.open(next, d) {
            seq![next + d.delta()]
        } else {
            let left = d.turned_left();
            let right = d.turned_right();
            (if self.walls.open(next, left) {
                seq![next + left.delta()]
            } else {
                Seq::empty()
            }) + (if self.walls.open(next, right) {
                seq![next + right.delta()]
            } else {
                Seq::empty()
            })
        }
    }

    /// The positions after the pawn moves that set out in direction `d`.
    pub open spec fn pawn_moves_in(self, d: Direction) -> Seq<BoardView> {
        self.pawn_targets(d).map_values(|to: int| self.after_step(to))
    }

    /// The positions after the pawn moves that set out in one of the first
    /// `n` directions of the order North, South, East, West.
    pub open spec fn pawn_moves_upto(self, n: int) -> Seq<BoardView>
        decreases n,
    {
        if n <= 0 {
            Seq::empty()
        } else {
            self.pawn_moves_upto(n - 1) + self.pawn_moves_in(Direction::of_rank(n - 1))
        }
    }

    /// The positions after the pawn moves of the player to move.
    pub open spec fn pawn_moves(self) -> Seq<BoardView> {
        self.pawn_moves_upto(4)
    }

    /// Whether the player to move may place a wall of the given kind on
    /// `slot`: the slot is free, and no wall of that kind lies on a
    /// neighbouring slot, which is the slot before or after for a horizontal
    /// wall and the slot eight before or after for a vertical one.
    pub open spec fn can_place(self, slot: int, horizontal: bool) -> bool {
        &&& 0 <= slot < 64
        &&& !self.walls.h.contains(slot)
        &&& !self.walls.v.contains(slot)
        &&& if horizontal {
            !self.walls.h.contains(slot - 1) && !self.walls.h.contains(slot + 1)
        } else {
            !self.walls.v.contains(slot - 8) && !self.walls.v.contains(slot + 8)
        }
    }

    /// The position after a wall of the given kind on `slot`, if it may be
    /// placed there and, where `validate_paths` asks for it, leaves each
    /// player a route.
    pub open spec fn wall_move(self, slot: int, horizontal: bool, validate_paths: bool) -> Seq<
        BoardView,
    > {
        let child = self.after_wall(slot, horizontal);
        if self.can_place(slot, horizontal) && (!validate_paths || child.paths_exist()) {
            seq![child]
        } else {
            Seq::empty()
        }
    }

    /// The positions after the wall placements on the first `n` slots, slot
    /// by slot, the horizontal wall before the vertical one.
    pub open spec fn wall_moves_upto(self, n: int, validate_paths: bool) -> Seq<BoardView>
        decreases n,
    {
        if n <= 0 {
            Seq::empty()
        } else {
            self.wall_moves_upto(n - 1, validate_paths) + self.wall_move(
                n - 1,
                true,
                validate_paths,
            ) + self.wall_move(n - 1, false, validate_paths)
        }
    }

    /// The positions after the wall placements of the player to move.
    pub open spec fn wall_moves(self, validate_paths: bool) -> Seq<BoardView> {
        self.wall_moves_upto(64, validate_paths)
    }

    /// The index of the first position of `moves` that has a winner; the
    /// length of `moves` if none has.
    pub open spec fn first_win(moves: Seq<BoardView>) -> int {
        first_such(moves, has_winner())
    }

    /// The successors of the position.
    ///
    /// With `return_wins`, if a pawn move leads to a position that has a
    /// winner, the first such position alone. Else the positions after the
    /// pawn moves, followed, unless `moves_only` is set or the player to move
    /// has no wall left, by the positions after the wall placements.
    pub open spec fn moves_detailed(
        self,
        moves_only: bool,
        validate_paths: bool,
        return_wins: bool,
    ) -> Seq<BoardView> {
        let steps = self.pawn_moves();
        let win = Self::first_win(steps);
        if return_wins && win < steps.len() {
            seq![steps[win]]
        } else if moves_only || self.stock(self.turn) == 0 {
            steps
        } else {
            steps + self.wall_moves(validate_paths)
        }
    }

    /// The legal successors of the position.
    pub open spec fn moves(self) -> Seq<BoardView> {
        self.moves_detailed(false, true, false)
    }

    /// Whether some pawn move wins: it leads to a position whose winner is
    /// the player who moved.
    pub open spec fn can_win(self) -> bool {
        exists|i: int|
            0 <= i < self.pawn_moves().len() && (#[trigger] self.pawn_moves()[i]).winner() == Some(
                self.turn,
            )
    }

    /// What it is for a successor to be won by the player to move here.
    pub open spec fn winning(self) -> spec_fn(BoardView) -> bool {
        |child: BoardView| child.winner() == Some(self.turn)
    }

    /// The position after the first pawn move that wins, if there is one.
    pub open spec fn winning_move(self) -> Option<BoardView> {
        let i = first_such(self.pawn_moves(), self.winning());
        if i < self.pawn_moves().len() {
            Some(self.pawn_moves()[i])
        } else {
            None
        }
    }
}

/// A pawn move wins exactly where there is a first pawn move that wins, and
/// that move wins.
pub proof fn lemma_winning_move(v: BoardView)
    ensures
        v.can_win() <==> v.winning_move() is Some,
        v.winning_move() matches Some(child) ==> child.winner() == Some(v.turn),
        v.winning_move() matches Some(child) ==> exists|i: int|
            0 <= i < v.pawn_moves().len() && #[trigger] v.pawn_moves()[i] == child,
{
    let steps = v.pawn_moves();
    lemma_first_such_is_first(steps, v.winning());
    let k = first_such(steps, v.winning());
    if k < steps.len() {
        assert(steps[k].winner() == Some(v.turn));
    }
    if v.can_win() {
        let i = choose|i: int|
            0 <= i < steps.len() && (#[trigger] steps[i]).winner() == Some(v.turn);
        if k >= steps.len() {
            assert(!(v.winning())(steps[i]));
        }
    }
}

/// The index of the first position of `moves` that is `wanted`; the length
/// of `moves` if none is.
pub open spec fn first_such(moves: Seq<BoardView>, wanted: spec_fn(BoardView) -> bool) -> int
    decreases moves.len(),
{
    if moves.len() == 0 {
        0
    } else if wanted(moves[0]) {
        0
    } else {
        1 + first_such(moves.skip(1), wanted)
    }
}

/// What it is for a position to have a winner.
pub open spec fn has_winner() -> spec_fn(BoardView) -> bool {
    |m: BoardView| m.winner() is Some
}

/// The first wanted position is where none before it is wanted.
pub proof fn lemma_first_such(moves: Seq<BoardView>, wanted: spec_fn(BoardView) -> bool, k: int)
    requires
        0 <= k <= moves.len(),
        forall|i: int| 0 <= i < k ==> !wanted(#[trigger] moves[i]),
        k < moves.len() ==> wanted(moves[k]),
    ensures
        first_such(moves, wanted) == k,
    decreases k,
{
    if k > 0 {
        let rest = moves.skip(1);
        assert forall|i: int| 0 <= i < k - 1 implies !wanted(#[trigger] rest[i]) by {
            assert(rest[i] == moves[i + 1]);
        }
        lemma_first_such(rest, wanted, k - 1);
    }
}

/// The index of the first wanted position points at one, and none before it
/// is wanted.
pub proof fn lemma_first_such_is_first(moves: Seq<BoardView>, wanted: spec_fn(BoardView) -> bool)
    ensures
        0 <= first_such(moves, wanted) <= moves.len(),
        first_such(moves, wanted) < moves.len() ==> wanted(moves[first_such(moves, wanted)]),
        forall|i: int| 0 <= i < first_such(moves, wanted) ==> !wanted(#[trigger] moves[i]),
    decreases moves.len(),
{
    if moves.len() > 0 && !wanted(moves[0]) {
        let rest = moves.skip(1);
        lemma_first_such_is_first(rest, wanted);
        assert forall|i: int| 0 <= i < first_such(moves, wanted) implies !wanted(
            #[trigger] moves[i],
        ) by {
            if i > 0 {
                assert(rest[i - 1] == moves[i]);
            }
        }
    }
}

/// The first position with a winner is where none before it has one.
pub proof fn lemma_first_win(moves: Seq<BoardView>, k: int)
    requires
        0 <= k <= moves.len(),
        forall|i: int| 0 <= i < k ==> (#[trigger] moves[i]).winner() is None,
        k < moves.len() ==> moves[k].winner() is Some,
    ensures
        BoardView::first_win(moves) == k,
{
    lemma_first_such(moves, has_winner(), k);
}

/// The index of the first position with a winner points at one, and none
/// before it has a winner.
pub proof fn lemma_first_win_is_first(moves: Seq<BoardView>)
    ensures
        0 <= BoardView::first_win(moves) <= moves.len(),
        BoardView::first_win(moves) < moves.len() ==> moves[BoardView::first_win(
            moves,
        )].winner() is Some,
        forall|i: int|
            0 <= i < BoardView::first_win(moves) ==> (#[trigger] moves[i]).winner() is None,
{
    lemma_first_such_is_first(moves, has_winner());
}

/// Whether a pawn move could win: the pawn of the player to move stands on
/// its goal row or next to it, or two rows from it right behind the other
/// pawn.
pub open spec fn win_in_reach(v: BoardView) -> bool {
    let pawn = v.pawn(v.turn);
    let rival = v.pawn(v.turn.opponent());
    match v.turn {
        Player::White => pawn < 18 || (pawn < 27 && rival + 9 == pawn),
        Player::Black => pawn > 62 || (pawn > 53 && rival == pawn + 9),
    }
}

/// Where no win is in reach, no pawn move that sets out in direction `d`
/// wins.
proof fn lemma_out_of_reach_in(v: BoardView, d: Direction)
    requires
        v.inv(),
        !win_in_reach(v),
    ensures
        forall|i: int|
            0 <= i < v.pawn_moves_in(d).len() ==> (#[trigger] v.pawn_moves_in(
                d,
            )[i]).winner() != Some(v.turn),
{
    let targets = v.pawn_targets(d);
    assert forall|i: int| 0 <= i < v.pawn_moves_in(d).len() implies (#[trigger] v.pawn_moves_in(
        d,
    )[i]).winner() != Some(v.turn) by {
        let to = targets[i];
        assert(v.pawn_moves_in(d)[i] == v.after_step(to));
    }
}

/// Where no win is in reach, no pawn move wins.
pub proof fn lemma_out_of_reach(v: BoardView)
    requires
        v.inv(),
        !win_in_reach(v),
    ensures
        !v.can_win(),
{
    let steps = v.pawn_moves();
    reveal_with_fuel(BoardView::pawn_moves_upto, 5);
    lemma_out_of_reach_in(v, Direction::North);
    lemma_out_of_reach_in(v, Direction::South);
    lemma_out_of_reach_in(v, Direction::East);
    lemma_out_of_reach_in(v, Direction::West);
    assert(steps =~= v.pawn_moves_in(Direction::North) + v.pawn_moves_in(Direction::South)
        + v.pawn_moves_in(Direction::East) + v.pawn_moves_in(Direction::West));
}

/// The views of a list of boards.
pub open spec fn views(boards: Seq<Board>) -> Seq<BoardView> {
    boards.map_values(|b: Board| b@)
}

impl Board {
    /// Adds the board after the pawn's move to `to` to the list.
    fn push_step(&self, moves: &mut Vec<Board>, to: u8)
        requires
            self.inv(),
            to < 81,
            forall|i: int| 0 <= i < old(moves)@.len() ==> (#[trigger] old(moves)@[i]).inv(),
        ensures
            views(final(moves)@) == views(old(moves)@).push(self@.after_step(to as int)),
            forall|i: int| 0 <= i < final(moves)@.len() ==> (#[trigger] final(moves)@[i]).inv(),
    {
        let child = self.stepped(to);
        moves.push(child);
        proof {
            assert(views(moves@) =~= views(old(moves)@).push(self@.after_step(to as int)));
        }
    }

    /// The boards after the pawn moves of the player to move.
    fn pawn_moves(&self) -> (moves: Vec<Board>)
        requires
            self.inv(),
        ensures
            views(moves@) == self@.pawn_moves(),
            forall|i: int| 0 <= i < moves@.len() ==> (#[trigger] moves@[i]).inv(),
    {
        let pawn = self.turn_pawn();
        let rival = self.other_pawn();
        let mut moves: Vec<Board> = Vec::new();
        let mut n: u8 = 0;
        proof {
            assert(views(moves@) =~= self@.pawn_moves_upto(0));
        }
        while n < 4
            invariant
                n <= 4,
                self.inv(),
                pawn == self@.pawn(self@.turn),
                rival == self@.pawn(self@.turn.opponent()),
                views(moves@) == self@.pawn_moves_upto(n as int),
                forall|i: int| 0 <= i < moves@.len() ==> (#[trigger] moves@[i]).inv(),
            decreases 4 - n,
        {
            let direction = Direction::nth(n);
            let ghost before = views(moves@);
            if self.is_open(pawn, &direction) {
                let next = direction.move_sqnum(pawn);
                if next != rival {
                    self.push_step(&mut moves, next);
                } else if self.is_open(next, &direction) {
                    self.push_step(&mut moves, direction.move_sqnum(next));
                } else {
                    let left = direction.left();
                    let right = direction.right();
                    if self.is_open(next, &left) {
                        self.push_step(&mut moves, left.move_sqnum(next));
                    }
                    if self.is_open(next, &right) {
                        self.push_step(&mut moves, right.move_sqnum(next));
                    }
                }
            }
            proof {
                assert(views(moves@) =~= before + self@.pawn_moves_in(direction));
            }
            n = n + 1;
        }
        moves
    }

    /// The successors of the board; see [`BoardView::moves_detailed`].
    pub fn moves_detailed(
        &self,
        moves_only: bool,
        validate_paths: bool,
        return_wins: bool,
    ) -> (moves: Vec<Board>)
        requires
            self.inv(),
        ensures
            views(moves@) == self@.moves_detailed(moves_only, validate_paths, return_wins),
            forall|i: int| 0 <= i < moves@.len() ==> (#[trigger] moves@[i]).inv(),
    {
        let mut moves = self.pawn_moves();
        if return_wins {
            let mut i: usize = 0;
            while i < moves.len()
                invariant
                    i <= moves.len(),
                    return_wins,
                    views(moves@) == self@.pawn_moves(),
                    forall|j: int| 0 <= j < moves@.len() ==> (#[trigger] moves@[j]).inv(),
                    forall|j: int| 0 <= j < i ==> (#[trigger] views(moves@)[j]).winner() is None,
                decreases moves.len() - i,
            {
                if moves[i].winner().is_some() {
                    proof {
                        lemma_first_win(views(moves@), i as int);
                    }
                    let ghost all = moves@;
                    let child = moves.remove(i);
                    let mut only: Vec<Board> = Vec::new();
                    only.push(child);
                    proof {
                        assert(child == all[i as int]);
                        assert(views(only@) =~= seq![views(all)[i as int]]);
                    }
                    return only;
                }
                i = i + 1;
            }
            proof {
                lemma_first_win(views(moves@), moves@.len() as int);
            }
        }
        let stock = self.remaining_walls()[self.turn().index()];
        if moves_only || stock == 0 {
            return moves;
        }
        let hwalls = self.hwalls();
        let vwalls = self.vwalls();
        let mut slot: u8 = 0;
        proof {
            assert(views(moves@) =~= self@.pawn_moves() + self@.wall_moves_upto(0, validate_paths));
        }
        while slot < 64
            invariant
                slot <= 64,
                self.inv(),
                self@.stock(self@.turn) > 0,
                slots(hwalls) == self@.walls.h,
                slots(vwalls) == self@.walls.v,
                views(moves@) == self@.pawn_moves() + self@.wall_moves_upto(
                    slot as int,
                    validate_paths,
                ),
                forall|j: int| 0 <= j < moves@.len() ==> (#[trigger] moves@[j]).inv(),
            decreases 64 - slot,
        {
            let ghost before = views(moves@);
            if !has_bit(hwalls, slot) && !has_bit(vwalls, slot) {
                if (slot == 0 || !has_bit(hwalls, slot - 1)) && (slot == 63 || !has_bit(
                    hwalls,
                    slot + 1,
                )) {
                    let child = self.walled(slot, true);
                    if !validate_paths || child.paths_exist() {
                        moves.push(child);
                    }
                }
                proof {
                    assert(views(moves@) =~= before + self@.wall_move(
                        slot as int,
                        true,
                        validate_paths,
                    ));
                }
                if (slot < 8 || !has_bit(vwalls, slot - 8)) && (slot > 55 || !has_bit(
                    vwalls,
                    slot + 8,
                )) {
                    let child = self.walled(slot, false);
                    if !validate_paths || child.paths_exist() {
                        moves.push(child);
                    }
                }
            }
            proof {
                assert(views(moves@) =~= before + self@.wall_move(slot as int, true, validate_paths)
                    + self@.wall_move(slot as int, false, validate_paths));
                assert(self@.pawn_moves() + self@.wall_moves_upto(slot as int, validate_paths)
                    + self@.wall_move(slot as int, true, validate_paths) + self@.wall_move(
                    slot as int,
                    false,
                    validate_paths,
                ) =~= self@.pawn_moves() + self@.wall_moves_upto(slot as int + 1, validate_paths));
            }
            slot = slot + 1;
        }
        moves
    }

    /// The board after the first pawn move that wins, if there is one.
    pub fn winning_move(&self) -> (r: Option<Board>)
        requires
            self.inv(),
        ensures
            (match r {
                Some(child) => child.inv() && self@.winning_move() == Some(child@),
                None => self@.winning_move() is None,
            }),
    {
        let pawn = self.turn_pawn();
        let rival = self.other_pawn();
        let mover = self.turn();
        let in_reach = match mover {
            Player::White => pawn < 18 || (pawn < 27 && rival + 9 == pawn),
            Player::Black => pawn > 62 || (pawn > 53 && rival == pawn + 9),
        };
        if !in_reach {
            proof {
                lemma_out_of_reach(self@);
                lemma_winning_move(self@);
            }
            return None;
        }
        let mut steps = self.pawn_moves();
        let mut i: usize = 0;
        while i < steps.len()
            invariant
                i <= steps.len(),
                mover == self@.turn,
                views(steps@) == self@.pawn_moves(),
                forall|j: int| 0 <= j < steps@.len() ==> (#[trigger] steps@[j]).inv(),
                forall|j: int|
                    0 <= j < i ==> !(self@.winning())(#[trigger] self@.pawn_moves()[j]),
            decreases steps.len() - i,
        {
            proof {
                assert(views(steps@)[i as int] == steps@[i as int]@);
            }
            let won = match steps[i].winner() {
                Some(winner) => winner == mover,
                None => false,
            };
            if won {
                proof {
                    lemma_first_such(self@.pawn_moves(), self@.winning(), i as int);
                }
                return Some(steps.remove(i));
            }
            i = i + 1;
        }
        proof {
            lemma_first_such(self@.pawn_moves(), self@.winning(), steps@.len() as int);
        }
        None
    }

    /// Whether some pawn move of the player to move, a jump too, wins: it
    /// leads to a position whose winner is the player who moved.
    pub fn can_win(&self) -> (r: bool)
        requires
            self.inv(),
        ensures
            r == self@.can_win(),
    {
        proof {
            lemma_winning_move(self@);
        }
        self.winning_move().is_some()
    }

    /// The legal successors of the board: the pawn moves, then the wall
    /// placements that leave each player a route. Each differs from the
    /// board as a move would have it, and each obeys the rules of the game
    /// if the board does.
    pub fn moves(&self) -> (moves: Vec<Board>)
        requires
            self.inv(),
        ensures
            views(moves@) == self@.moves(),
            forall|i: int| 0 <= i < moves@.len() ==> (#[trigger] moves@[i]).inv(),
            forall|i: int| 0 <= i < moves@.len() ==> is_move(self@, (#[trigger] moves@[i])@),
            self@.legal() ==> forall|i: int|
                0 <= i < moves@.len() ==> (#[trigger] moves@[i])@.legal(),
    {
        let moves = self.moves_detailed(false, true, false);
        proof {
            assert forall|i: int| 0 <= i < moves@.len() implies is_move(
                self@,
                (#[trigger] moves@[i])@,
            ) by {
                assert(views(moves@)[i] == moves@[i]@);
                lemma_listed_moves_have_names(self@, false, true, false, i);
            }
            if self@.legal() {
                assert forall|i: int| 0 <= i < moves@.len() implies (
                #[trigger] moves@[i])@.legal() by {
                    assert(views(moves@)[i] == moves@[i]@);
                    lemma_successors_legal(self@, i);
                }
            }
        }
        moves
    }
}

} // verus!
