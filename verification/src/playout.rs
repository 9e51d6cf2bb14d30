//! Playouts: games played to their end by a quick policy, to tell who is
//! likely to win a position.
//!
//! A playout ends where the player to move can win by a pawn move, or where
//! no walls are left and the race is settled by the lengths of the routes.
//! Before that, the player to move now and then places a wall that makes
//! the other's route much longer, now and then follows the own route, and
//! else moves at random.

use vstd::prelude::*;
use rand::rngs::StdRng;
use crate::board::Board;
use crate::dice::{roll_one_of, roll_ratio};
use crate::laws::{lemma_listed_moves, lemma_move_is_listed};
use crate::model::BoardView;
use crate::moves::{
    first_such, lemma_first_such, lemma_first_such_is_first, lemma_first_win_is_first, views,
};
use crate::square::Player;

verus! {

/// A wall is worth placing in a playout if it makes the other player's route
/// longer by more than this.
pub const SIM_EXTEND_PATH_THRESHOLD: usize = 1;

/// In one of this many turns of a playout the player to move looks for a
/// wall that makes the other player's route longer.
pub const SIM_EXTEND_PATH_ONE_IN: u32 = 10;

/// In one of this many turns of a playout the player to move follows the
/// own route.
pub const SIM_SHORTEST_WALK_ONE_IN: u32 = 2;

impl BoardView {
    /// The number of steps `player` needs to the goal row.
    pub open spec fn distance(self, player: Player) -> nat {
        self.walls.distance(player, self.pawn(player))
    }

    /// The winner of the race when no wall can be placed any more: the player
    /// to move if that player's route is no longer than the other's, else
    /// the other player.
    pub open spec fn race_winner(self) -> Player {
        if self.distance(self.turn) <= self.distance(self.turn.opponent()) {
            self.turn
        } else {
            self.turn.opponent()
        }
    }

    /// The winner of a position that is decided: the player to move if a
    /// pawn move wins, else the winner of the race if neither player has a
    /// wall left.
    pub open spec fn verdict(self) -> Option<Player> {
        if self.can_win() {
            Some(self.turn)
        } else if self.white_stock == 0 && self.black_stock == 0 {
            Some(self.race_winner())
        } else {
            None
        }
    }

    /// The winner a playout names when it ends in this position: the winner
    /// of the position if it is decided, else the winner of the race.
    pub open spec fn called(self) -> Player {
        match self.verdict() {
            Some(winner) => winner,
            None => self.race_winner(),
        }
    }

    /// Whether in `child` the route of the player who is not to move here is
    /// longer than it is here by more than the threshold.
    pub open spec fn extends_rival(self, child: BoardView) -> bool {
        child.distance(self.turn.opponent()) > self.distance(self.turn.opponent())
            + SIM_EXTEND_PATH_THRESHOLD
    }

    /// What it is for a successor to make the other player's route much
    /// longer.
    pub open spec fn extending(self) -> spec_fn(BoardView) -> bool {
        |child: BoardView| self.extends_rival(child)
    }

    /// What it is for a successor to have the mover's pawn on `sq`.
    pub open spec fn landing_on(self, sq: int) -> spec_fn(BoardView) -> bool {
        |child: BoardView| child.pawn(self.turn) == sq
    }

    /// The first legal successor that makes the other player's route much
    /// longer, if there is one.
    pub open spec fn extending_move(self) -> Option<BoardView> {
        let i = first_such(self.moves(), self.extending());
        if i < self.moves().len() {
            Some(self.moves()[i])
        } else {
            None
        }
    }

    /// The first pawn move onto the first square of the mover's route, if
    /// the mover has a route and a pawn move leads there.
    pub open spec fn route_move(self) -> Option<BoardView> {
        let route = self.walls.best_route(self.turn, self.pawn(self.turn));
        let steps = self.pawn_moves();
        if route.len() > 0 {
            let i = first_such(steps, self.landing_on(route[0] as int));
            if i < steps.len() {
                Some(steps[i])
            } else {
                None
            }
        } else {
            None
        }
    }

}

impl BoardView {
    /// The successors that a playout picks from at random: every move, or
    /// the first winning pawn move alone, whether or not it leaves each
    /// player a route.
    pub open spec fn playout_moves(self) -> Seq<BoardView> {
        self.moves_detailed(false, false, true)
    }

    /// Whether `child` is a move of the playout policy: the first wall that
    /// makes the other player's route much longer, if the mover has a wall;
    /// or the step along the mover's route; or one of the successors that
    /// the playout picks from at random, one that leaves each player a route
    /// if any of them does.
    pub open spec fn is_playout_move(self, child: BoardView) -> bool {
        ||| self.stock(self.turn) > 0 && self.extending_move() == Some(child)
        ||| self.route_move() == Some(child)
        ||| exists|i: int|
            {
                &&& 0 <= i < self.playout_moves().len()
                &&& #[trigger] self.playout_moves()[i] == child
                &&& child.paths_exist() || forall|j: int|
                    0 <= j < self.playout_moves().len() ==> !(
                    #[trigger] self.playout_moves()[j]).paths_exist()
            }
    }
}

/// Whether `line` is the line of a playout: each of its positions but the
/// last is undecided, and a move of the playout policy leads from it to the
/// next.
pub open spec fn is_playout(line: Seq<BoardView>) -> bool {
    forall|i: int|
        0 <= i < line.len() - 1 ==> (#[trigger] line[i]).verdict() is None
            && line[i].is_playout_move(line[i + 1])
}

/// A move of the playout policy is a move.
pub proof fn lemma_playout_move(v: BoardView, child: BoardView)
    requires
        v.inv(),
        v.is_playout_move(child),
    ensures
        v.is_move_to(child),
        v.playout_moves().len() > 0,
{
    if v.stock(v.turn) > 0 && v.extending_move() == Some(child) {
        let i = first_such(v.moves(), v.extending());
        lemma_first_such_is_first(v.moves(), v.extending());
        lemma_listed_moves(v, false, true, false, i);
    } else if v.route_move() == Some(child) {
        let route = v.walls.best_route(v.turn, v.pawn(v.turn));
        let i = first_such(v.pawn_moves(), v.landing_on(route[0] as int));
        lemma_first_win_is_first(v.pawn_moves());
        lemma_first_such_is_first(v.pawn_moves(), v.landing_on(route[0] as int));
        assert(v.moves_detailed(true, false, false) == v.pawn_moves());
        lemma_listed_moves(v, true, false, false, i);
    } else {
        let i = choose|i: int|
            0 <= i < v.playout_moves().len() && #[trigger] v.playout_moves()[i] == child;
        lemma_listed_moves(v, false, false, true, i);
    }
    lemma_move_is_listed(v, child);
}

/// The winner of the race on the board.
pub fn race_winner(board: &Board) -> (winner: Player)
    requires
        board.inv(),
    ensures
        winner == board@.race_winner(),
{
    let mover = board.turn();
    if board.distance(mover) <= board.distance(mover.other()) {
        mover
    } else {
        mover.other()
    }
}

/// The winner of the board if it is decided.
pub fn verdict(board: &Board) -> (winner: Option<Player>)
    requires
        board.inv(),
    ensures
        winner == board@.verdict(),
{
    if board.can_win() {
        return Some(board.turn());
    }
    let stocks = board.remaining_walls();
    if stocks[0] == 0 && stocks[1] == 0 {
        return Some(race_winner(board));
    }
    None
}

/// The first legal successor of the board that makes the other player's
/// route longer by more than the threshold, if there is one.
pub fn extending_wall(board: &Board) -> (r: Option<Board>)
    requires
        board.inv(),
    ensures
        (match r {
            Some(child) => child.inv() && board@.extending_move() == Some(child@),
            None => board@.extending_move() is None,
        }),
{
    let rival = board.turn().other();
    let before = board.distance(rival);
    let mut moves = board.moves();
    let mut i: usize = 0;
    while i < moves.len()
        invariant
            i <= moves.len(),
            board.inv(),
            rival == board@.turn.opponent(),
            before == board@.distance(rival),
            views(moves@) == board@.moves(),
            forall|j: int| 0 <= j < moves@.len() ==> (#[trigger] moves@[j]).inv(),
            forall|j: int| 0 <= j < i ==> !(board@.extending())(#[trigger] board@.moves()[j]),
        decreases moves.len() - i,
    {
        let after = moves[i].distance(rival);
        proof {
            assert(views(moves@)[i as int] == moves@[i as int]@);
        }
        if after > before && after - before > SIM_EXTEND_PATH_THRESHOLD {
            proof {
                lemma_first_such(board@.moves(), board@.extending(), i as int);
            }
            let child = moves.remove(i);
            return Some(child);
        }
        i = i + 1;
    }
    proof {
        lemma_first_such(board@.moves(), board@.extending(), moves@.len() as int);
    }
    None
}

/// The first pawn move of the board onto the first square of the mover's
/// route, if the mover has a route and a pawn move leads there.
pub fn route_step(board: &Board) -> (r: Option<Board>)
    requires
        board.inv(),
    ensures
        (match r {
            Some(child) => child.inv() && board@.route_move() == Some(child@),
            None => board@.route_move() is None,
        }),
{
    let mover = board.turn();
    let route = board.find_route(mover);
    if route.len() == 0 {
        return None;
    }
    let first = route[0];
    let mut steps = board.moves_detailed(true, false, false);
    let mut i: usize = 0;
    while i < steps.len()
        invariant
            i <= steps.len(),
            board.inv(),
            mover == board@.turn,
            route@.len() > 0,
            route@ == board@.walls.best_route(mover, board@.pawn(mover)),
            first == route@[0],
            views(steps@) == board@.pawn_moves(),
            forall|j: int| 0 <= j < steps@.len() ==> (#[trigger] steps@[j]).inv(),
            forall|j: int|
                0 <= j < i ==> !(board@.landing_on(first as int))(
                    #[trigger] board@.pawn_moves()[j],
                ),
        decreases steps.len() - i,
    {
        proof {
            assert(views(steps@)[i as int] == steps@[i as int]@);
        }
        if steps[i].pawn_of(mover) == first {
            proof {
                lemma_first_such(board@.pawn_moves(), board@.landing_on(first as int), i as int);
            }
            let child = steps.remove(i);
            return Some(child);
        }
        i = i + 1;
    }
    proof {
        lemma_first_such(
            board@.pawn_moves(),
            board@.landing_on(first as int),
            steps@.len() as int,
        );
    }
    None
}

/// Takes `choice` out of the list of choices.
pub fn strike(choices: &mut Vec<usize>, choice: usize)
    requires
        old(choices)@.contains(choice),
        old(choices)@.no_duplicates(),
    ensures
        final(choices)@.no_duplicates(),
        final(choices)@.len() == old(choices)@.len() - 1,
        forall|x: usize| final(choices)@.contains(x) <==> old(choices)@.contains(x) && x != choice,
{
    let mut i: usize = 0;
    while i < choices.len()
        invariant
            i <= choices.len(),
            choices@ == old(choices)@,
            choices@.contains(choice),
            choices@.no_duplicates(),
            forall|j: int| 0 <= j < i ==> choices@[j] != choice,
        decreases choices.len() - i,
    {
        if choices[i] == choice {
            let ghost before = choices@;
            choices.remove(i);
            proof {
                assert(choices@ == before.remove(i as int));
                assert forall|x: usize| choices@.contains(x) <==> before.contains(x) && x
                    != choice by {
                    if choices@.contains(x) {
                        let j = choose|j: int| 0 <= j < choices@.len() && choices@[j] == x;
                        if j < i {
                            assert(before[j] == x);
                        } else {
                            assert(before[j + 1] == x);
                        }
                    }
                    if before.contains(x) && x != choice {
                        let j = choose|j: int| 0 <= j < before.len() && before[j] == x;
                        if j < i {
                            assert(choices@[j] == x);
                        } else {
                            assert(choices@[j - 1] == x);
                        }
                    }
                }
            }
            return ;
        }
        i = i + 1;
    }
}

/// The index of a move picked at random, without picking one twice, until
/// one is picked that leaves each player a route; if none does, the last one
/// picked.
pub fn draw_move(moves: &Vec<Board>, rng: &mut StdRng) -> (picked: usize)
    requires
        moves@.len() > 0,
        forall|j: int| 0 <= j < moves@.len() ==> (#[trigger] moves@[j]).inv(),
    ensures
        picked < moves@.len(),
        moves@[picked as int]@.paths_exist() || forall|j: int|
            0 <= j < moves@.len() ==> !(#[trigger] moves@[j])@.paths_exist(),
{
    let mut choices: Vec<usize> = Vec::new();
    let mut k: usize = 0;
    while k < moves.len()
        invariant
            k <= moves.len(),
            choices@.len() == k,
            forall|j: int| 0 <= j < k ==> choices@[j] == j,
        decreases moves.len() - k,
    {
        choices.push(k);
        k = k + 1;
    }
    proof {
        assert forall|x: usize| x < moves@.len() implies #[trigger] choices@.contains(x) by {
            assert(choices@[x as int] == x);
        }
    }
    let mut picked: usize = 0;
    loop
        invariant_except_break
            choices@.len() > 0,
            forall|x: usize|
                x < moves@.len() && !(#[trigger] choices@.contains(x)) ==> !moves@[x as int]@
                    .paths_exist(),
        invariant
            choices@.no_duplicates(),
            forall|x: usize| choices@.contains(x) ==> x < moves@.len(),
            forall|j: int| 0 <= j < moves@.len() ==> (#[trigger] moves@[j]).inv(),
        ensures
            picked < moves@.len(),
            moves@[picked as int]@.paths_exist() || forall|x: usize|
                x < moves@.len() ==> !(#[trigger] moves@[x as int])@.paths_exist(),
        decreases choices@.len(),
    {
        let choice = roll_one_of(rng, &choices);
        strike(&mut choices, choice);
        picked = choice;
        if moves[choice].paths_exist() {
            break ;
        }
        if choices.len() == 0 {
            proof {
                assert forall|x: usize| x < moves@.len() implies !(
                #[trigger] moves@[x as int])@.paths_exist() by {
                    assert(!choices@.contains(x));
                }
            }
            break ;
        }
    }
    proof {
        if !moves@[picked as int]@.paths_exist() {
            assert forall|j: int| 0 <= j < moves@.len() implies !(
            #[trigger] moves@[j])@.paths_exist() by {
                assert(moves@[(j as usize) as int] == moves@[j]);
            }
        }
    }
    picked
}

/// The next position of a playout: now and then after a wall that makes the
/// other player's route much longer, now and then after a step along the
/// mover's own route, else after a move picked at random, one that leaves
/// each player a route if there is one. None if the player to move has no
/// move.
pub fn playout_move(board: &Board, rng: &mut StdRng) -> (next: Option<Board>)
    requires
        board.inv(),
    ensures
        next matches Some(child) ==> child.inv() && board@.is_playout_move(child@),
        next is None <==> board@.playout_moves().len() == 0,
{
    let stocks = board.remaining_walls();
    if stocks[board.turn().index()] > 0 && roll_ratio(rng, 1, SIM_EXTEND_PATH_ONE_IN) {
        match extending_wall(board) {
            Some(child) => {
                proof {
                    lemma_playout_move(board@, child@);
                }
                return Some(child);
            },
            None => {},
        }
    }
    if roll_ratio(rng, 1, SIM_SHORTEST_WALK_ONE_IN) {
        match route_step(board) {
            Some(child) => {
                proof {
                    lemma_playout_move(board@, child@);
                }
                return Some(child);
            },
            None => {},
        }
    }
    let mut moves = board.moves_detailed(false, false, true);
    if moves.len() == 0 {
        return None;
    }
    let picked = draw_move(&moves, rng);
    proof {
        assert(views(moves@)[picked as int] == moves@[picked as int]@);
        assert forall|j: int| 0 <= j < moves@.len() implies (#[trigger] views(moves@)[j])
            == moves@[j]@ by {}
        assert(board@.playout_moves()[picked as int] == moves@[picked as int]@);
    }
    let child = moves.remove(picked);
    Some(child)
}

/// Plays the board out and names the winner. The playout stops where the
/// position is decided, where the player to move has no move, and after
/// `limit` moves at the latest; where it stops undecided, the race decides.
pub fn simulate(board: &Board, rng: &mut StdRng, limit: u32) -> (winner: Player)
    requires
        board.inv(),
    ensures
        exists|line: Seq<BoardView>|
            {
                &&& #[trigger] is_playout(line)
                &&& 0 < line.len() <= limit + 1
                &&& line[0] == board@
                &&& winner == line.last().called()
                &&& {
                    ||| line.last().verdict() is Some
                    ||| line.last().playout_moves().len() == 0
                    ||| line.len() == limit + 1
                }
            },
{
    let mut current = board.duplicate();
    let mut plies: u32 = 0;
    let ghost mut line = seq![board@];
    loop
        invariant
            current.inv(),
            plies <= limit,
            is_playout(line),
            line.len() == plies + 1,
            line[0] == board@,
            line.last() == current@,
        decreases limit - plies,
    {
        match verdict(&current) {
            Some(winner) => {
                return winner;
            },
            None => {},
        }
        if plies == limit {
            return race_winner(&current);
        }
        match playout_move(&current, rng) {
            Some(next) => {
                proof {
                    let longer = line.push(next@);
                    assert forall|i: int| 0 <= i < longer.len() - 1 implies (
                    #[trigger] longer[i]).verdict() is None && longer[i].is_playout_move(
                        longer[i + 1],
                    ) by {
                        if i < line.len() - 1 {
                            assert(longer[i] == line[i]);
                            assert(longer[i + 1] == line[i + 1]);
                        }
                    }
                    line = longer;
                }
                current = next;
                plies = plies + 1;
            },
            None => {
                return race_winner(&current);
            },
        }
    }
}

} // verus!
