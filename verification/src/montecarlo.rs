//! Two simple ways to choose a move: at random, and by playing every move
//! out a number of times and counting the wins.

use vstd::prelude::*;
use rand::rngs::StdRng;
use crate::board::Board;
use crate::dice::roll_below;
use crate::model::BoardView;
use crate::moves::views;
use crate::playout::{draw_move, race_winner};
use crate::square::Player;

verus! {

/// The number of times that each move is played out.
pub const MC_ITERATIONS: u32 = 100;

/// A game that is played out at random is cut off after this many moves.
pub const MC_LIMIT: u32 = 10000;

/// A legal successor of the board, picked at random.
pub fn random(board: &Board, rng: &mut StdRng) -> (next: Board)
    requires
        board.inv(),
        board@.moves().len() > 0,
    ensures
        next.inv(),
        exists|i: int| 0 <= i < board@.moves().len() && next@ == #[trigger] board@.moves()[i],
{
    let mut moves = board.moves();
    let picked = roll_below(rng, moves.len());
    proof {
        assert(views(moves@)[picked as int] == moves@[picked as int]@);
    }
    moves.remove(picked)
}

/// Whether `line` is the line of a game played at random: each of its
/// positions but the last has no winner, one of the players at least has a
/// wall left in it, and a move leads from it to the next.
pub open spec fn is_random_game(line: Seq<BoardView>) -> bool {
    forall|i: int|
        0 <= i < line.len() - 1 ==> {
            &&& !((#[trigger] line[i]).white_stock == 0 && line[i].black_stock == 0)
            &&& i > 0 ==> line[i].winner() is None
            &&& line[i].is_move_to(line[i + 1])
        }
}

/// The winner that a game played at random names where it ends: the winner
/// of the position if it has one and a move was made, else the winner of
/// the race.
pub open spec fn named_winner(line: Seq<BoardView>) -> Player {
    let end = line.last();
    if line.len() > 1 && end.winner() is Some {
        end.winner().unwrap()
    } else {
        end.race_winner()
    }
}

/// Plays the board out by moves picked at random, of those that leave each
/// player a route if there are any, and names the winner: the player whose
/// pawn comes to stand on the goal row, or the winner of the race once
/// neither player has a wall left. The game is cut off, and the race
/// decides, where the player to move has no move and after `limit` moves.
pub fn play_at_random(board: &Board, rng: &mut StdRng, limit: u32) -> (winner: Player)
    requires
        board.inv(),
    ensures
        exists|line: Seq<BoardView>|
            {
                &&& #[trigger] is_random_game(line)
                &&& 0 < line.len() <= limit + 1
                &&& line[0] == board@
                &&& winner == named_winner(line)
                &&& {
                    ||| line.len() > 1 && line.last().winner() is Some
                    ||| line.last().white_stock == 0 && line.last().black_stock == 0
                    ||| line.last().moves_detailed(false, false, true).len() == 0
                    ||| line.len() == limit + 1
                }
            },
{
    let mut current = board.duplicate();
    let mut plies: u32 = 0;
    let ghost mut line = seq![board@];
    loop
        invariant
            current.inv(),
            plies <= limit,
            is_random_game(line),
            line.len() == plies + 1,
            line[0] == board@,
            line.last() == current@,
            plies > 0 ==> current@.winner() is None,
        decreases limit - plies,
    {
        let stocks = current.remaining_walls();
        if stocks[0] == 0 && stocks[1] == 0 {
            return race_winner(&current);
        }
        if plies == limit {
            return race_winner(&current);
        }
        let mut moves = current.moves_detailed(false, false, true);
        if moves.len() == 0 {
            return race_winner(&current);
        }
        let picked = draw_move(&moves, rng);
        proof {
            crate::laws::lemma_listed_moves(current@, false, false, true, picked as int);
            assert(views(moves@)[picked as int] == moves@[picked as int]@);
        }
        let next = moves.remove(picked);
        proof {
            let longer = line.push(next@);
            assert forall|i: int| 0 <= i < longer.len() - 1 implies {
                &&& !((#[trigger] longer[i]).white_stock == 0 && longer[i].black_stock == 0)
                &&& i > 0 ==> longer[i].winner() is None
                &&& longer[i].is_move_to(longer[i + 1])
            } by {
                if i < line.len() - 1 {
                    assert(longer[i] == line[i]);
                    assert(longer[i + 1] == line[i + 1]);
                }
            }
            line = longer;
        }
        current = next;
        plies = plies + 1;
        match current.winner() {
            Some(winner) => {
                proof {
                    assert(is_random_game(line));
                    assert(line.last().winner() == Some(winner));
                    assert(winner == named_winner(line));
                }
                return winner;
            },
            None => {},
        }
    }
}

/// The index of the first of the counts that no count is above; 0 if there
/// are no counts.
pub fn most_wins(wins: &Vec<u32>) -> (best: usize)
    ensures
        wins@.len() == 0 ==> best == 0,
        wins@.len() > 0 ==> best < wins@.len(),
        forall|j: int| 0 <= j < wins@.len() ==> wins@[j] <= wins@[best as int],
        forall|j: int| 0 <= j < best ==> wins@[j] < wins@[best as int],
{
    let mut best: usize = 0;
    let mut most: u32 = 0;
    let mut i: usize = 0;
    while i < wins.len()
        invariant
            i <= wins@.len(),
            i == 0 ==> best == 0 && most == 0,
            i > 0 ==> best < i && most == wins@[best as int],
            forall|j: int| 0 <= j < i ==> wins@[j] <= most,
            forall|j: int| 0 <= j < best ==> wins@[j] < most,
        decreases wins@.len() - i,
    {
        if wins[i] > most || i == 0 {
            best = i;
            most = wins[i];
        }
        i = i + 1;
    }
    best
}

/// Chooses a move by playing each move out [`MC_ITERATIONS`] times: the move
/// that wins at once, or the only move, if there is one; else the first of
/// the moves after which the player to move won most often.
pub fn mc(board: &Board, rng: &mut StdRng) -> (next: Board)
    requires
        board.inv(),
        board@.moves_detailed(false, true, true).len() > 0,
    ensures
        next.inv(),
        exists|i: int|
            0 <= i < board@.moves_detailed(false, true, true).len() && next@
                == #[trigger] board@.moves_detailed(false, true, true)[i],
{
    let mut moves = board.moves_detailed(false, true, true);
    if moves.len() == 1 {
        proof {
            assert(views(moves@)[0] == moves@[0]@);
        }
        return moves.remove(0);
    }
    let mover = board.turn();
    let mut counts: Vec<u32> = Vec::new();
    let mut i: usize = 0;
    while i < moves.len()
        invariant
            i <= moves@.len(),
            counts@.len() == i,
            forall|j: int| 0 <= j < moves@.len() ==> (#[trigger] moves@[j]).inv(),
        decreases moves@.len() - i,
    {
        let mut wins: u32 = 0;
        let mut n: u32 = 0;
        while n < MC_ITERATIONS
            invariant
                n <= MC_ITERATIONS,
                wins <= n,
                i < moves@.len(),
                forall|j: int| 0 <= j < moves@.len() ==> (#[trigger] moves@[j]).inv(),
            decreases MC_ITERATIONS - n,
        {
            if play_at_random(&moves[i], rng, MC_LIMIT) == mover {
                wins = wins + 1;
            }
            n = n + 1;
        }
        counts.push(wins);
        i = i + 1;
    }
    let best = most_wins(&counts);
    proof {
        assert(views(moves@)[best as int] == moves@[best as int]@);
    }
    moves.remove(best)
}

} // verus!
