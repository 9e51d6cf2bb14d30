//! A search of fixed depth: every line of play is followed for
//! [`DEPTH`] moves, the positions at the end are valued by what the players
//! have in hand and how far they have to go, and each player is taken to
//! choose what is best for that player.

use vstd::prelude::*;
use vstd::string::*;
use crate::board::Board;
use crate::model::BoardView;
use crate::moves::views;
use crate::square::Player;
use crate::text::{decimal, push_decimal};

verus! {

/// The number of moves that the search looks ahead.
pub const DEPTH: u8 = 2;

/// The value of a position for the player to move.
#[derive(Clone, Copy, Debug, PartialEq, Eq, Structural)]
pub enum Score {
    /// The position is lost.
    NegInf,
    /// The position is worth so many points.
    Finite(i64),
    /// The position is won.
    PosInf,
}

impl Score {
    /// The same value for the other player.
    pub open spec fn negated(self) -> Score {
        match self {
            Score::NegInf => Score::PosInf,
            Score::PosInf => Score::NegInf,
            Score::Finite(points) => Score::Finite((-points) as i64),
        }
    }

    /// Whether this value is greater than `other`.
    pub open spec fn above(self, other: Score) -> bool {
        match (self, other) {
            (Score::NegInf, _) => false,
            (Score::Finite(_), Score::NegInf) => true,
            (Score::Finite(a), Score::Finite(b)) => a > b,
            (Score::Finite(_), Score::PosInf) => false,
            (Score::PosInf, Score::PosInf) => false,
            (Score::PosInf, _) => true,
        }
    }

    /// Whether the value is one that a position can have: no position is
    /// worth more than 5000 points to either player.
    pub open spec fn small(self) -> bool {
        self matches Score::Finite(points) ==> -5000 <= points <= 5000
    }

    /// The value as it is written: `inf`, `-inf` or the number of points.
    pub open spec fn text(self) -> Seq<char> {
        match self {
            Score::NegInf => "-inf"@,
            Score::PosInf => "inf"@,
            Score::Finite(points) => if points < 0 {
                "-"@ + decimal((-points) as nat)
            } else {
                decimal(points as nat)
            },
        }
    }

    /// The same value for the other player.
    pub fn negate(self) -> (r: Score)
        requires
            self.small(),
        ensures
            r == self.negated(),
            r.small(),
    {
        match self {
            Score::NegInf => Score::PosInf,
            Score::PosInf => Score::NegInf,
            Score::Finite(points) => Score::Finite(-points),
        }
    }

    /// Whether this value is greater than `other`.
    pub fn is_above(self, other: Score) -> (r: bool)
        ensures
            r == self.above(other),
    {
        match (self, other) {
            (Score::NegInf, _) => false,
            (Score::Finite(_), Score::NegInf) => true,
            (Score::Finite(a), Score::Finite(b)) => a > b,
            (Score::Finite(_), Score::PosInf) => false,
            (Score::PosInf, Score::PosInf) => false,
            (Score::PosInf, _) => true,
        }
    }

    /// Appends the value to `log` as it is written.
    pub fn write(self, log: &mut String)
        requires
            self.small(),
        ensures
            final(log)@ == old(log)@ + self.text(),
    {
        match self {
            Score::NegInf => log.append("-inf"),
            Score::PosInf => log.append("inf"),
            Score::Finite(points) => {
                if points < 0 {
                    log.append("-");
                    push_decimal(log, (-points) as u64);
                    proof {
                        assert(log@ =~= old(log)@ + self.text());
                    }
                } else {
                    push_decimal(log, points as u64);
                }
            },
        }
    }
}

/// The first square of the goal row of `player`.
pub open spec fn goal_base(player: Player) -> int {
    match player {
        Player::White => 0,
        Player::Black => 72,
    }
}

impl BoardView {
    /// The distances along trails of the first `n` squares of the goal row
    /// of `player`, taken together.
    pub open spec fn win_steps_upto(self, player: Player, n: int) -> int
        decreases n,
    {
        if n <= 0 {
            0
        } else {
            self.win_steps_upto(player, n - 1) + self.walls.trail_distance(
                player,
                self.pawn(player),
                self.pawn(player.opponent()),
                goal_base(player) + n - 1,
            )
        }
    }

    /// The distances along trails of the squares of the goal row of
    /// `player`, taken together.
    pub open spec fn win_steps(self, player: Player) -> int {
        self.win_steps_upto(player, 9)
    }

    /// The value of the position for the player to move, without looking
    /// ahead. A position with a winner is won or lost. So is one in which
    /// neither player has a wall left: the player to move wins if that
    /// player's route is no longer than the other's. Else ten points are
    /// counted for each wall that the player to move has more than the
    /// other, ten for each step that the other's route is longer, and one
    /// for each step that the other has further to go to the squares of the
    /// goal row.
    pub open spec fn evaluation(self) -> Score {
        let mover = self.turn;
        let other = mover.opponent();
        match self.winner() {
            Some(winner) => if winner == mover {
                Score::PosInf
            } else {
                Score::NegInf
            },
            None => if self.white_stock == 0 && self.black_stock == 0 {
                if self.walls.distance(mover, self.pawn(mover)) <= self.walls.distance(
                    other,
                    self.pawn(other),
                ) {
                    Score::PosInf
                } else {
                    Score::NegInf
                }
            } else {
                Score::Finite(
                    (10 * (self.stock(mover) - self.stock(other)) + 10 * (self.walls.distance(
                        other,
                        self.pawn(other),
                    ) - self.walls.distance(mover, self.pawn(mover))) + (self.win_steps(other)
                        - self.win_steps(mover))) as i64,
                )
            },
        }
    }

    /// The value of the position for the player to move, `depth` moves into
    /// the search: its value without looking ahead if the search ends here,
    /// else the best that a move brings.
    pub open spec fn search_value(self, depth: nat) -> Score
        decreases DEPTH - depth, 1int, 0int,
    {
        if depth >= DEPTH {
            self.evaluation()
        } else {
            self.best_reply(depth, self.moves().len())
        }
    }

    /// The best that one of the first `k` legal moves brings, `depth` moves
    /// into the search: the value of the successor for the other player,
    /// turned round. Lost if there is no move.
    pub open spec fn best_reply(self, depth: nat, k: nat) -> Score
        decreases DEPTH - depth, 0int, k,
    {
        if depth >= DEPTH || k == 0 || k > self.moves().len() {
            Score::NegInf
        } else {
            let before = self.best_reply(depth, (k - 1) as nat);
            let brought = self.moves()[k - 1].search_value(depth + 1).negated();
            if brought.above(before) {
                brought
            } else {
                before
            }
        }
    }

    /// The index of the move that the search chooses among the first `k`
    /// legal moves: the first of those that bring the most; the first move
    /// of all if every move loses.
    pub open spec fn best_move(self, k: nat) -> int
        decreases k,
    {
        if k == 0 || k > self.moves().len() {
            0
        } else {
            let brought = self.moves()[k - 1].search_value(1).negated();
            if brought.above(self.best_reply(0, (k - 1) as nat)) {
                k - 1
            } else {
                self.best_move((k - 1) as nat)
            }
        }
    }

    /// The move that the search chooses: the move that wins at once, or the
    /// only move, if there is one; else the move that brings the most.
    pub open spec fn minimax(self) -> BoardView {
        let quick = self.moves_detailed(false, true, true);
        if quick.len() == 1 {
            quick[0]
        } else {
            self.moves()[self.best_move(self.moves().len())]
        }
    }

    /// What the search writes to the log: its name, its depth and, where it
    /// had to search, what the chosen move brings.
    pub open spec fn minimax_lines(self) -> Seq<char> {
        "minimax search\ndepth:\t"@ + decimal(DEPTH as nat) + "\n"@ + (if self.moves_detailed(
            false,
            true,
            true,
        ).len() == 1 {
            Seq::empty()
        } else {
            "score:\t"@ + self.best_reply(0, self.moves().len()).text() + "\n"@
        })
    }
}

/// The distances along trails of the squares of the goal row of `player`,
/// taken together.
pub fn count_win_steps(board: &Board, player: Player) -> (sum: u32)
    requires
        board.inv(),
    ensures
        sum == board@.win_steps(player),
        sum <= 729,
{
    let steps = board.walk_paths(player);
    let base: usize = match player {
        Player::White => 0,
        Player::Black => 72,
    };
    let mut sum: u32 = 0;
    let mut n: usize = 0;
    while n < 9
        invariant
            n <= 9,
            base == goal_base(player),
            sum == board@.win_steps_upto(player, n as int),
            sum <= 81 * n,
            forall|sq: int|
                0 <= sq < 81 ==> #[trigger] steps[sq] == board@.walls.trail_distance(
                    player,
                    board@.pawn(player),
                    board@.pawn(player.opponent()),
                    sq,
                ) && steps[sq] <= 81,
        decreases 9 - n,
    {
        sum = sum + steps[base + n];
        n = n + 1;
    }
    sum
}

/// The value of the board for the player to move, without looking ahead.
pub fn evaluate(board: &Board) -> (score: Score)
    requires
        board.inv(),
    ensures
        score == board@.evaluation(),
        score.small(),
{
    let mover = board.turn();
    let other = mover.other();
    match board.winner() {
        Some(winner) => {
            return if winner == mover {
                Score::PosInf
            } else {
                Score::NegInf
            };
        },
        None => {},
    }
    let stocks = board.remaining_walls();
    let mine = board.distance(mover) as i64;
    let theirs = board.distance(other) as i64;
    if stocks[0] == 0 && stocks[1] == 0 {
        return if mine <= theirs {
            Score::PosInf
        } else {
            Score::NegInf
        };
    }
    let my_steps = count_win_steps(board, mover) as i64;
    let their_steps = count_win_steps(board, other) as i64;
    let my_stock = stocks[mover.index()] as i64;
    let their_stock = stocks[other.index()] as i64;
    Score::Finite(10 * (my_stock - their_stock) + 10 * (theirs - mine) + (their_steps - my_steps))
}

/// The value of the board for the player to move, `depth` moves into the
/// search.
pub fn search(board: &Board, depth: u8) -> (score: Score)
    requires
        board.inv(),
    ensures
        score == board@.search_value(depth as nat),
        score.small(),
    decreases DEPTH - depth,
{
    if depth >= DEPTH {
        return evaluate(board);
    }
    let moves = board.moves();
    let mut best = Score::NegInf;
    let mut k: usize = 0;
    while k < moves.len()
        invariant
            k <= moves@.len(),
            depth < DEPTH,
            views(moves@) == board@.moves(),
            forall|j: int| 0 <= j < moves@.len() ==> (#[trigger] moves@[j]).inv(),
            best == board@.best_reply(depth as nat, k as nat),
            best.small(),
        decreases moves@.len() - k,
    {
        proof {
            assert(views(moves@)[k as int] == moves@[k as int]@);
        }
        let brought = search(&moves[k], depth + 1).negate();
        if brought.is_above(best) {
            best = brought;
        }
        k = k + 1;
    }
    best
}

/// Chooses a move by a search of fixed depth and writes to the log what it
/// did; see [`BoardView::minimax`].
pub fn minimax(board: &Board, log: &mut String) -> (next: Board)
    requires
        board.inv(),
        board@.moves().len() > 0,
    ensures
        next.inv(),
        next@ == board@.minimax(),
        final(log)@ == old(log)@ + board@.minimax_lines(),
{
    log.append("minimax search\ndepth:\t");
    push_decimal(log, DEPTH as u64);
    log.append("\n");
    let mut quick = board.moves_detailed(false, true, true);
    if quick.len() == 1 {
        proof {
            assert(views(quick@)[0] == quick@[0]@);
            assert(log@ =~= old(log)@ + board@.minimax_lines());
        }
        return quick.remove(0);
    }
    let mut moves = board.moves();
    let mut best = Score::NegInf;
    let mut chosen: usize = 0;
    let mut k: usize = 0;
    while k < moves.len()
        invariant
            k <= moves@.len(),
            moves@.len() > 0,
            views(moves@) == board@.moves(),
            forall|j: int| 0 <= j < moves@.len() ==> (#[trigger] moves@[j]).inv(),
            best == board@.best_reply(0, k as nat),
            best.small(),
            chosen == board@.best_move(k as nat),
            chosen < moves@.len(),
        decreases moves@.len() - k,
    {
        proof {
            assert(views(moves@)[k as int] == moves@[k as int]@);
        }
        let brought = search(&moves[k], 1).negate();
        if brought.is_above(best) {
            best = brought;
            chosen = k;
        }
        k = k + 1;
    }
    log.append("score:\t");
    best.write(log);
    log.append("\n");
    proof {
        assert(views(moves@)[chosen as int] == moves@[chosen as int]@);
        assert(log@ =~= old(log)@ + board@.minimax_lines());
    }
    moves.remove(chosen)
}

} // verus!
