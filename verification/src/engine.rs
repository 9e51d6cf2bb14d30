//! Choosing a move: what can be settled without a search, the searches of
//! the workers, and the choice among the children of the root.
//!
//! Each worker grows a tree of its own from the same position. For every
//! child of the root, the values that the workers found are added up, and
//! the child with the least sum is chosen: the values are those of the
//! player to move in the child, who is the opponent.

use vstd::prelude::*;
use vstd::string::*;
use rand::rngs::StdRng;
use crate::board::Board;
use crate::mcts::{
    grow, grown, lemma_child_proven, proven, visits_sum, Node, Outcome, Tally,
};
use crate::model::{BoardView, Walls};
use crate::moves::{first_such, lemma_first_win_is_first, lemma_winning_move, views};
use crate::playout::route_step;
use crate::text::{decimal, push_decimal};

verus! {

/// The number of iterations of each worker.
pub const ITERATIONS: u32 = 50000;

/// The number of workers.
pub const THREADS: usize = 2;

/// No tree that the choice is made from may have been visited more often
/// than this.
pub const MAX_VISITS: u32 = 0x4000_0000;

/// What the workers have proven of a child, for the player to move in it.
#[derive(Clone, Copy, Debug, PartialEq, Eq, Structural)]
pub enum Grade {
    /// A worker has proven the child lost: its value is below every number.
    Lost,
    /// No worker has proven anything.
    Open,
    /// A worker has proven the child won, and none has proven it lost: its
    /// value is above every number.
    Won,
}

/// The value of a child, added up over the workers: what is proven of it,
/// and the sum of the means as a fraction.
pub struct Value {
    pub grade: Grade,
    pub num: int,
    pub den: int,
}

impl Value {
    /// The value to which nothing was added.
    pub open spec fn zero() -> Value {
        Value { grade: Grade::Open, num: 0, den: 1 }
    }

    /// The value with what one worker found added: a proof takes the place
    /// of the sum, a loss before a win; else the mean of the worker's
    /// points is added, which is 0 where the worker never visited.
    pub open spec fn plus(self, tally: Tally) -> Value {
        match tally.proven {
            Some(Outcome::Loss) => Value { grade: Grade::Lost, ..self },
            Some(Outcome::Win) => Value {
                grade: if self.grade == Grade::Lost {
                    Grade::Lost
                } else {
                    Grade::Won
                },
                ..self
            },
            None => if tally.visits > 0 {
                Value {
                    grade: self.grade,
                    num: self.num * tally.visits + tally.total * self.den,
                    den: self.den * tally.visits,
                }
            } else {
                self
            },
        }
    }

    /// Whether this value is below `other`.
    pub open spec fn below(self, other: Value) -> bool {
        match (self.grade, other.grade) {
            (Grade::Lost, Grade::Lost) => false,
            (Grade::Lost, _) => true,
            (Grade::Open, Grade::Lost) => false,
            (Grade::Open, Grade::Open) => self.num * other.den < other.num * self.den,
            (Grade::Open, Grade::Won) => true,
            (Grade::Won, _) => false,
        }
    }
}

/// What worker `root` found of child `i` of a position with `n` legal
/// successors, if its tree has a child for each of them.
pub open spec fn found_by(root: Node, n: int, i: int) -> Option<Tally> {
    if root.kids().len() == n {
        Some(root.kids()[i].stats())
    } else {
        None
    }
}

/// The value of child `i`, added up over the first `w` workers.
pub open spec fn value_upto(roots: Seq<Node>, n: int, i: int, w: int) -> Value
    decreases w,
{
    if w <= 0 {
        Value::zero()
    } else {
        let before = value_upto(roots, n, i, w - 1);
        match found_by(roots[w - 1], n, i) {
            Some(tally) => before.plus(tally),
            None => before,
        }
    }
}

/// The value of child `i` of a position with `n` legal successors, added
/// up over all the workers.
pub open spec fn value_of(roots: Seq<Node>, n: int, i: int) -> Value {
    value_upto(roots, n, i, roots.len() as int)
}

impl BoardView {
    /// Whether the successor `i` puts the mover's pawn on the first square
    /// of the mover's route.
    pub open spec fn follows_route(self, i: int) -> bool {
        let route = self.walls.best_route(self.turn, self.pawn(self.turn));
        route.len() > 0 && self.moves()[i].pawn(self.turn) == route[0] as int
    }

    /// The first square of the mover's route.
    pub open spec fn route_head(self) -> int {
        self.walls.best_route(self.turn, self.pawn(self.turn))[0] as int
    }

    /// Whether the mover can step onto the first square of its route: there
    /// is a route, and the other pawn does not stand on its first square.
    pub open spec fn can_walk(self) -> bool {
        let route = self.walls.best_route(self.turn, self.pawn(self.turn));
        route.len() > 0 && self.route_head() != self.pawn(self.turn.opponent())
    }

    /// Whether none of the first `m` children has a value below that of
    /// child `i`.
    pub open spec fn is_least_among(self, roots: Seq<Node>, i: int, m: int) -> bool {
        let n = self.moves().len() as int;
        forall|j: int|
            0 <= j < m ==> !(#[trigger] value_of(roots, n, j)).below(value_of(roots, n, i))
    }

    /// Whether child `i` is the choice among the first `m` children: none of
    /// them has a value below its own; of those of which that is true it is
    /// the last that follows the mover's route, or the first of them if
    /// none does.
    pub open spec fn is_choice_among(self, roots: Seq<Node>, i: int, m: int) -> bool {
        &&& 0 <= i < m
        &&& self.is_least_among(roots, i, m)
        &&& if self.follows_route(i) {
            forall|j: int|
                i < j < m ==> !(#[trigger] self.is_least_among(roots, j, m) && self.follows_route(
                    j,
                ))
        } else {
            &&& forall|j: int| 0 <= j < i ==> !(#[trigger] self.is_least_among(roots, j, m))
            &&& forall|j: int|
                0 <= j < m ==> !(#[trigger] self.is_least_among(roots, j, m)
                    && self.follows_route(j))
        }
    }

    /// Whether child `i` is the choice among all the children.
    pub open spec fn is_choice(self, roots: Seq<Node>, i: int) -> bool {
        self.is_choice_among(roots, i, self.moves().len() as int)
    }

    /// What is settled without a search: the first pawn move that wins, if
    /// there is one; else, if neither player has a wall left, the step along
    /// the mover's route.
    pub open spec fn presearch(self) -> Option<BoardView> {
        if self.can_win() {
            self.winning_move()
        } else if self.white_stock == 0 && self.black_stock == 0 {
            self.route_move()
        } else {
            None
        }
    }
}

/// What the search writes to the log where a pawn move wins.
pub open spec fn taking_win_line() -> Seq<char> {
    "presearch: taking win\n"@
}

/// What the search writes to the log where it only has to walk.
pub open spec fn walking_line() -> Seq<char> {
    "presearch: walking shortest path\n"@
}

/// What the search writes to the log before anything else: that it takes a
/// win, where a pawn move wins; else that it walks, where neither player
/// has a wall left; else nothing.
pub open spec fn presearch_lines(v: BoardView) -> Seq<char> {
    if v.can_win() {
        taking_win_line()
    } else if v.white_stock == 0 && v.black_stock == 0 {
        walking_line()
    } else {
        Seq::empty()
    }
}

/// What is settled without a search, with a line in the log that says so.
pub fn presearch(board: &Board, log: &mut String) -> (r: Option<Board>)
    requires
        board.inv(),
    ensures
        (match r {
            Some(child) => child.inv() && board@.presearch() == Some(child@),
            None => board@.presearch() is None,
        }),
        final(log)@ == old(log)@ + presearch_lines(board@),
{
    proof {
        lemma_winning_move(board@);
    }
    match board.winning_move() {
        Some(child) => {
            log.append("presearch: taking win\n");
            return Some(child);
        },
        None => {},
    }
    let stocks = board.remaining_walls();
    if stocks[0] == 0 && stocks[1] == 0 {
        log.append("presearch: walking shortest path\n");
        return route_step(board);
    }
    proof {
        assert(log@ =~= old(log)@ + Seq::<char>::empty());
    }
    None
}

/// The value of a child as it is computed.
#[derive(Clone, Copy, Debug)]
pub struct Standing {
    pub grade: Grade,
    pub num: i128,
    pub den: i128,
}

impl View for Standing {
    type V = Value;

    /// The value that the numbers stand for.
    open spec fn view(&self) -> Value {
        Value { grade: self.grade, num: self.num as int, den: self.den as int }
    }
}

/// Whether a value is one that `w` workers can have brought, none of whom
/// visited more than [`MAX_VISITS`] times: the sum of `w` means lies
/// between `-w` and `w`, and its denominator is a product of `w` numbers
/// of visits.
pub open spec fn within(v: Value, w: int) -> bool {
    &&& 1 <= v.den
    &&& w <= 0 ==> v.den == 1
    &&& w <= 1 ==> v.den <= 0x4000_0000
    &&& v.den <= 0x1000_0000_0000_0000
    &&& -w * v.den <= v.num <= w * v.den
}

/// A value that fewer workers can have brought, one more can have brought.
pub proof fn lemma_within_more(v: Value, w: int)
    requires
        within(v, w),
        0 <= w,
    ensures
        within(v, w + 1),
{
    assert(-(w + 1) * v.den <= -w * v.den && w * v.den <= (w + 1) * v.den) by (nonlinear_arith)
        requires
            v.den >= 1,
    ;
}

/// Adding what one more worker found keeps a value within bounds.
pub proof fn lemma_plus_within(v: Value, tally: Tally, w: int)
    requires
        within(v, w),
        0 <= w <= 1,
        tally.inv(),
        tally.visits <= MAX_VISITS,
    ensures
        within(v.plus(tally), w + 1),
{
    lemma_within_more(v, w);
    if tally.proven is None && tally.visits > 0 {
        let n = tally.visits as int;
        let t = tally.total as int;
        assert(1 <= v.den * n) by (nonlinear_arith)
            requires
                v.den >= 1,
                n >= 1,
        ;
        assert(v.den * n <= 0x4000_0000 * 0x4000_0000 && (v.den == 1 ==> v.den * n
            <= 0x4000_0000)) by (nonlinear_arith)
            requires
                1 <= v.den <= 0x4000_0000,
                1 <= n <= 0x4000_0000,
        ;
        assert(-(w + 1) * (v.den * n) <= v.num * n + t * v.den <= (w + 1) * (v.den * n))
            by (nonlinear_arith)
            requires
                v.den >= 1,
                n >= 1,
                -n <= t <= n,
                -w * v.den <= v.num <= w * v.den,
                0 <= w,
        ;
    }
}

/// A value below a second value is below every value that the second is
/// not above.
pub proof fn lemma_below_chain(a: Value, b: Value, c: Value)
    requires
        a.den > 0,
        b.den > 0,
        c.den > 0,
        a.below(b),
        !c.below(b),
    ensures
        a.below(c),
{
    if a.grade == Grade::Open && b.grade == Grade::Open && c.grade == Grade::Open {
        assert(a.num * c.den < c.num * a.den) by (nonlinear_arith)
            requires
                a.den > 0,
                b.den > 0,
                c.den > 0,
                a.num * b.den < b.num * a.den,
                b.num * c.den <= c.num * b.den,
        ;
    }
}

impl Standing {
    /// The value with what one worker found added.
    fn plus(self, tally: Tally, Ghost(w): Ghost<int>) -> (r: Standing)
        requires
            within(self@, w),
            0 <= w <= 1,
            tally.inv(),
            tally.visits <= MAX_VISITS,
        ensures
            r@ == self@.plus(tally),
            within(r@, w + 1),
    {
        proof {
            lemma_plus_within(self@, tally, w);
        }
        match tally.proven {
            Some(Outcome::Loss) => Standing { grade: Grade::Lost, num: self.num, den: self.den },
            Some(Outcome::Win) => Standing {
                grade: match self.grade {
                    Grade::Lost => Grade::Lost,
                    _ => Grade::Won,
                },
                num: self.num,
                den: self.den,
            },
            None => {
                if tally.visits > 0 {
                    let n = tally.visits as i128;
                    let t = tally.total as i128;
                    proof {
                        assert(-0x4000_0000 <= -w * self.den && w * self.den <= 0x4000_0000)
                            by (nonlinear_arith)
                            requires
                                0 <= w <= 1,
                                1 <= self.den <= 0x4000_0000,
                        ;
                        assert(-0x8000_0000 * 0x4000_0000 <= self.num * n <= 0x8000_0000
                            * 0x4000_0000) by (nonlinear_arith)
                            requires
                                -0x8000_0000 <= self.num <= 0x8000_0000,
                                1 <= n <= 0x4000_0000,
                        ;
                        assert(-0x4000_0000 * 0x4000_0000 <= t * self.den <= 0x4000_0000
                            * 0x4000_0000) by (nonlinear_arith)
                            requires
                                -0x4000_0000 <= t <= 0x4000_0000,
                                1 <= self.den <= 0x4000_0000,
                        ;
                        assert(1 <= self.den * n <= 0x4000_0000 * 0x4000_0000)
                            by (nonlinear_arith)
                            requires
                                1 <= n <= 0x4000_0000,
                                1 <= self.den <= 0x4000_0000,
                        ;
                    }
                    Standing {
                        grade: self.grade,
                        num: self.num * n + t * self.den,
                        den: self.den * n,
                    }
                } else {
                    self
                }
            },
        }
    }

    /// Whether this value is below `other`.
    fn below(&self, other: &Standing) -> (r: bool)
        requires
            within(self@, 2),
            within(other@, 2),
        ensures
            r == self@.below(other@),
    {
        match (self.grade, other.grade) {
            (Grade::Lost, Grade::Lost) => false,
            (Grade::Lost, _) => true,
            (Grade::Open, Grade::Lost) => false,
            (Grade::Open, Grade::Open) => {
                proof {
                    let big = 0x2000_0000_0000_0000int;
                    let den = 0x1000_0000_0000_0000int;
                    assert(-big * den <= self.num * other.den <= big * den) by (nonlinear_arith)
                        requires
                            -big <= self.num <= big,
                            1 <= other.den <= den,
                            big >= 0,
                    ;
                    assert(-big * den <= other.num * self.den <= big * den) by (nonlinear_arith)
                        requires
                            -big <= other.num <= big,
                            1 <= self.den <= den,
                            big >= 0,
                    ;
                }
                self.num * other.den < other.num * self.den
            },
            (Grade::Open, Grade::Won) => true,
            (Grade::Won, _) => false,
        }
    }
}

/// The value of child `i` of a position with `n` legal successors, added
/// up over the workers.
pub fn standing(roots: &Vec<Node>, n: usize, i: usize) -> (r: Standing)
    requires
        i < n,
        roots@.len() <= THREADS,
        forall|w: int|
            0 <= w < roots@.len() ==> (#[trigger] roots@[w]).wf() && roots@[w].stats().visits
                <= MAX_VISITS,
    ensures
        r@ == value_of(roots@, n as int, i as int),
        within(r@, 2),
{
    let mut sum = Standing { grade: Grade::Open, num: 0, den: 1 };
    let mut w: usize = 0;
    while w < roots.len()
        invariant
            w <= roots@.len(),
            i < n,
            roots@.len() <= THREADS,
            forall|w: int|
                0 <= w < roots@.len() ==> (#[trigger] roots@[w]).wf() && roots@[w].stats().visits
                    <= MAX_VISITS,
            sum@ == value_upto(roots@, n as int, i as int, w as int),
            within(sum@, w as int),
        decreases roots@.len() - w,
    {
        let kids = roots[w].children();
        if kids.len() == n {
            let tally = kids[i].tally();
            sum = sum.plus(tally, Ghost(w as int));
        } else {
            proof {
                lemma_within_more(sum@, w as int);
            }
        }
        w = w + 1;
    }
    proof {
        if w < 2 {
            lemma_within_more(sum@, w as int);
            if w < 1 {
                lemma_within_more(sum@, 1);
            }
        }
    }
    sum
}

/// The choice among the children of the root.
pub struct Choice {
    /// The place of the chosen successor among the legal successors.
    pub index: usize,
    /// The chosen successor.
    pub board: Board,
    /// Whether the choice was made because it follows the mover's route.
    pub walking_shortest_path: bool,
    /// The number of legal successors.
    pub moves: usize,
    /// The value of the chosen successor for the opponent.
    pub value: Standing,
    /// The number of visits of the chosen successor, over all workers.
    pub visits: u64,
}

/// The number of visits of child `i`, added up over the first `w` workers.
pub open spec fn child_visits_upto(roots: Seq<Node>, n: int, i: int, w: int) -> int
    decreases w,
{
    if w <= 0 {
        0
    } else {
        child_visits_upto(roots, n, i, w - 1) + match found_by(roots[w - 1], n, i) {
            Some(tally) => tally.visits as int,
            None => 0,
        }
    }
}

/// The number of visits of child `i` of a position with `n` legal
/// successors, added up over all the workers.
pub open spec fn child_visits(roots: Seq<Node>, n: int, i: int) -> int {
    child_visits_upto(roots, n, i, roots.len() as int)
}

/// The number of visits of child `i`, added up over the workers.
pub fn count_visits(roots: &Vec<Node>, n: usize, i: usize) -> (r: u64)
    requires
        i < n,
        roots@.len() <= THREADS,
    ensures
        r == child_visits(roots@, n as int, i as int),
{
    let mut sum: u64 = 0;
    let mut w: usize = 0;
    while w < roots.len()
        invariant
            w <= roots@.len(),
            i < n,
            roots@.len() <= THREADS,
            sum == child_visits_upto(roots@, n as int, i as int, w as int),
            sum <= w * 0xffff_ffff,
        decreases roots@.len() - w,
    {
        let kids = roots[w].children();
        if kids.len() == n {
            sum = sum + kids[i].tally().visits as u64;
        }
        w = w + 1;
    }
    sum
}

/// The choice among the legal successors of `board`, from the trees that
/// the workers grew: the successor whose value, added up over the workers,
/// is least. Of several such successors the one that follows the mover's
/// route is chosen, or the first if none does. None if the player to move
/// has no legal move.
pub fn conclude(board: &Board, roots: &Vec<Node>) -> (r: Option<Choice>)
    requires
        board.inv(),
        roots@.len() <= THREADS,
        forall|w: int|
            0 <= w < roots@.len() ==> (#[trigger] roots@[w]).wf() && roots@[w].stats().visits
                <= MAX_VISITS,
    ensures
        (match r {
            Some(choice) => {
                &&& board@.is_choice(roots@, choice.index as int)
                &&& choice.board@ == board@.moves()[choice.index as int]
                &&& choice.board.inv()
                &&& choice.moves == board@.moves().len()
                &&& choice.value@ == value_of(
                    roots@,
                    board@.moves().len() as int,
                    choice.index as int,
                )
                &&& choice.visits == child_visits(
                    roots@,
                    board@.moves().len() as int,
                    choice.index as int,
                )
                &&& no_children(roots@) && board@.can_walk() ==> choice.board@
                    == board@.after_step(board@.route_head())
            },
            None => board@.moves().len() == 0,
        }),
{
    let mut moves = board.moves();
    let n = moves.len();
    if n == 0 {
        return None;
    }
    let mover = board.turn();
    let route = board.find_route(mover);
    let mut best: usize = 0;
    let mut best_value = standing(roots, n, 0);
    let mut walking = false;
    let mut i: usize = 1;
    proof {
        assert(views(moves@)[0] == moves@[0]@);
    }
    while i < n
        invariant
            1 <= i <= n,
            n == moves@.len(),
            n == board@.moves().len(),
            views(moves@) == board@.moves(),
            mover == board@.turn,
            route@ == board@.walls.best_route(mover, board@.pawn(mover)),
            roots@.len() <= THREADS,
            forall|w: int|
                0 <= w < roots@.len() ==> (#[trigger] roots@[w]).wf() && roots@[w].stats().visits
                    <= MAX_VISITS,
            best < i,
            best_value@ == value_of(roots@, n as int, best as int),
            within(best_value@, 2),
            board@.is_choice_among(roots@, best as int, i as int),
        decreases n - i,
    {
        let value = standing(roots, n, i);
        let follows = route.len() > 0 && moves[i].pawn_of(mover) == route[0];
        proof {
            assert(views(moves@)[i as int] == moves@[i as int]@);
            assert(follows == board@.follows_route(i as int));
            lemma_choice_grows(board@, roots@, best as int, i as int);
        }
        if value.below(&best_value) {
            best = i;
            best_value = value;
            walking = false;
        } else if !best_value.below(&value) && follows {
            best = i;
            best_value = value;
            walking = true;
        }
        i = i + 1;
    }
    proof {
        assert(views(moves@)[best as int] == moves@[best as int]@);
    }
    proof {
        if no_children(roots@) && board@.can_walk() {
            lemma_walk_is_listed(board@);
            assert forall|j: int| 0 <= j < n implies #[trigger] value_of(roots@, n as int, j)
                == Value::zero() by {
                lemma_zero_values(roots@, n as int, j, roots@.len() as int);
            }
            lemma_choice_walks(board@, roots@, best as int);
            lemma_follower_is_step(board@, best as int);
        }
    }
    let chosen = moves.remove(best);
    let visits = count_visits(roots, n, best);
    Some(
        Choice {
            index: best,
            board: chosen,
            walking_shortest_path: walking,
            moves: n,
            value: best_value,
            visits,
        },
    )
}

/// Whether none of the trees has children: no worker went below its root, as
/// is the case where the position is decided.
pub open spec fn no_children(roots: Seq<Node>) -> bool {
    forall|w: int| 0 <= w < roots.len() ==> (#[trigger] roots[w]).kids().len() == 0
}

/// Where no tree has children, the value of every child is that to which
/// nothing was added.
pub proof fn lemma_zero_values(roots: Seq<Node>, n: int, j: int, w: int)
    requires
        n > 0,
        0 <= w <= roots.len(),
        no_children(roots),
    ensures
        value_upto(roots, n, j, w) == Value::zero(),
    decreases w,
{
    if w > 0 {
        lemma_zero_values(roots, n, j, w - 1);
        assert(roots[w - 1].kids().len() == 0);
    }
}

/// The choice depends on the values of the children alone.
pub proof fn lemma_choice_by_values(v: BoardView, first: Seq<Node>, second: Seq<Node>, i: int)
    requires
        v.is_choice(first, i),
        forall|j: int|
            0 <= j < v.moves().len() ==> #[trigger] value_of(first, v.moves().len() as int, j)
                == value_of(second, v.moves().len() as int, j),
    ensures
        v.is_choice(second, i),
{
    let n = v.moves().len() as int;
    assert forall|j: int| 0 <= j < n implies v.is_least_among(first, j, n) == v.is_least_among(
        second,
        j,
        n,
    ) by {
        assert(value_of(first, n, j) == value_of(second, n, j));
        assert forall|k: int| 0 <= k < n implies (#[trigger] value_of(first, n, k)).below(
            value_of(first, n, j),
        ) == value_of(second, n, k).below(value_of(second, n, j)) by {}
        if v.is_least_among(first, j, n) {
            assert forall|k: int| 0 <= k < n implies !(#[trigger] value_of(second, n, k)).below(
                value_of(second, n, j),
            ) by {
                assert(!value_of(first, n, k).below(value_of(first, n, j)));
            }
        }
        if v.is_least_among(second, j, n) {
            assert forall|k: int| 0 <= k < n implies !(#[trigger] value_of(first, n, k)).below(
                value_of(first, n, j),
            ) by {
                assert(!value_of(second, n, k).below(value_of(second, n, j)));
            }
        }
    }
    assert(v.is_least_among(second, i, n));
    if v.follows_route(i) {
        assert forall|j: int| i < j < n implies !(#[trigger] v.is_least_among(second, j, n)
            && v.follows_route(j)) by {
            assert(v.is_least_among(first, j, n) == v.is_least_among(second, j, n));
        }
    } else {
        assert forall|j: int| 0 <= j < i implies !(#[trigger] v.is_least_among(second, j, n)) by {
            assert(v.is_least_among(first, j, n) == v.is_least_among(second, j, n));
        }
        assert forall|j: int| 0 <= j < n implies !(#[trigger] v.is_least_among(second, j, n)
            && v.follows_route(j)) by {
            assert(v.is_least_among(first, j, n) == v.is_least_among(second, j, n));
        }
    }
}

/// Where the workers' trees have no children, the choice is the choice
/// without any tree.
pub proof fn lemma_choice_without_trees(v: BoardView, roots: Seq<Node>, i: int)
    requires
        v.is_choice(roots, i),
        no_children(roots),
    ensures
        v.is_choice(Seq::<Node>::empty(), i),
{
    let n = v.moves().len() as int;
    let none = Seq::<Node>::empty();
    assert forall|j: int| 0 <= j < n implies #[trigger] value_of(roots, n, j) == value_of(
        none,
        n,
        j,
    ) by {
        lemma_zero_values(roots, n, j, roots.len() as int);
        lemma_zero_values(none, n, j, 0);
    }
    lemma_choice_by_values(v, roots, none, i);
}

/// Where the mover can step onto the first square of its route, that step
/// is among the legal successors.
pub proof fn lemma_walk_is_listed(v: BoardView)
    requires
        v.inv(),
        v.can_walk(),
        v.walls.is_first_route(
            v.turn,
            v.pawn(v.turn),
            v.walls.best_route(v.turn, v.pawn(v.turn)),
        ),
    ensures
        exists|j: int| 0 <= j < v.moves().len() && #[trigger] v.follows_route(j),
{
    let pawn = v.pawn(v.turn);
    let route = v.walls.best_route(v.turn, pawn);
    assert(v.walls.adjacent(Walls::before(pawn, route, 0), route[0] as int));
    let d = crate::routes::lemma_direction_of(v.walls, pawn, route[0] as int);
    assert(v.pawn_targets(d) =~= seq![route[0] as int]);
    crate::laws::lemma_step_is_listed(v, d, 0);
    let k = choose|k: int|
        0 <= k < v.pawn_moves().len() && #[trigger] v.pawn_moves()[k] == v.after_step(
            v.pawn_targets(d)[0],
        );
    assert(v.moves()[k] == v.pawn_moves()[k]);
    assert(v.follows_route(k));
}

/// A legal successor that has the mover's pawn on the first square of the
/// mover's route is the position after the step there.
pub proof fn lemma_follower_is_step(v: BoardView, i: int)
    requires
        v.inv(),
        0 <= i < v.moves().len(),
        v.follows_route(i),
        v.walls.is_first_route(
            v.turn,
            v.pawn(v.turn),
            v.walls.best_route(v.turn, v.pawn(v.turn)),
        ),
    ensures
        v.moves()[i] == v.after_step(v.route_head()),
{
    let pawn = v.pawn(v.turn);
    let route = v.walls.best_route(v.turn, pawn);
    let child = v.moves()[i];
    assert(v.walls.adjacent(Walls::before(pawn, route, 0), route[0] as int));
    crate::laws::lemma_listed_moves(v, false, true, false, i);
    if v.steps_to(child) {
        let to = choose|to: int| v.is_target(to) && child == #[trigger] v.after_step(to);
        assert(child.pawn(v.turn) == to);
    }
}

/// Where all children have the value to which nothing was added, and some
/// legal successor follows the mover's route, the choice follows it.
pub proof fn lemma_choice_walks(v: BoardView, roots: Seq<Node>, i: int)
    requires
        v.is_choice(roots, i),
        forall|j: int|
            0 <= j < v.moves().len() ==> #[trigger] value_of(roots, v.moves().len() as int, j)
                == Value::zero(),
        exists|j: int| 0 <= j < v.moves().len() && #[trigger] v.follows_route(j),
    ensures
        v.follows_route(i),
{
    let n = v.moves().len() as int;
    let j = choose|j: int| 0 <= j < n && #[trigger] v.follows_route(j);
    assert(v.is_least_among(roots, j, n)) by {
        assert forall|k: int| 0 <= k < n implies !(#[trigger] value_of(roots, n, k)).below(
            value_of(roots, n, j),
        ) by {
            assert(value_of(roots, n, j) == Value::zero());
        }
    }
}

/// The value of every child is a fraction with a denominator above 0.
pub proof fn lemma_value_den(roots: Seq<Node>, n: int, i: int, w: int)
    requires
        0 <= w <= roots.len(),
    ensures
        value_upto(roots, n, i, w).den > 0,
    decreases w,
{
    if w > 0 {
        lemma_value_den(roots, n, i, w - 1);
        let before = value_upto(roots, n, i, w - 1);
        match found_by(roots[w - 1], n, i) {
            Some(tally) => {
                if tally.proven is None && tally.visits > 0 {
                    assert(before.den * tally.visits > 0) by (nonlinear_arith)
                        requires
                            before.den > 0,
                            tally.visits > 0,
                    ;
                }
            },
            None => {},
        }
    }
}

/// How the choice among the first `m` children becomes the choice among
/// the first `m + 1`: child `m` takes the place of the choice `best` if its
/// value is below, or if its value is the same and it follows the mover's
/// route; else the choice stays.
pub proof fn lemma_choice_grows(v: BoardView, roots: Seq<Node>, best: int, m: int)
    requires
        v.is_choice_among(roots, best, m),
        0 < m < v.moves().len(),
    ensures
        ({
            let n = v.moves().len() as int;
            let old_value = value_of(roots, n, best);
            let new_value = value_of(roots, n, m);
            if new_value.below(old_value) || (!old_value.below(new_value) && v.follows_route(m)) {
                v.is_choice_among(roots, m, m + 1)
            } else {
                v.is_choice_among(roots, best, m + 1)
            }
        }),
{
    let n = v.moves().len() as int;
    let old_value = value_of(roots, n, best);
    let new_value = value_of(roots, n, m);
    assert forall|j: int| 0 <= j < n implies (#[trigger] value_of(roots, n, j)).den > 0 by {
        lemma_value_den(roots, n, j, roots.len() as int);
    }
    assert forall|j: int|
        0 <= j < m && #[trigger] v.is_least_among(roots, j, m + 1) implies v.is_least_among(
        roots,
        j,
        m,
    ) by {}
    if new_value.below(old_value) {
        assert forall|j: int| 0 <= j < m implies !(#[trigger] v.is_least_among(
            roots,
            j,
            m + 1,
        )) by {
            if v.is_least_among(roots, j, m + 1) {
                assert(!value_of(roots, n, m).below(value_of(roots, n, j)));
                assert(!value_of(roots, n, j).below(old_value));
                lemma_below_chain(new_value, old_value, value_of(roots, n, j));
            }
        }
        assert(v.is_least_among(roots, m, m + 1)) by {
            assert forall|j: int| 0 <= j < m + 1 implies !(#[trigger] value_of(roots, n, j)).below(
                new_value,
            ) by {
                if j < m {
                    assert(!value_of(roots, n, j).below(old_value));
                    lemma_below_chain(new_value, old_value, value_of(roots, n, j));
                }
            }
        }
        assert(v.is_choice_among(roots, m, m + 1));
    } else if !old_value.below(new_value) && v.follows_route(m) {
        assert(v.is_least_among(roots, m, m + 1)) by {
            assert forall|j: int| 0 <= j < m + 1 implies !(#[trigger] value_of(roots, n, j)).below(
                new_value,
            ) by {
                if j < m && value_of(roots, n, j).below(new_value) {
                    assert(!value_of(roots, n, j).below(old_value));
                    lemma_below_chain(value_of(roots, n, j), new_value, old_value);
                }
            }
        }
        assert(v.is_choice_among(roots, m, m + 1));
    } else {
        assert(v.is_least_among(roots, best, m + 1)) by {
            assert forall|j: int| 0 <= j < m + 1 implies !(#[trigger] value_of(roots, n, j)).below(
                old_value,
            ) by {}
        }
        if old_value.below(new_value) {
            assert(!v.is_least_among(roots, m, m + 1)) by {
                if v.is_least_among(roots, m, m + 1) {
                    assert(!value_of(roots, n, best).below(value_of(roots, n, m)));
                }
            }
        }
        assert(v.is_choice_among(roots, best, m + 1));
    }
}

/// What the workers' values say is proven of a successor is proven: where the
/// value of child `i` is below every number, the successor is a proven loss
/// for the opponent, who is to move there; where it is above every number,
/// a proven win.
pub proof fn lemma_grade_is_proven(v: BoardView, roots: Seq<Node>, i: int, w: int)
    requires
        0 <= i < v.moves().len(),
        0 <= w <= roots.len(),
        forall|k: int|
            0 <= k < roots.len() ==> (#[trigger] roots[k]).wf() && roots[k].position() == v,
    ensures
        value_upto(roots, v.moves().len() as int, i, w).grade == Grade::Lost ==> proven(
            v.moves()[i],
            Outcome::Loss,
        ),
        value_upto(roots, v.moves().len() as int, i, w).grade == Grade::Won ==> proven(
            v.moves()[i],
            Outcome::Win,
        ),
    decreases w,
{
    if w > 0 {
        lemma_grade_is_proven(v, roots, i, w - 1);
        let n = v.moves().len() as int;
        if roots[w - 1].kids().len() == n {
            lemma_child_proven(roots[w - 1], i);
        }
    }
}

/// The visits of the first `w` roots, taken together.
pub open spec fn root_visits(roots: Seq<Node>, w: int) -> int
    decreases w,
{
    if w <= 0 {
        0
    } else {
        root_visits(roots, w - 1) + roots[w - 1].stats().visits
    }
}

/// The visits of the first `m` children, over the first `w` workers.
pub open spec fn children_visits(roots: Seq<Node>, n: int, m: int, w: int) -> int
    decreases m,
{
    if m <= 0 {
        0
    } else {
        children_visits(roots, n, m - 1, w) + child_visits_upto(roots, n, m - 1, w)
    }
}

/// Without workers there are no visits.
proof fn lemma_children_visits_none(roots: Seq<Node>, n: int, m: int)
    ensures
        children_visits(roots, n, m, 0) == 0,
    decreases m,
{
    if m > 0 {
        lemma_children_visits_none(roots, n, m - 1);
    }
}

/// One more worker adds the visits of the children of its root.
proof fn lemma_children_visits_more(roots: Seq<Node>, n: int, m: int, w: int)
    requires
        0 < w <= roots.len(),
        0 <= m <= n,
        roots[w - 1].kids().len() == n,
    ensures
        children_visits(roots, n, m, w) == children_visits(roots, n, m, w - 1) + visits_sum(
            roots[w - 1].kids().subrange(0, m),
        ),
    decreases m,
{
    let kids = roots[w - 1].kids();
    if m > 0 {
        lemma_children_visits_more(roots, n, m - 1, w);
        assert(kids.subrange(0, m).drop_last() =~= kids.subrange(0, m - 1));
        assert(kids.subrange(0, m).last() == kids[m - 1]);
    }
}

/// Where every worker's tree has a child for each of the `n` legal
/// successors, and the visits of each root are the visits of its children
/// taken together, the visits of all the children over all the workers are
/// the visits of all the roots: the iterations that the workers made.
pub proof fn lemma_visits_add_up(roots: Seq<Node>, n: int, w: int)
    requires
        0 <= w <= roots.len(),
        0 <= n,
        forall|k: int|
            0 <= k < roots.len() ==> (#[trigger] roots[k]).kids().len() == n && roots[k].balanced(),
    ensures
        children_visits(roots, n, n, w) == root_visits(roots, w),
    decreases w,
{
    if w == 0 {
        lemma_children_visits_none(roots, n, n);
    } else {
        lemma_visits_add_up(roots, n, w - 1);
        lemma_children_visits_more(roots, n, n, w);
        assert(roots[w - 1].kids().subrange(0, n) =~= roots[w - 1].kids());
    }
}

/// Whether `roots` are the trees of `workers` workers, each grown from the
/// position `v` by `iterations` iterations.
pub open spec fn grown_from(
    v: BoardView,
    roots: Seq<Node>,
    workers: int,
    iterations: int,
) -> bool {
    &&& roots.len() == workers
    &&& forall|w: int|
        0 <= w < roots.len() ==> {
            &&& (#[trigger] roots[w]).wf()
            &&& roots[w].position() == v
            &&& roots[w].stats().visits == iterations
            &&& iterations > 0 && roots[w].open_ended() ==> roots[w].balanced()
                && roots[w].kids().len() == v.moves().len()
            &&& v.verdict() is Some ==> roots[w].kids().len() == 0
        }
}

/// Whether the search grew each of the trees `roots` from the position `v`
/// in `iterations` iterations, with `select` to name the child to visit
/// where all were visited before.
pub open spec fn searched<F: Fn(&Node) -> usize>(
    v: BoardView,
    roots: Seq<Node>,
    iterations: int,
    select: F,
) -> bool {
    forall|w: int| 0 <= w < roots.len() ==> grown(v, #[trigger] roots[w], iterations, select)
}

/// The visits of the first `w` of the roots that the workers grew are the
/// iterations that these workers made.
proof fn lemma_root_visits(v: BoardView, roots: Seq<Node>, iterations: int, w: int)
    requires
        grown_from(v, roots, roots.len() as int, iterations),
        0 <= w <= roots.len(),
    ensures
        root_visits(roots, w) == w * iterations,
    decreases w,
{
    if w > 0 {
        lemma_root_visits(v, roots, iterations, w - 1);
        assert(roots[w - 1].stats().visits == iterations);
        assert(w * iterations == (w - 1) * iterations + iterations) by (nonlinear_arith);
    } else {
        assert(w * iterations == 0) by (nonlinear_arith)
            requires
                w == 0,
        ;
    }
}

/// When the workers are done, the visits of their roots are the iterations
/// of all the workers; and where the position is not decided and the player
/// to move has a legal move, so are the visits of the children of the roots,
/// taken together.
pub proof fn lemma_iterations_add_up(v: BoardView, roots: Seq<Node>, iterations: int)
    requires
        grown_from(v, roots, roots.len() as int, iterations),
        iterations > 0,
    ensures
        root_visits(roots, roots.len() as int) == roots.len() * iterations,
        v.verdict() is None && v.moves().len() > 0 ==> children_visits(
            roots,
            v.moves().len() as int,
            v.moves().len() as int,
            roots.len() as int,
        ) == roots.len() * iterations,
{
    lemma_root_visits(v, roots, iterations, roots.len() as int);
    if v.verdict() is None && v.moves().len() > 0 {
        assert forall|k: int| 0 <= k < roots.len() implies (#[trigger] roots[k]).kids().len()
            == v.moves().len() && roots[k].balanced() by {
            assert(roots[k].open_ended());
        }
        lemma_visits_add_up(roots, v.moves().len() as int, roots.len() as int);
    }
}

/// Grows the trees of `workers` workers from `board`, one after the other,
/// each by `iterations` iterations, and makes the choice from them. None if
/// the player to move has no legal move.
pub fn decide<F: Fn(&Node) -> usize>(
    board: &Board,
    workers: usize,
    iterations: u32,
    rng: &mut StdRng,
    select: &F,
) -> (r: Option<Choice>)
    requires
        board.inv(),
        workers <= THREADS,
        iterations <= MAX_VISITS,
        forall|n: &Node| n.kids().len() > 0 ==> #[trigger] call_requires(*select, (n,)),
    ensures
        (match r {
            Some(choice) => {
                &&& choice.index < board@.moves().len()
                &&& choice.board@ == board@.moves()[choice.index as int]
                &&& choice.board.inv()
                &&& choice.moves == board@.moves().len()
                &&& exists|roots: Seq<Node>|
                    {
                        &&& #[trigger] grown_from(board@, roots, workers as int, iterations as int)
                        &&& searched(board@, roots, iterations as int, *select)
                        &&& board@.is_choice(roots, choice.index as int)
                        &&& choice.value@ == value_of(
                            roots,
                            board@.moves().len() as int,
                            choice.index as int,
                        )
                        &&& choice.visits == child_visits(
                            roots,
                            board@.moves().len() as int,
                            choice.index as int,
                        )
                    }
                &&& board@.verdict() is Some ==> board@.is_choice(
                    Seq::<Node>::empty(),
                    choice.index as int,
                )
                &&& board@.verdict() is Some && board@.can_walk() ==> choice.board@
                    == board@.after_step(board@.route_head())
            },
            None => board@.moves().len() == 0,
        }),
{
    let mut roots: Vec<Node> = Vec::new();
    let mut w: usize = 0;
    while w < workers
        invariant
            w <= workers,
            workers <= THREADS,
            iterations <= MAX_VISITS,
            board.inv(),
            grown_from(board@, roots@, w as int, iterations as int),
            searched(board@, roots@, iterations as int, *select),
            forall|n: &Node| n.kids().len() > 0 ==> #[trigger] call_requires(*select, (n,)),
        decreases workers - w,
    {
        let root = grow(board, iterations, rng, select);
        let ghost before = roots@;
        roots.push(root);
        proof {
            assert forall|k: int| 0 <= k < roots@.len() implies {
                &&& (#[trigger] roots@[k]).wf()
                &&& roots@[k].position() == board@
                &&& roots@[k].stats().visits == iterations
                &&& iterations > 0 && roots@[k].open_ended() ==> roots@[k].balanced()
                    && roots@[k].kids().len() == board@.moves().len()
                &&& board@.verdict() is Some ==> roots@[k].kids().len() == 0
            } by {
                if k < before.len() {
                    assert(roots@[k] == before[k]);
                }
            }
            assert forall|k: int| 0 <= k < roots@.len() implies grown(
                board@,
                #[trigger] roots@[k],
                iterations as int,
                *select,
            ) by {
                if k < before.len() {
                    assert(roots@[k] == before[k]);
                }
            }
        }
        w = w + 1;
    }
    let r = conclude(board, &roots);
    proof {
        if r is Some && board@.verdict() is Some {
            assert(no_children(roots@));
            lemma_choice_without_trees(board@, roots@, r.unwrap().index as int);
        }
    }
    r
}

/// What the search writes to the log about its choice: the number of legal
/// successors, whether the choice follows the mover's route, and how often
/// the workers visited the chosen successor.
pub open spec fn choice_lines(moves: nat, walking: bool, visits: nat) -> Seq<char> {
    "mcts-solver search\niterations:\t"@ + decimal(ITERATIONS as nat) + "\nthreads:\t"@ + decimal(
        THREADS as nat,
    ) + "\n\nmoves:\t\t"@ + decimal(moves) + "\n\n"@ + (if walking {
        "walking shortest path\n"@
    } else {
        Seq::empty()
    }) + "visits:\t\t"@ + decimal(visits) + "\n"@
}

/// What the search writes to the log where there is nothing to choose.
pub open spec fn no_move_line() -> Seq<char> {
    "no legal move\n"@
}

/// Chooses a move by search: the workers grow their trees one after the
/// other, [`ITERATIONS`] iterations each, and the choice is made from them.
/// Returns the chosen successor and writes to the log what was chosen; where
/// the player to move has no legal move, returns the board as it is and
/// says so in the log.
pub fn mcts<F: Fn(&Node) -> usize>(
    board: &Board,
    log: &mut String,
    rng: &mut StdRng,
    select: &F,
) -> (next: Board)
    requires
        board.inv(),
        forall|n: &Node| n.kids().len() > 0 ==> #[trigger] call_requires(*select, (n,)),
    ensures
        next.inv(),
        board@.moves().len() == 0 ==> next@ == board@ && final(log)@ == old(log)@ + no_move_line(),
        board@.moves().len() > 0 ==> exists|roots: Seq<Node>, i: int|
            {
                &&& grown_from(board@, roots, THREADS as int, ITERATIONS as int)
                &&& searched(board@, roots, ITERATIONS as int, *select)
                &&& #[trigger] board@.is_choice(roots, i)
                &&& next@ == board@.moves()[i]
            },
        board@.moves().len() > 0 ==> exists|walking: bool, visits: nat|
            final(log)@ == old(log)@ + #[trigger] choice_lines(
                board@.moves().len(),
                walking,
                visits,
            ),
        board@.verdict() is Some && board@.moves().len() > 0 ==> exists|i: int|
            #[trigger] board@.is_choice(Seq::<Node>::empty(), i) && next@ == board@.moves()[i],
        board@.verdict() is Some && board@.moves().len() > 0 && board@.can_walk() ==> next@
            == board@.after_step(board@.route_head()),
{
    match decide(board, THREADS, ITERATIONS, rng, select) {
        Some(choice) => {
            log.append("mcts-solver search\niterations:\t");
            push_decimal(log, ITERATIONS as u64);
            log.append("\nthreads:\t");
            push_decimal(log, THREADS as u64);
            log.append("\n\nmoves:\t\t");
            push_decimal(log, choice.moves as u64);
            log.append("\n\n");
            if choice.walking_shortest_path {
                log.append("walking shortest path\n");
            }
            log.append("visits:\t\t");
            push_decimal(log, choice.visits);
            log.append("\n");
            proof {
                assert(log@ =~= old(log)@ + choice_lines(
                    board@.moves().len(),
                    choice.walking_shortest_path,
                    choice.visits as nat,
                ));
                let roots = choose|roots: Seq<Node>|
                    {
                        &&& #[trigger] grown_from(
                            board@,
                            roots,
                            THREADS as int,
                            ITERATIONS as int,
                        )
                        &&& searched(board@, roots, ITERATIONS as int, *select)
                        &&& board@.is_choice(roots, choice.index as int)
                        &&& choice.value@ == value_of(
                            roots,
                            board@.moves().len() as int,
                            choice.index as int,
                        )
                        &&& choice.visits == child_visits(
                            roots,
                            board@.moves().len() as int,
                            choice.index as int,
                        )
                    };
                assert(board@.is_choice(roots, choice.index as int));
            }
            choice.board
        },
        None => {
            log.append("no legal move\n");
            board.duplicate()
        },
    }
}

/// Chooses a move: what is settled without a search, else what the search
/// chooses. The move is a legal successor of the board; where the player to
/// move has no legal move, the board is returned as it is.
pub fn default<F: Fn(&Node) -> usize>(
    board: &Board,
    log: &mut String,
    rng: &mut StdRng,
    select: &F,
) -> (next: Board)
    requires
        board.inv(),
        forall|n: &Node| n.kids().len() > 0 ==> #[trigger] call_requires(*select, (n,)),
    ensures
        next.inv(),
        board@.presearch() matches Some(child) ==> next@ == child,
        board@.presearch() is Some ==> final(log)@ == old(log)@ + presearch_lines(board@),
        board@.presearch() is None && board@.moves().len() == 0 ==> final(log)@ == old(log)@
            + presearch_lines(board@) + no_move_line(),
        board@.presearch() is None && board@.moves().len() > 0 ==> exists|
            walking: bool,
            visits: nat,
        |
            final(log)@ == old(log)@ + presearch_lines(board@) + #[trigger] choice_lines(
                board@.moves().len(),
                walking,
                visits,
            ),
        board@.presearch() is None && board@.moves().len() > 0 ==> exists|
            roots: Seq<Node>,
            i: int,
        |
            {
                &&& grown_from(board@, roots, THREADS as int, ITERATIONS as int)
                &&& searched(board@, roots, ITERATIONS as int, *select)
                &&& #[trigger] board@.is_choice(roots, i)
                &&& next@ == board@.moves()[i]
            },
        board@.moves().len() == 0 ==> next@ == board@,
        board@.moves().len() > 0 ==> exists|i: int|
            0 <= i < board@.moves().len() && next@ == #[trigger] board@.moves()[i],
{
    match presearch(board, log) {
        Some(child) => {
            proof {
                lemma_presearch_is_move(board@);
            }
            child
        },
        None => {
            let next = mcts(board, log, rng, select);
            proof {
                if board@.moves().len() > 0 {
                    let (roots, i) = choose|roots: Seq<Node>, i: int|
                        {
                            &&& grown_from(board@, roots, THREADS as int, ITERATIONS as int)
                            &&& searched(board@, roots, ITERATIONS as int, *select)
                            &&& #[trigger] board@.is_choice(roots, i)
                            &&& next@ == board@.moves()[i]
                        };
                    assert(0 <= i < board@.moves().len() && next@ == board@.moves()[i]);
                }
            }
            next
        },
    }
}

/// What is settled without a search is a pawn move, and so one of the
/// legal successors.
pub proof fn lemma_presearch_is_move(v: BoardView)
    requires
        v.presearch() is Some,
    ensures
        exists|i: int| 0 <= i < v.moves().len() && v.presearch() == Some(#[trigger] v.moves()[i]),
{
    let steps = v.pawn_moves();
    lemma_first_win_is_first(steps);
    lemma_winning_move(v);
    let i = if v.can_win() {
        crate::moves::lemma_first_such_is_first(steps, v.winning());
        first_such(steps, v.winning())
    } else {
        let route = v.walls.best_route(v.turn, v.pawn(v.turn));
        crate::moves::lemma_first_such_is_first(steps, v.landing_on(route[0] as int));
        first_such(steps, v.landing_on(route[0] as int))
    };
    assert(0 <= i < steps.len());
    assert(v.moves()[i] == steps[i]);
}

} // verus!
