//! The search tree: Monte-Carlo tree search with proven wins and losses.
//!
//! A node holds a position, what is known of its value for the player to
//! move there, and, once it was visited, a child for each legal successor.
//! One iteration walks from the root to a child that was seldom visited,
//! plays that child's position out, and carries the result back up, turning
//! its sign at each level. A position that is decided needs no playout: it
//! is a proven win or loss, and proofs travel up the tree too.
//!
//! Which child to walk to, where every child was visited before, is for the
//! caller to say: the function handed to the search is asked each time.

use vstd::prelude::*;
use rand::rngs::StdRng;
use crate::board::Board;
use crate::model::BoardView;
use crate::moves::views;
use crate::playout::{simulate, verdict};

verus! {

/// A child that was visited fewer times than this is played out; one
/// that was visited more often is searched.
pub const SIM_THRESHOLD: u32 = 5;

/// A playout is cut off after this many moves.
pub const SIM_LIMIT: u32 = 10000;

/// A proven result, for the player to move in the position it is said of.
#[derive(Clone, Copy, Debug, PartialEq, Eq, Structural)]
pub enum Outcome {
    Win,
    Loss,
}

/// What one iteration brings back to a node, for the player to move there:
/// a proven win or loss, or the win or loss of one playout.
#[derive(Clone, Copy, Debug, PartialEq, Eq, Structural)]
pub enum Reward {
    /// The position is a proven win: its value is boundless.
    Win,
    /// The position is a proven loss.
    Loss,
    /// A playout was won: one point.
    Plus,
    /// A playout was lost: one point less.
    Minus,
}

impl Reward {
    /// The same result for the other player.
    pub open spec fn turned(self) -> Reward {
        match self {
            Reward::Win => Reward::Loss,
            Reward::Loss => Reward::Win,
            Reward::Plus => Reward::Minus,
            Reward::Minus => Reward::Plus,
        }
    }

    /// The same result for the other player.
    pub fn negate(self) -> (r: Reward)
        ensures
            r == self.turned(),
    {
        match self {
            Reward::Win => Reward::Loss,
            Reward::Loss => Reward::Win,
            Reward::Plus => Reward::Minus,
            Reward::Minus => Reward::Plus,
        }
    }
}

/// What is known of the value of a node: the sum of the points that
/// playouts brought, the number of visits, and the result if it is proven.
/// The value of a node that is not proven is the mean: the sum over the
/// visits.
#[derive(Clone, Copy, Debug, PartialEq, Eq, Structural)]
pub struct Tally {
    pub total: i64,
    pub visits: u32,
    pub proven: Option<Outcome>,
}

impl Tally {
    /// The tally after one more visit that brought `reward`: a proof stays,
    /// a new proof is kept, and a point is added to the sum or taken from it.
    pub open spec fn updated(self, reward: Reward) -> Tally {
        Tally {
            total: if self.proven is Some {
                self.total
            } else {
                match reward {
                    Reward::Plus => (self.total + 1) as i64,
                    Reward::Minus => (self.total - 1) as i64,
                    _ => self.total,
                }
            },
            visits: (self.visits + 1) as u32,
            proven: if self.proven is Some {
                self.proven
            } else {
                match reward {
                    Reward::Win => Some(Outcome::Win),
                    Reward::Loss => Some(Outcome::Loss),
                    _ => None,
                }
            },
        }
    }

    /// Whether the sum is one that so many visits can have brought.
    pub open spec fn inv(self) -> bool {
        -self.visits <= self.total <= self.visits
    }

    /// The tally of a node that was never visited.
    pub open spec fn fresh() -> Tally {
        Tally { total: 0, visits: 0, proven: None }
    }
}

/// Why a position is won or lost for the player to move.
pub enum Reason {
    /// The position is decided.
    Decided,
    /// The player to move has no legal move, and so has lost.
    Stuck,
    /// The successor at `index` is lost for the player to move there, who
    /// is the opponent.
    Move { index: int, reply: Box<Reason> },
    /// Every successor is won for the player to move there.
    Every { each: Seq<Reason> },
}

/// Whether `reason` shows that the position `v` has the outcome `outcome`
/// for the player to move.
pub open spec fn shows(reason: Reason, v: BoardView, outcome: Outcome) -> bool
    decreases reason,
{
    match reason {
        Reason::Decided => v.verdict() matches Some(winner) && (outcome == Outcome::Win <==> winner
            == v.turn),
        Reason::Stuck => v.verdict() is None && v.moves().len() == 0 && outcome == Outcome::Loss,
        Reason::Move { index, reply } => {
            &&& v.verdict() is None
            &&& 0 <= index < v.moves().len()
            &&& outcome == Outcome::Win
            &&& shows(*reply, v.moves()[index], Outcome::Loss)
        },
        Reason::Every { each } => {
            &&& v.verdict() is None
            &&& v.moves().len() > 0
            &&& outcome == Outcome::Loss
            &&& each.len() == v.moves().len()
            &&& forall|i: int|
                0 <= i < each.len() ==> shows(#[trigger] each[i], v.moves()[i], Outcome::Win)
        },
    }
}

/// Whether the position `v` is proven to have the outcome `outcome` for the
/// player to move: it is decided so, or the player has no legal move and
/// has lost, or a move leads to a position that is proven lost for the
/// opponent, or every move leads to a position that is proven won for the
/// opponent.
pub open spec fn proven(v: BoardView, outcome: Outcome) -> bool {
    exists|reason: Reason| shows(reason, v, outcome)
}

/// Whether every one of the nodes is held to be a proven win for the player
/// to move there.
pub open spec fn all_won(kids: Seq<Node>) -> bool {
    forall|j: int| 0 <= j < kids.len() ==> (#[trigger] kids[j]).stats().proven == Some(Outcome::Win)
}

/// What an iteration brings back to a node, given what the visited child
/// brought for the player to move at the node and the children after the
/// visit: the same, but for a proven loss, which stays a proven loss only
/// if every child is held to be a proven win for the player to move there,
/// and else is a point lost.
pub open spec fn backed_up(after: Seq<Node>, brought: Reward) -> Reward {
    if brought == Reward::Loss && !all_won(after) {
        Reward::Minus
    } else {
        brought
    }
}

/// Whether an iteration that found the children with the tallies `before`
/// and left the children `after` visited child `i`, which brought `brought`
/// for the player to move at the node.
///
/// Every child before `i` was visited before, and if child `i` was, all
/// were. The other children are as they were. Child `i` has one more
/// visit, which counted the reward turned round. A child that was proven
/// brought its proof; one that was not proven and was visited fewer than
/// [`SIM_THRESHOLD`] times brought the point of one playout.
pub open spec fn is_visit(before: Seq<Tally>, after: Seq<Node>, i: int, brought: Reward) -> bool {
    &&& before.len() == after.len()
    &&& 0 <= i < before.len()
    &&& forall|j: int| 0 <= j < i ==> (#[trigger] before[j]).visits > 0
    &&& before[i].visits > 0 ==> forall|j: int|
        0 <= j < before.len() ==> (#[trigger] before[j]).visits > 0
    &&& forall|j: int|
        0 <= j < before.len() && j != i ==> (#[trigger] after[j]).stats() == before[j]
    &&& after[i].stats() == before[i].updated(brought.turned())
    &&& match before[i].proven {
        Some(Outcome::Win) => brought == Reward::Loss,
        Some(Outcome::Loss) => brought == Reward::Win,
        None => before[i].visits < SIM_THRESHOLD ==> brought == Reward::Plus || brought
            == Reward::Minus,
    }
}

/// The child that an iteration visits where every child was visited before:
/// the one that the selection names, or the first if it names none.
pub open spec fn named_child(named: usize, children: nat) -> int {
    if named < children {
        named as int
    } else {
        0
    }
}

/// An iteration that leaves all children but one as they were, and counts
/// for that one what it brought, has visited it.
proof fn lemma_visit(
    found: Seq<Tally>,
    before: Seq<Node>,
    after: Seq<Node>,
    i: int,
    brought: Reward,
)
    requires
        found.len() == before.len(),
        before.len() == after.len(),
        0 <= i < before.len(),
        forall|j: int| 0 <= j < before.len() ==> #[trigger] found[j] == before[j].stats(),
        forall|j: int| 0 <= j < before.len() && j != i ==> #[trigger] after[j] == before[j],
        forall|j: int| 0 <= j < i ==> (#[trigger] before[j]).stats().visits > 0,
        before[i].stats().visits > 0 ==> forall|j: int|
            0 <= j < before.len() ==> (#[trigger] before[j]).stats().visits > 0,
        after[i].stats() == before[i].stats().updated(brought.turned()),
        match before[i].stats().proven {
            Some(Outcome::Win) => brought == Reward::Loss,
            Some(Outcome::Loss) => brought == Reward::Win,
            None => before[i].stats().visits < SIM_THRESHOLD ==> brought == Reward::Plus
                || brought == Reward::Minus,
        },
    ensures
        is_visit(found, after, i, brought),
{
    assert forall|j: int| 0 <= j < i implies (#[trigger] found[j]).visits > 0 by {
        assert(before[j].stats().visits > 0);
    }
    if found[i].visits > 0 {
        assert forall|j: int| 0 <= j < found.len() implies (#[trigger] found[j]).visits > 0 by {
            assert(before[j].stats().visits > 0);
        }
    }
    assert forall|j: int| 0 <= j < found.len() && j != i implies (#[trigger] after[j]).stats()
        == found[j] by {
        assert(after[j] == before[j]);
    }
}

/// What is proven of a position that is decided is what is decided.
pub proof fn lemma_proven_decided(v: BoardView, outcome: Outcome)
    requires
        proven(v, outcome),
        v.verdict() is Some,
    ensures
        outcome == Outcome::Win <==> v.verdict() == Some(v.turn),
{
    let reason = choose|reason: Reason| shows(reason, v, outcome);
    assert(shows(reason, v, outcome));
}

/// A node of the search tree.
#[derive(Debug)]
pub struct Node {
    board: Board,
    children: Vec<Node>,
    tally: Tally,
}

/// The sum of the visits of the nodes.
pub open spec fn visits_sum(kids: Seq<Node>) -> int
    decreases kids.len(),
{
    if kids.len() == 0 {
        0
    } else {
        visits_sum(kids.drop_last()) + kids.last().stats().visits
    }
}

/// Where no node was visited, the sum of the visits is 0.
pub proof fn lemma_sum_none(kids: Seq<Node>)
    requires
        forall|i: int| 0 <= i < kids.len() ==> (#[trigger] kids[i]).stats().visits == 0,
    ensures
        visits_sum(kids) == 0,
    decreases kids.len(),
{
    if kids.len() > 0 {
        assert forall|i: int| 0 <= i < kids.drop_last().len() implies (
        #[trigger] kids.drop_last()[i]).stats().visits == 0 by {
            assert(kids.drop_last()[i] == kids[i]);
        }
        lemma_sum_none(kids.drop_last());
    }
}

/// One more visit of one node is one more in the sum of the visits.
pub proof fn lemma_sum_one_more(before: Seq<Node>, after: Seq<Node>, i: int)
    requires
        before.len() == after.len(),
        0 <= i < before.len(),
        after[i].stats().visits == before[i].stats().visits + 1,
        forall|j: int|
            0 <= j < before.len() && j != i ==> (#[trigger] after[j]).stats().visits
                == before[j].stats().visits,
    ensures
        visits_sum(after) == visits_sum(before) + 1,
    decreases before.len(),
{
    let fewer = before.drop_last();
    let fewer_after = after.drop_last();
    if i == before.len() - 1 {
        lemma_sum_same(fewer, fewer_after);
    } else {
        assert forall|j: int| 0 <= j < fewer.len() && j != i implies (
        #[trigger] fewer_after[j]).stats().visits == fewer[j].stats().visits by {
            assert(fewer_after[j] == after[j]);
        }
        lemma_sum_one_more(fewer, fewer_after, i);
        assert(after.last() == after[after.len() - 1]);
    }
}

/// Nodes with the same visits have the same sum of visits.
pub proof fn lemma_sum_same(before: Seq<Node>, after: Seq<Node>)
    requires
        before.len() == after.len(),
        forall|j: int|
            0 <= j < before.len() ==> (#[trigger] after[j]).stats().visits
                == before[j].stats().visits,
    ensures
        visits_sum(after) == visits_sum(before),
    decreases before.len(),
{
    if before.len() > 0 {
        assert forall|j: int| 0 <= j < before.drop_last().len() implies (
        #[trigger] after.drop_last()[j]).stats().visits == before.drop_last()[j].stats().visits by {
            assert(after.drop_last()[j] == after[j]);
        }
        lemma_sum_same(before.drop_last(), after.drop_last());
        assert(after.last() == after[after.len() - 1]);
    }
}

impl Node {
    /// The position of the node.
    pub closed spec fn position(&self) -> BoardView {
        self.board@
    }

    /// What is known of the value of the node.
    pub closed spec fn stats(&self) -> Tally {
        self.tally
    }

    /// The children of the node.
    pub closed spec fn kids(&self) -> Seq<Node> {
        self.children@
    }

    /// Whether the node was never visited and has no children.
    pub open spec fn fresh(&self) -> bool {
        &&& self.kids().len() == 0
        &&& self.stats() == Tally::fresh()
    }

    /// The tallies of the children as an iteration finds them: those of the
    /// children that the node has, and for a node without children those of
    /// the children that it is about to get, one for each legal successor,
    /// none of them visited.
    pub open spec fn tallies(&self) -> Seq<Tally> {
        if self.kids().len() > 0 {
            Seq::new(self.kids().len(), |j: int| self.kids()[j].stats())
        } else {
            Seq::new(self.position().moves().len(), |j: int| Tally::fresh())
        }
    }

    /// Whether the children are the legal successors of the position, in
    /// their order.
    pub open spec fn expanded(&self) -> bool {
        &&& self.kids().len() == self.position().moves().len()
        &&& forall|i: int|
            0 <= i < self.kids().len() ==> (#[trigger] self.kids()[i]).position()
                == self.position().moves()[i]
    }

    /// What holds of every node of a search tree: the position is a board's,
    /// the sum of points is one that its visits can have brought, what is
    /// held to be proven of the position is proven, a node with children has
    /// the legal successors for children, no child was visited more often
    /// than the node, and the same holds of every child.
    pub closed spec fn wf(&self) -> bool
        decreases self,
    {
        &&& self.board.inv()
        &&& self.tally.inv()
        &&& self.tally.proven matches Some(outcome) ==> proven(self.board@, outcome)
        &&& self.children@.len() > 0 ==> self.expanded()
        &&& forall|i: int|
            0 <= i < self.children@.len() ==> (#[trigger] self.children@[i]).wf()
                && self.children@[i].tally.visits <= self.tally.visits
    }

    /// Whether the visits of the node are the visits of its children taken
    /// together.
    pub open spec fn balanced(&self) -> bool {
        self.stats().visits == visits_sum(self.kids())
    }

    /// Whether the search goes on below the node: its position is not
    /// decided and the player to move has a legal move.
    pub open spec fn open_ended(&self) -> bool {
        self.position().verdict() is None && self.position().moves().len() > 0
    }

    /// A node for `board` that was never visited.
    pub fn new(board: Board) -> (node: Node)
        requires
            board.inv(),
        ensures
            node.wf(),
            node.fresh(),
            node.position() == board@,
    {
        Node { board, children: Vec::new(), tally: Tally { total: 0, visits: 0, proven: None } }
    }

    /// The board of the node.
    pub fn board(&self) -> (b: &Board)
        ensures
            b@ == self.position(),
            self.wf() ==> b.inv(),
    {
        &self.board
    }

    /// The children of the node.
    pub fn children(&self) -> (kids: &Vec<Node>)
        ensures
            kids@ == self.kids(),
            self.wf() ==> forall|i: int|
                0 <= i < kids@.len() ==> (#[trigger] kids@[i]).wf() && kids@[i].stats().visits
                    <= self.stats().visits,
            self.wf() && kids@.len() > 0 ==> self.expanded(),
    {
        &self.children
    }

    /// What is known of the value of the node.
    pub fn tally(&self) -> (t: Tally)
        ensures
            t == self.stats(),
            self.wf() ==> t.inv(),
            self.wf() ==> (t.proven matches Some(outcome) ==> proven(self.position(), outcome)),
    {
        self.tally
    }

    /// Counts one more visit that brought `reward`.
    fn update(&mut self, reward: Reward)
        requires
            old(self).tally.visits < u32::MAX,
            old(self).tally.inv(),
            old(self).tally.proven matches Some(outcome) ==> proven(old(self).board@, outcome),
            reward == Reward::Win ==> proven(old(self).board@, Outcome::Win),
            reward == Reward::Loss ==> proven(old(self).board@, Outcome::Loss),
        ensures
            final(self).tally == old(self).tally.updated(reward),
            final(self).tally.inv(),
            final(self).tally.proven matches Some(outcome) ==> proven(final(self).board@, outcome),
            final(self).board == old(self).board,
            final(self).children == old(self).children,
    {
        self.tally.visits = self.tally.visits + 1;
        if self.tally.proven.is_none() {
            match reward {
                Reward::Win => {
                    self.tally.proven = Some(Outcome::Win);
                },
                Reward::Loss => {
                    self.tally.proven = Some(Outcome::Loss);
                },
                Reward::Plus => {
                    self.tally.total = self.tally.total + 1;
                },
                Reward::Minus => {
                    self.tally.total = self.tally.total - 1;
                },
            }
        }
    }

    /// Gives a node without children the legal successors of its position
    /// for children, none of them visited.
    fn expand(&mut self)
        requires
            old(self).board.inv(),
            old(self).children@.len() == 0,
        ensures
            final(self).board == old(self).board,
            final(self).tally == old(self).tally,
            final(self).expanded(),
            forall|i: int|
                0 <= i < final(self).children@.len() ==> (#[trigger] final(self).children@[i]).wf()
                    && final(self).children@[i].fresh(),
    {
        let moves = self.board.moves();
        let ghost listed = moves@;
        let mut i: usize = 0;
        while i < moves.len()
            invariant
                i <= moves.len(),
                moves@ == listed,
                self.board == old(self).board,
                self.tally == old(self).tally,
                self.children@.len() == i,
                forall|j: int| 0 <= j < listed.len() ==> (#[trigger] listed[j]).inv(),
                forall|j: int|
                    0 <= j < self.children@.len() ==> {
                        &&& (#[trigger] self.children@[j]).wf()
                        &&& self.children@[j].fresh()
                        &&& self.children@[j].board@ == listed[j]@
                    },
            decreases moves.len() - i,
        {
            let node = Node::new(moves[i].duplicate());
            self.children.push(node);
            i = i + 1;
        }
        proof {
            assert forall|i: int| 0 <= i < self.kids().len() implies (
            #[trigger] self.kids()[i]).position() == self.position().moves()[i] by {
                assert(self.children@[i].board@ == listed[i]@);
                assert(views(listed)[i] == listed[i]@);
            }
        }
    }

    /// The child to visit: the first child that was never visited, and if
    /// every child was visited the one that `select` names, or the first
    /// child if it names none.
    fn pick<F: Fn(&Node) -> usize>(&self, select: &F) -> (i: usize)
        requires
            self.children@.len() > 0,
            forall|n: &Node| n.kids().len() > 0 ==> #[trigger] call_requires(*select, (n,)),
        ensures
            i < self.children@.len(),
            forall|j: int| 0 <= j < i ==> (#[trigger] self.children@[j]).tally.visits > 0,
            self.children@[i as int].tally.visits > 0 ==> forall|j: int|
                0 <= j < self.children@.len() ==> (#[trigger] self.children@[j]).tally.visits > 0,
            self.children@[i as int].tally.visits > 0 ==> exists|named: usize|
                #[trigger] call_ensures(*select, (self,), named) && i == named_child(
                    named,
                    self.children@.len(),
                ),
    {
        let mut k: usize = 0;
        while k < self.children.len()
            invariant
                k <= self.children@.len(),
                forall|j: int| 0 <= j < k ==> (#[trigger] self.children@[j]).tally.visits > 0,
            decreases self.children@.len() - k,
        {
            if self.children[k].tally.visits == 0 {
                return k;
            }
            k = k + 1;
        }
        let named = select(self);
        let i = if named < self.children.len() {
            named
        } else {
            0
        };
        proof {
            assert(call_ensures(*select, (self,), named) && i == named_child(
                named,
                self.children@.len(),
            ));
        }
        i
    }

    /// Whether every child is a proven win for the player to move there.
    fn all_children_win(&self) -> (r: bool)
        ensures
            r == forall|j: int|
                0 <= j < self.children@.len() ==> (#[trigger] self.children@[j]).tally.proven
                    == Some(Outcome::Win),
    {
        let mut k: usize = 0;
        while k < self.children.len()
            invariant
                k <= self.children@.len(),
                forall|j: int|
                    0 <= j < k ==> (#[trigger] self.children@[j]).tally.proven == Some(
                        Outcome::Win,
                    ),
            decreases self.children@.len() - k,
        {
            match self.children[k].tally.proven {
                Some(Outcome::Win) => {},
                _ => {
                    return false;
                },
            }
            k = k + 1;
        }
        true
    }
}

/// What a tree holds to be proven of a child of its root is proven of the
/// successor that the child stands for.
pub proof fn lemma_child_proven(root: Node, i: int)
    requires
        root.wf(),
        0 <= i < root.kids().len(),
    ensures
        root.kids().len() == root.position().moves().len(),
        root.kids()[i].position() == root.position().moves()[i],
        root.kids()[i].stats().proven matches Some(outcome) ==> proven(
            root.position().moves()[i],
            outcome,
        ),
{
    reveal_with_fuel(Node::wf, 2);
    assert(root.children@[i].wf());
}

/// One iteration of the search from `node`. Returns what the iteration
/// brought for the player to move at `node`, which is also counted there.
///
/// A position that is decided is a proven win or loss. Where the player to
/// move has no legal move, that is a proven loss. Else a child is visited:
/// the first that was never visited, or the one that `select` names. A child
/// that is proven brings its proof; one that was visited fewer than
/// [`SIM_THRESHOLD`] times is played out and brings a point to the winner;
/// any other is searched in turn. What the child brings counts for the other
/// player at `node`; but a loss that is proven is only a point lost as long
/// as some child is not a proven win for the player to move there.
#[verifier::rlimit(60)]
pub fn solver<F: Fn(&Node) -> usize>(node: &mut Node, rng: &mut StdRng, select: &F) -> (r:
    Reward)
    requires
        old(node).wf(),
        old(node).stats().visits < u32::MAX,
        forall|n: &Node| n.kids().len() > 0 ==> #[trigger] call_requires(*select, (n,)),
    ensures
        final(node).wf(),
        final(node).position() == old(node).position(),
        final(node).stats() == old(node).stats().updated(r),
        final(node).position().verdict() is None ==> final(node).kids().len() == final(
            node
        ).position().moves().len(),
        old(node).kids().len() > 0 ==> final(node).kids().len() == old(node).kids().len(),
        old(node).position().verdict() is Some ==> final(node).kids() == old(node).kids(),
        old(node).position().verdict() is None && old(node).kids().len() > 0 ==> exists|i: int|
            {
                &&& 0 <= i < old(node).kids().len()
                &&& (#[trigger] final(node).kids()[i]).stats().visits == old(
                    node
                ).kids()[i].stats().visits + 1
                &&& forall|j: int|
                    0 <= j < old(node).kids().len() && j != i ==> #[trigger] final(node).kids()[j]
                        == old(node).kids()[j]
            },
        old(node).open_ended() ==> exists|i: int, brought: Reward|
            {
                &&& #[trigger] is_visit(old(node).tallies(), final(node).kids(), i, brought)
                &&& r == backed_up(final(node).kids(), brought)
                &&& old(node).tallies()[i].visits > 0 ==> exists|named: usize|
                    #[trigger] call_ensures(*select, (&*old(node),), named) && i == named_child(
                        named,
                        old(node).kids().len(),
                    )
            },
        old(node).position().verdict() is None && old(node).position().moves().len() == 0 ==> r
            == Reward::Loss,
        final(node).position().verdict() matches Some(winner) ==> r == (if winner == old(
            node
        ).position().turn {
            Reward::Win
        } else {
            Reward::Loss
        }) && final(node).stats().proven == Some(
            if winner == old(node).position().turn {
                Outcome::Win
            } else {
                Outcome::Loss
            },
        ),
        old(node).open_ended() && (old(node).fresh() || old(node).balanced()) ==> final(
            node
        ).balanced(),
        r == Reward::Win ==> proven(final(node).position(), Outcome::Win),
        r == Reward::Loss ==> proven(final(node).position(), Outcome::Loss),
    decreases *old(node),
{
    let ghost entered = *node;
    let ghost found = node.tallies();
    let decided = verdict(&node.board);
    match decided {
        Some(winner) => {
            let r = if winner == node.board.turn() {
                Reward::Win
            } else {
                Reward::Loss
            };
            proof {
                assert(shows(
                    Reason::Decided,
                    node.board@,
                    if winner == node.board@.turn {
                        Outcome::Win
                    } else {
                        Outcome::Loss
                    },
                ));
                match node.tally.proven {
                    Some(outcome) => {
                        lemma_proven_decided(node.board@, outcome);
                    },
                    None => {},
                }
            }
            node.update(r);
            return r;
        },
        None => {},
    }
    if node.children.len() == 0 {
        node.expand();
        proof {
            lemma_sum_none(node.children@);
        }
    }
    if node.children.len() == 0 {
        proof {
            assert(shows(Reason::Stuck, node.board@, Outcome::Loss));
        }
        node.update(Reward::Loss);
        return Reward::Loss;
    }
    let i = node.pick(select);
    let ghost before = node.children@;
    let ghost chosen = node.children@[i as int];
    proof {
        reveal_with_fuel(Node::wf, 2);
        assert(found.len() == before.len());
        assert forall|j: int| 0 <= j < before.len() implies #[trigger] found[j]
            == before[j].stats() by {
            if entered.children@.len() == 0 {
                assert(before[j].fresh());
            }
        }
        if chosen.tally.visits > 0 {
            assert(before[0].tally.visits > 0);
            assert(entered.children@.len() > 0);
            assert(*node == entered);
        }
    }
    let known = node.children[i].tally.proven;
    let brought = match known {
        Some(outcome) => {
            node.children[i].tally.visits = node.children[i].tally.visits + 1;
            match outcome {
                Outcome::Win => Reward::Loss,
                Outcome::Loss => Reward::Win,
            }
        },
        None => {
            if node.children[i].tally.visits < SIM_THRESHOLD {
                let winner = simulate(&node.children[i].board, rng, SIM_LIMIT);
                let point = if winner == node.children[i].board.turn() {
                    Reward::Plus
                } else {
                    Reward::Minus
                };
                node.children[i].update(point);
                point.negate()
            } else {
                proof {
                    assert(entered.children@.len() > 0);
                    assert(node.children@ == entered.children@);
                }
                solver(&mut node.children[i], rng, select).negate()
            }
        },
    };
    proof {
        assert(node.children@.len() == before.len());
        assert forall|j: int| 0 <= j < before.len() && j != i implies #[trigger] node.children@[j]
            == before[j] by {}
        assert(node.children@[i as int].tally.visits == chosen.tally.visits + 1);
        assert(node.children@[i as int].board@ == chosen.board@);
        assert(node.children@[i as int].wf());
        lemma_sum_one_more(before, node.children@, i as int);
        assert(brought == Reward::Win ==> node.children@[i as int].tally.proven == Some(
            Outcome::Loss,
        ));
        assert(node.children@[i as int].tally == chosen.tally.updated(brought.turned()));
        lemma_visit(found, before, node.children@, i as int, brought);
    }
    let r = match brought {
        Reward::Loss => {
            if node.all_children_win() {
                Reward::Loss
            } else {
                Reward::Minus
            }
        },
        other => other,
    };
    proof {
        let v = node.board@;
        if r == Reward::Win {
            let reply = choose|reply: Reason| shows(reply, v.moves()[i as int], Outcome::Loss);
            assert(shows(
                Reason::Move { index: i as int, reply: Box::new(reply) },
                v,
                Outcome::Win,
            ));
        }
        if r == Reward::Loss {
            let each = Seq::new(
                v.moves().len(),
                |j: int| choose|reason: Reason| shows(reason, v.moves()[j], Outcome::Win),
            );
            assert forall|j: int| 0 <= j < each.len() implies shows(
                #[trigger] each[j],
                v.moves()[j],
                Outcome::Win,
            ) by {
                assert(node.children@[j].wf());
                assert(node.children@[j].tally.proven == Some(Outcome::Win));
                assert(proven(v.moves()[j], Outcome::Win));
            }
            assert(shows(Reason::Every { each }, v, Outcome::Loss));
        }
        assert(r == backed_up(node.children@, brought));
    }
    node.update(r);
    r
}

/// Whether one iteration of the search leads from the node `before` to the
/// node `after` and brings `r` for the player to move there.
///
/// The position stays, and the visit is counted with what it brought. At a
/// decided position the children stay as they are, and the iteration brings
/// the proven win or loss. Where the player to move has no legal move it
/// brings a proven loss. Else the node has its legal successors for
/// children, one of them is visited as [`is_visit`] says, where all were
/// visited before the one that `select` named, and what the child brought is
/// backed up as [`backed_up`] says.
pub open spec fn iterates<F: Fn(&Node) -> usize>(
    before: Node,
    after: Node,
    select: F,
    r: Reward,
) -> bool {
    let v = before.position();
    &&& after.position() == v
    &&& after.stats() == before.stats().updated(r)
    &&& match v.verdict() {
        Some(winner) => {
            &&& after.kids() == before.kids()
            &&& r == (if winner == v.turn {
                Reward::Win
            } else {
                Reward::Loss
            })
        },
        None => if v.moves().len() == 0 {
            r == Reward::Loss && after.kids().len() == 0
        } else {
            exists|i: int, brought: Reward|
                {
                    &&& #[trigger] is_visit(before.tallies(), after.kids(), i, brought)
                    &&& r == backed_up(after.kids(), brought)
                    &&& before.tallies()[i].visits > 0 ==> exists|named: usize|
                        #[trigger] call_ensures(select, (&before,), named) && i == named_child(
                            named,
                            before.kids().len(),
                        )
                }
        },
    }
}

/// Whether an iteration of the search leads from node `k` of `line` to the
/// next.
pub open spec fn iterates_at<F: Fn(&Node) -> usize>(line: Seq<Node>, select: F, k: int) -> bool {
    exists|r: Reward| #[trigger] iterates(line[k], line[k + 1], select, r)
}

/// Whether the search grew `root` from the position `v` in `iterations`
/// iterations: there is a line of nodes, from a node for `v` that was never
/// visited to `root`, each of which an iteration leads to the next.
pub open spec fn grown<F: Fn(&Node) -> usize>(
    v: BoardView,
    root: Node,
    iterations: int,
    select: F,
) -> bool {
    exists|line: Seq<Node>|
        {
            &&& #[trigger] line.len() == iterations + 1
            &&& line[0].fresh()
            &&& line[0].position() == v
            &&& line.last() == root
            &&& forall|k: int| 0 <= k < iterations ==> #[trigger] iterates_at(line, select, k)
        }
}

/// A tree grown from `board` by `iterations` iterations of the search.
pub fn grow<F: Fn(&Node) -> usize>(
    board: &Board,
    iterations: u32,
    rng: &mut StdRng,
    select: &F,
) -> (root: Node)
    requires
        board.inv(),
        forall|n: &Node| n.kids().len() > 0 ==> #[trigger] call_requires(*select, (n,)),
    ensures
        root.wf(),
        root.position() == board@,
        root.stats().visits == iterations,
        iterations > 0 ==> root.kids().len() == board@.moves().len() || board@.verdict() is Some,
        iterations > 0 && root.open_ended() ==> root.balanced(),
        board@.verdict() is Some ==> root.kids().len() == 0,
        grown(board@, root, iterations as int, *select),
{
    let mut root = Node::new(board.duplicate());
    let mut done: u32 = 0;
    let ghost mut line = seq![root];
    while done < iterations
        invariant
            done <= iterations,
            root.wf(),
            root.position() == board@,
            root.stats().visits == done,
            done > 0 ==> root.kids().len() == board@.moves().len() || board@.verdict() is Some,
            board@.verdict() is Some ==> root.kids().len() == 0,
            root.open_ended() ==> (if done == 0 {
                root.fresh()
            } else {
                root.balanced()
            }),
            forall|n: &Node| n.kids().len() > 0 ==> #[trigger] call_requires(*select, (n,)),
            line.len() == done + 1,
            line[0].fresh(),
            line[0].position() == board@,
            line.last() == root,
            forall|k: int| 0 <= k < done ==> #[trigger] iterates_at(line, *select, k),
        decreases iterations - done,
    {
        let ghost before = root;
        let ghost so_far = line;
        let r = solver(&mut root, rng, select);
        proof {
            assert(iterates(before, root, *select, r));
            line = so_far.push(root);
            assert forall|k: int| 0 <= k < done + 1 implies #[trigger] iterates_at(
                line,
                *select,
                k,
            ) by {
                if k < done {
                    assert(iterates_at(so_far, *select, k));
                    assert(line[k] == so_far[k] && line[k + 1] == so_far[k + 1]);
                    let x = choose|x: Reward| #[trigger] iterates(so_far[k], so_far[k + 1], *select, x);
                    assert(iterates(line[k], line[k + 1], *select, x));
                } else {
                    assert(line[k] == before && line[k + 1] == root);
                }
            }
        }
        done = done + 1;
    }
    root
}

} // verus!
