//! The breadth-first search behind the path queries, and why it finds a
//! shortest route.
//!
//! The search keeps every walk it has found, in the order in which it found
//! them. The walks before `head` are expanded: every open step from their end
//! leads to the end of a walk that is in the list too and at most one step
//! longer, and to no goal square.

use vstd::prelude::*;
use crate::board::{copy_route, Board};
use crate::model::{earlier, parts_at, step_rank, Walls};
use crate::routes::{
    lemma_best_route, lemma_direction_of, lemma_distance, lemma_earlier_chain,
    lemma_earlier_grows,
};
use crate::square::{Direction, Player};

verus! {

/// The state of a search for a route of `player` from `from`.
pub struct Search {
    pub walls: Walls,
    pub player: Player,
    pub from: int,
    /// The squares that no walk may enter.
    pub barred: Set<int>,
    /// Whether the search labels squares with their distance, walking onto
    /// the goal row and not beyond it, or looks for a route, and ends with
    /// the first step onto the goal row.
    pub labelling: bool,
    /// The walks found so far, in the order in which they were found.
    pub walks: Seq<Seq<u8>>,
    /// The number of walks that are expanded.
    pub head: int,
    /// For each square, whether a walk to it was found.
    pub seen: Seq<bool>,
}

/// The square a walk from `from` ends on.
pub open spec fn end_of(from: int, walk: Seq<u8>) -> int {
    if walk.len() == 0 {
        from
    } else {
        walk.last() as int
    }
}

/// The number of entries of `seen` that are set.
pub open spec fn marked(seen: Seq<bool>) -> nat
    decreases seen.len(),
{
    if seen.len() == 0 {
        0
    } else {
        marked(seen.drop_last()) + if seen.last() {
            1nat
        } else {
            0nat
        }
    }
}

/// No more entries are set than there are.
pub proof fn lemma_marked_bound(seen: Seq<bool>)
    ensures
        marked(seen) <= seen.len(),
    decreases seen.len(),
{
    if seen.len() > 0 {
        lemma_marked_bound(seen.drop_last());
    }
}

/// Setting an entry that was clear adds one to the number of set entries.
pub proof fn lemma_marked_update(seen: Seq<bool>, i: int)
    requires
        0 <= i < seen.len(),
        !seen[i],
    ensures
        marked(seen.update(i, true)) == marked(seen) + 1,
    decreases seen.len(),
{
    let after = seen.update(i, true);
    if i == seen.len() - 1 {
        assert(after.drop_last() =~= seen.drop_last());
    } else {
        lemma_marked_update(seen.drop_last(), i);
        assert(after.drop_last() =~= seen.drop_last().update(i, true));
    }
}

impl Search {
    /// The square that walk `k` ends on.
    pub open spec fn end(self, k: int) -> int {
        end_of(self.from, self.walks[k])
    }

    /// Whether some walk found so far ends on `sq` and has at most `bound` steps.
    pub open spec fn reached(self, sq: int, bound: int) -> bool {
        exists|j: int|
            0 <= j < self.walks.len() && #[trigger] self.end(j) == sq && self.walks[j].len()
                <= bound
    }

    /// Whether the search may have found `walk`: it is a walk that enters no
    /// barred square and, when the search labels, leaves no goal square.
    pub open spec fn admits(self, walk: Seq<u8>) -> bool {
        &&& self.walls.is_walk(self.from, walk)
        &&& forall|i: int|
            0 <= i < walk.len() ==> {
                &&& !self.barred.contains(#[trigger] walk[i] as int)
                &&& self.labelling && i < walk.len() - 1 ==> !self.player.is_goal(walk[i] as int)
            }
    }

    /// Whether the search goes on from the end of walk `k`: always when it
    /// looks for a route and from where it began, else only off the goal row.
    pub open spec fn expands(self, k: int) -> bool {
        k == 0 || !(self.labelling && self.player.is_goal(self.end(k)))
    }

    /// Whether the step from the end of walk `k` in direction `d` is dealt
    /// with: it leads to no goal square if a route is looked for, and to a
    /// barred square or to where a walk at most one step longer ends.
    pub open spec fn covered(self, k: int, d: Direction) -> bool {
        let to = self.end(k) + d.delta();
        &&& self.labelling || !self.player.is_goal(to)
        &&& self.barred.contains(to) || self.reached(to, self.walks[k].len() + 1 as int)
    }

    /// What holds throughout a search.
    pub open spec fn inv(self) -> bool {
        &&& 0 <= self.from < 81
        &&& self.seen.len() == 81
        &&& self.walks.len() > 0
        &&& self.walks[0].len() == 0
        &&& 0 <= self.head <= self.walks.len()
        &&& marked(self.seen) == self.walks.len()
        &&& forall|k: int|
            0 <= k < self.walks.len() ==> {
                &&& self.admits(#[trigger] self.walks[k])
                &&& 0 <= self.end(k) < 81
                &&& self.seen[self.end(k)]
                &&& k > 0 ==> 0 < self.walks[k].len() <= k
            }
        &&& forall|sq: int|
            0 <= sq < 81 && #[trigger] self.seen[sq] ==> self.reached(
                sq,
                self.walks.last().len() as int,
            )
        &&& forall|j: int, k: int|
            0 <= j <= k < self.walks.len() ==> (#[trigger] self.walks[j]).len() <= (
            #[trigger] self.walks[k]).len()
        &&& self.head < self.walks.len() ==> self.walks.last().len() <= self.walks[self.head].len()
            + 1
        &&& forall|k: int, d: Direction|
            0 <= k < self.head && self.expands(k) && self.walls.open(self.end(k), d)
                ==> #[trigger] self.covered(k, d)
    }

    /// The search as it begins: the empty walk is found, nothing is expanded.
    pub open spec fn begin(
        walls: Walls,
        player: Player,
        from: int,
        barred: Set<int>,
        labelling: bool,
    ) -> Search {
        Search {
            walls,
            player,
            from,
            barred,
            labelling,
            walks: seq![Seq::<u8>::empty()],
            head: 0,
            seen: Seq::new(81, |i: int| i == from),
        }
    }

    /// The search after it found the walk `walk`.
    pub open spec fn found(self, walk: Seq<u8>) -> Search {
        Search {
            walks: self.walks.push(walk),
            seen: self.seen.update(walk.last() as int, true),
            ..self
        }
    }

    /// The search after it expanded the walk at `head`.
    pub open spec fn advanced(self) -> Search {
        Search { head: self.head + 1, ..self }
    }

    /// Whether the steps from the end of the walk at `head` in the first `n`
    /// directions are dealt with.
    pub open spec fn partly_expanded(self, n: int) -> bool {
        forall|d: Direction|
            d.rank() < n && self.walls.open(self.end(self.head), d) ==> #[trigger] self.covered(
                self.head,
                d,
            )
    }
}

impl Search {
    /// Whether walk `j` comes before walk `k` if the two are of one length.
    pub open spec fn leads(self, j: int, k: int) -> bool {
        self.walks[j].len() == self.walks[k].len() ==> earlier(
            self.from,
            self.walks[j],
            self.walks[k],
        )
    }

    /// Whether walk `k` is `other` or comes before it, if `other` is a walk
    /// of the same length to the same square.
    pub open spec fn beats(self, k: int, other: Seq<u8>) -> bool {
        self.walls.is_walk(self.from, other) && other.len() == self.walks[k].len() && end_of(
            self.from,
            other,
        ) == self.end(k) ==> other == self.walks[k] || earlier(self.from, self.walks[k], other)
    }

    /// Whether walk `k` is walk `p` and one step more, where walk `p` is
    /// expanded or is the walk at `head` and the step is in one of its
    /// first `n` directions.
    pub open spec fn grew_from(self, k: int, p: int, n: int) -> bool {
        &&& 0 <= p <= self.head
        &&& p < self.walks.len()
        &&& self.walks[k].len() > 0
        &&& self.walks[k] == self.walks[p].push(self.walks[k].last())
        &&& p == self.head ==> step_rank(self.end(p), self.end(k)) < n
    }

    /// Whether walk `k` grew from an earlier walk.
    pub open spec fn grown(self, k: int, n: int) -> bool {
        exists|p: int| #[trigger] self.grew_from(k, p, n)
    }

    /// What holds of the order of the walks throughout a search for a route:
    /// of two walks of one length the one found first comes first, each walk
    /// comes before the other walks of its length to its square, and each
    /// walk but the empty one grew from a walk before it.
    pub open spec fn ordered(self, n: int) -> bool {
        &&& forall|j: int, k: int| 0 <= j < k < self.walks.len() ==> #[trigger] self.leads(j, k)
        &&& forall|k: int, other: Seq<u8>|
            0 <= k < self.walks.len() ==> #[trigger] self.beats(k, other)
        &&& forall|k: int| 0 < k < self.walks.len() ==> #[trigger] self.grown(k, n)
    }

    /// Whether the search looks for a route and bars no square.
    pub open spec fn seeks_route(self) -> bool {
        !self.labelling && self.barred == Set::<int>::empty()
    }
}

/// The walks are in order as the search begins.
pub proof fn lemma_ordered_begin(walls: Walls, player: Player, from: int)
    requires
        0 <= from < 81,
    ensures
        Search::begin(walls, player, from, Set::empty(), false).ordered(0),
{
    let s = Search::begin(walls, player, from, Set::empty(), false);
    assert forall|k: int, other: Seq<u8>| 0 <= k < s.walks.len() implies #[trigger] s.beats(
        k,
        other,
    ) by {
        if other.len() == 0 {
            assert(other =~= s.walks[0]);
        }
    }
}

/// The order of the walks does not depend on how far the walk at `head` is
/// expanded, as long as that is no less far than before.
pub proof fn lemma_ordered_skip(s: Search, n: int)
    requires
        s.ordered(n),
    ensures
        s.ordered(n + 1),
{
    assert forall|k: int| 0 < k < s.walks.len() implies #[trigger] s.grown(k, n + 1) by {
        assert(s.grown(k, n));
        let p = choose|p: int| #[trigger] s.grew_from(k, p, n);
        assert(s.grew_from(k, p, n + 1));
    }
    assert forall|j: int, k: int| 0 <= j < k < s.walks.len() implies #[trigger] s.leads(j, k) by {
        assert(s.leads(j, k));
    }
    assert forall|k: int, other: Seq<u8>| 0 <= k < s.walks.len() implies #[trigger] s.beats(
        k,
        other,
    ) by {
        assert(s.beats(k, other));
    }
}

/// The walks stay in order when the search goes on to the next walk.
pub proof fn lemma_ordered_advance(s: Search, n: int)
    requires
        s.ordered(n),
        s.head < s.walks.len(),
    ensures
        s.advanced().ordered(0),
{
    let t = s.advanced();
    assert forall|k: int| 0 < k < t.walks.len() implies #[trigger] t.grown(k, 0) by {
        assert(s.grown(k, n));
        let p = choose|p: int| #[trigger] s.grew_from(k, p, n);
        assert(t.grew_from(k, p, 0));
    }
    assert forall|j: int, k: int| 0 <= j < k < t.walks.len() implies #[trigger] t.leads(j, k) by {
        assert(s.leads(j, k));
    }
    assert forall|k: int, other: Seq<u8>| 0 <= k < t.walks.len() implies #[trigger] t.beats(
        k,
        other,
    ) by {
        assert(s.beats(k, other));
    }
}

/// Where a walk one step longer than the walk at `head` stands before its
/// last step: on the end of a found walk that is expanded, or on the end of
/// a found walk as long as the walk at `head`, and then the walk at `head`
/// is what goes before the last step or comes before it.
pub proof fn lemma_locate(s: Search, n: int, walk: Seq<u8>) -> (j: int)
    requires
        s.inv(),
        s.seeks_route(),
        s.ordered(n),
        s.head < s.walks.len(),
        s.walls.is_walk(s.from, walk),
        walk.len() == s.walks[s.head].len() + 1,
    ensures
        0 <= j < s.walks.len(),
        s.end(j) == Walls::before(s.from, walk, walk.len() - 1),
        j < s.head || walk.drop_last() == s.walks[s.head] || earlier(
            s.from,
            s.walks[s.head],
            walk.drop_last(),
        ),
{
    let most = walk.drop_last();
    let len = most.len() as int;
    assert(s.walls.is_walk(s.from, most)) by {
        assert forall|i: int| 0 <= i < most.len() implies s.walls.adjacent(
            #[trigger] Walls::before(s.from, most, i),
            most[i] as int,
        ) by {
            assert(Walls::before(s.from, most, i) == Walls::before(s.from, walk, i));
            assert(s.walls.adjacent(Walls::before(s.from, walk, i), walk[i] as int));
        }
    }
    assert(s.admits(most));
    assert forall|k: int| 0 <= k < s.walks.len() && (#[trigger] s.walks[k]).len() < len implies k
        < s.head by {
        if k >= s.head {
            assert(s.walks[s.head].len() <= s.walks[k].len());
        }
    }
    lemma_frontier(s, most, len);
    let j = choose|j: int|
        0 <= j < s.walks.len() && #[trigger] s.end(j) == Walls::before(s.from, most, len)
            && s.walks[j].len() <= len;
    assert(Walls::before(s.from, most, len) == Walls::before(s.from, walk, len));
    if j >= s.head {
        assert(s.walks[s.head].len() <= s.walks[j].len());
        assert(s.beats(j, most));
        assert(end_of(s.from, most) == Walls::before(s.from, most, len));
        if j > s.head {
            assert(s.leads(s.head, j));
            if most != s.walks[j] {
                lemma_earlier_chain(s.from, s.walks[s.head], s.walks[j], most);
            }
        }
    }
    j
}

/// Finding a walk keeps the walks in order.
pub proof fn lemma_ordered_found(s: Search, d: Direction, n: int)
    requires
        s.inv(),
        s.seeks_route(),
        s.ordered(n),
        d.rank() == n,
        s.head < s.walks.len(),
        s.walls.open(s.end(s.head), d),
        !s.seen[s.end(s.head) + d.delta()],
        !s.player.is_goal(s.end(s.head) + d.delta()),
    ensures
        s.found(s.walks[s.head].push((s.end(s.head) + d.delta()) as u8)).ordered(n + 1),
{
    let to = s.end(s.head) + d.delta();
    let base = s.walks[s.head];
    let walk = base.push(to as u8);
    let t = s.found(walk);
    let old_len = s.walks.len() as int;
    let len = base.len() as int;
    assert forall|k: int| 0 <= k < old_len implies t.walks[k] == s.walks[k] && t.end(k) == s.end(
        k,
    ) by {}
    assert(t.end(old_len) == to);
    assert(walk.drop_last() =~= base);
    assert forall|k: int| 0 < k < t.walks.len() implies #[trigger] t.grown(k, n + 1) by {
        if k < old_len {
            assert(s.grown(k, n));
            let p = choose|p: int| #[trigger] s.grew_from(k, p, n);
            assert(t.grew_from(k, p, n + 1));
        } else {
            assert(t.grew_from(k, s.head, n + 1));
        }
    }
    assert forall|j: int, k: int| 0 <= j < k < t.walks.len() implies #[trigger] t.leads(j, k) by {
        if k < old_len {
            assert(s.leads(j, k));
        } else if s.walks[j].len() == walk.len() {
            assert(s.grown(j, n));
            let p = choose|p: int| #[trigger] s.grew_from(j, p, n);
            let last = s.walks[j].last();
            if p < s.head {
                assert(s.leads(p, s.head));
                lemma_earlier_grows(s.from, s.walks[p], base, last, to as u8);
            } else {
                assert(s.walks[j].subrange(0, len) =~= base);
                assert(walk.subrange(0, len) =~= base);
                assert(Walls::before(s.from, s.walks[j], len) == s.end(s.head));
                assert(parts_at(s.from, s.walks[j], walk, len));
            }
        }
    }
    assert forall|k: int, other: Seq<u8>| 0 <= k < t.walks.len() implies #[trigger] t.beats(
        k,
        other,
    ) by {
        if k < old_len {
            assert(s.beats(k, other));
        } else if s.walls.is_walk(s.from, other) && other.len() == walk.len() && end_of(
            s.from,
            other,
        ) == to {
            let j = lemma_locate(s, n, other);
            let at = Walls::before(s.from, other, len);
            assert(s.walls.adjacent(at, other[len] as int));
            if j < s.head {
                let e = lemma_direction_of(s.walls, at, to);
                assert(s.covered(j, e));
                let j2 = choose|j2: int|
                    0 <= j2 < s.walks.len() && #[trigger] s.end(j2) == to && s.walks[j2].len()
                        <= s.walks[j].len() + 1;
                assert(s.seen[s.end(j2)]);
            } else {
                assert(other =~= other.drop_last().push(to as u8));
                if other.drop_last() != base {
                    lemma_earlier_grows(s.from, base, other.drop_last(), to as u8, to as u8);
                }
            }
        }
    }
}

/// A step from the walk at `head` onto the goal row, in the first direction
/// that was not dealt with, completes the first shortest route.
pub proof fn lemma_goal_first(s: Search, d: Direction, n: int)
    requires
        s.inv(),
        s.seeks_route(),
        s.ordered(n),
        s.partly_expanded(n),
        d.rank() == n,
        s.head < s.walks.len(),
        s.walls.open(s.end(s.head), d),
        s.player.is_goal(s.end(s.head) + d.delta()),
    ensures
        s.walls.is_first_route(
            s.player,
            s.from,
            s.walks[s.head].push((s.end(s.head) + d.delta()) as u8),
        ),
{
    let to = s.end(s.head) + d.delta();
    let base = s.walks[s.head];
    let route = base.push(to as u8);
    let len = base.len() as int;
    lemma_goal_found(s, d);
    assert forall|other: Seq<u8>| #[trigger]
        s.walls.is_shortest_route(s.player, s.from, other) implies other == route || earlier(
        s.from,
        route,
        other,
    ) by {
        assert(s.walls.is_route(s.player, s.from, other));
        assert(s.walls.is_route(s.player, s.from, route));
        assert(other.len() == route.len());
        let j = lemma_locate(s, n, other);
        let at = Walls::before(s.from, other, len);
        let last = other[len];
        assert(s.walls.adjacent(at, last as int));
        let e = lemma_direction_of(s.walls, at, last as int);
        assert(other =~= other.drop_last().push(last));
        if j < s.head {
            assert(s.covered(j, e));
        } else if other.drop_last() == base {
            if e.rank() < n {
                assert(s.covered(s.head, e));
            } else if e.rank() > n {
                assert(other.subrange(0, len) =~= base);
                assert(route.subrange(0, len) =~= base);
                assert(Walls::before(s.from, route, len) == s.end(s.head));
                assert(parts_at(s.from, route, other, len));
            } else {
                assert(e == d);
            }
        } else {
            lemma_earlier_grows(s.from, base, other.drop_last(), to as u8, last);
        }
    }
}

/// The search holds its invariant as it begins.
pub proof fn lemma_begin(
    walls: Walls,
    player: Player,
    from: int,
    barred: Set<int>,
    labelling: bool,
)
    requires
        0 <= from < 81,
    ensures
        Search::begin(walls, player, from, barred, labelling).inv(),
        Search::begin(walls, player, from, barred, labelling).partly_expanded(0),
{
    let s = Search::begin(walls, player, from, barred, labelling);
    let clear = Seq::new(81, |i: int| false);
    assert(marked(clear) == 0) by {
        lemma_all_clear(clear);
    }
    lemma_marked_update(clear, from);
    assert(s.seen =~= clear.update(from, true));
    assert(s.end(0) == from);
    assert forall|sq: int| 0 <= sq < 81 && #[trigger] s.seen[sq] implies s.reached(sq, 0) by {
        assert(s.end(0) == sq);
    }
}

/// Where no entry is set, the number of set entries is 0.
proof fn lemma_all_clear(seen: Seq<bool>)
    requires
        forall|i: int| 0 <= i < seen.len() ==> !seen[i],
    ensures
        marked(seen) == 0,
    decreases seen.len(),
{
    if seen.len() > 0 {
        lemma_all_clear(seen.drop_last());
    }
}

/// Finding a walk to a square not seen before keeps the invariant, and what
/// was dealt with stays so.
pub proof fn lemma_found(s: Search, d: Direction, n: int)
    requires
        s.inv(),
        s.head < s.walks.len(),
        s.partly_expanded(n),
        s.expands(s.head),
        s.walls.open(s.end(s.head), d),
        !s.seen[s.end(s.head) + d.delta()],
        !s.barred.contains(s.end(s.head) + d.delta()),
        s.labelling || !s.player.is_goal(s.end(s.head) + d.delta()),
    ensures
        ({
            let to = s.end(s.head) + d.delta();
            let t = s.found(s.walks[s.head].push(to as u8));
            &&& 0 <= to < 81
            &&& t.inv()
            &&& t.partly_expanded(n)
            &&& t.covered(t.head, d)
            &&& t.walks.len() <= 81
        }),
{
    let to = s.end(s.head) + d.delta();
    let walk = s.walks[s.head].push(to as u8);
    let t = s.found(walk);
    let old_len = s.walks.len() as int;
    assert(0 <= to < 81);
    assert(walk.last() == to as u8);
    lemma_marked_update(s.seen, to);
    lemma_marked_bound(t.seen);
    assert forall|k: int| 0 <= k < old_len implies t.walks[k] == s.walks[k] && t.end(k) == s.end(
        k,
    ) by {}
    assert(t.end(old_len) == to);
    assert(s.admits(walk)) by {
        let base = s.walks[s.head];
        assert(s.admits(base));
        assert forall|i: int| 0 <= i < walk.len() implies s.walls.adjacent(
            #[trigger] Walls::before(s.from, walk, i),
            walk[i] as int,
        ) by {
            if i < base.len() {
                assert(Walls::before(s.from, walk, i) == Walls::before(s.from, base, i));
                assert(walk[i] == base[i]);
            } else {
                assert(Walls::before(s.from, walk, i) == s.end(s.head));
            }
        }
        assert forall|i: int| 0 <= i < walk.len() implies {
            &&& !s.barred.contains(#[trigger] walk[i] as int)
            &&& s.labelling && i < walk.len() - 1 ==> !s.player.is_goal(walk[i] as int)
        } by {
            if i < base.len() {
                assert(walk[i] == base[i]);
                if i == base.len() - 1 {
                    assert(s.end(s.head) == base[i] as int);
                    assert(s.walks[0].len() == 0);
                }
            }
        }
    }
    assert forall|k: int| 0 <= k < t.walks.len() implies {
        &&& t.admits(#[trigger] t.walks[k])
        &&& 0 <= t.end(k) < 81
        &&& t.seen[t.end(k)]
        &&& k > 0 ==> 0 < t.walks[k].len() <= k
    } by {
        if k < old_len {
            assert(s.admits(s.walks[k]));
        } else {
            assert(s.admits(s.walks[s.head]));
        }
    }
    assert forall|sq: int| 0 <= sq < 81 && #[trigger] t.seen[sq] implies t.reached(
        sq,
        t.walks.last().len() as int,
    ) by {
        if sq == to {
            assert(t.end(old_len) == sq);
        } else {
            assert(s.seen[sq]);
            let j = choose|j: int|
                0 <= j < s.walks.len() && #[trigger] s.end(j) == sq && s.walks[j].len()
                    <= s.walks.last().len();
            assert(t.end(j) == sq);
            assert(s.walks[old_len - 1].len() <= s.walks[s.head].len() + 1);
        }
    }
    assert forall|j: int, k: int| 0 <= j <= k < t.walks.len() implies (#[trigger] t.walks[j]).len()
        <= (#[trigger] t.walks[k]).len() by {
        if k == old_len && j < old_len {
            assert(s.walks[j].len() <= s.walks[old_len - 1].len());
        }
    }
    assert forall|k: int, e: Direction|
        0 <= k < t.head && t.expands(k) && t.walls.open(t.end(k), e) implies #[trigger] t.covered(
        k,
        e,
    ) by {
        assert(s.covered(k, e));
        if !s.barred.contains(s.end(k) + e.delta()) {
            lemma_reached_stays(s, walk, s.end(k) + e.delta(), s.walks[k].len() + 1 as int);
        }
    }
    assert forall|e: Direction|
        e.rank() < n && t.walls.open(t.end(t.head), e) implies #[trigger] t.covered(t.head, e) by {
        assert(s.covered(s.head, e));
        if !s.barred.contains(s.end(s.head) + e.delta()) {
            lemma_reached_stays(
                s,
                walk,
                s.end(s.head) + e.delta(),
                s.walks[s.head].len() + 1 as int,
            );
        }
    }
    assert(t.covered(t.head, d)) by {
        assert(t.end(old_len) == to);
    }
}

/// What was reached stays reached when another walk is found.
proof fn lemma_reached_stays(s: Search, walk: Seq<u8>, sq: int, bound: int)
    requires
        s.reached(sq, bound),
    ensures
        s.found(walk).reached(sq, bound),
{
    let t = s.found(walk);
    let j = choose|j: int|
        0 <= j < s.walks.len() && #[trigger] s.end(j) == sq && s.walks[j].len() <= bound;
    assert(t.walks[j] == s.walks[j]);
    assert(t.end(j) == sq);
}

/// A step to a square seen before, off the goal row, is dealt with.
pub proof fn lemma_seen_is_covered(s: Search, d: Direction)
    requires
        s.inv(),
        s.head < s.walks.len(),
        s.walls.open(s.end(s.head), d),
        s.seen[s.end(s.head) + d.delta()],
        s.labelling || !s.player.is_goal(s.end(s.head) + d.delta()),
    ensures
        s.covered(s.head, d),
{
}

/// When the steps in all four directions are dealt with, the walk is
/// expanded.
pub proof fn lemma_advance(s: Search)
    requires
        s.inv(),
        s.head < s.walks.len(),
        s.partly_expanded(4) || !s.expands(s.head),
    ensures
        s.advanced().inv(),
        s.advanced().partly_expanded(0),
{
    let t = s.advanced();
    assert forall|k: int| 0 <= k < t.walks.len() implies t.end(k) == s.end(k) by {}
    assert forall|k: int, d: Direction|
        0 <= k < t.head && t.expands(k) && t.walls.open(t.end(k), d) implies #[trigger] t.covered(
        k,
        d,
    ) by {
        assert(s.expands(k));
        if k < s.head {
            assert(s.covered(k, d));
        } else {
            assert(s.covered(s.head, d));
        }
        let to = s.end(k) + d.delta();
        if !s.barred.contains(to) {
            let j = choose|j: int|
                0 <= j < s.walks.len() && #[trigger] s.end(j) == to && s.walks[j].len()
                    <= s.walks[k].len() + 1;
            assert(t.end(j) == to);
        }
    }
    assert forall|sq: int| 0 <= sq < 81 && #[trigger] t.seen[sq] implies t.reached(
        sq,
        t.walks.last().len() as int,
    ) by {
        assert(s.reached(sq, s.walks.last().len() as int));
        let j = choose|j: int|
            0 <= j < s.walks.len() && #[trigger] s.end(j) == sq && s.walks[j].len()
                <= s.walks.last().len();
        assert(t.end(j) == sq);
    }
    if t.head < t.walks.len() {
        assert(s.walks[s.head].len() <= s.walks[t.head].len());
    }
}

/// Every walk stays among the squares the search has seen, as long as it is
/// no longer than the walks that are expanded allow: if every found walk
/// shorter than `i` is expanded, the first `i` steps of a walk meet no goal
/// square, and a found walk of at most `i` steps ends where they end.
pub proof fn lemma_frontier(s: Search, walk: Seq<u8>, i: int)
    requires
        s.inv(),
        s.admits(walk),
        0 <= i <= walk.len(),
        forall|k: int| 0 <= k < s.walks.len() && (#[trigger] s.walks[k]).len() < i ==> k < s.head,
    ensures
        i >= 1 && !s.labelling ==> !s.player.is_goal(walk[i - 1] as int),
        s.reached(Walls::before(s.from, walk, i), i),
    decreases i,
{
    if i == 0 {
        assert(s.end(0) == s.from);
    } else {
        lemma_frontier(s, walk, i - 1);
        let at = Walls::before(s.from, walk, i - 1);
        let k = choose|k: int|
            0 <= k < s.walks.len() && #[trigger] s.end(k) == at && s.walks[k].len() <= i - 1;
        assert(s.walks[k].len() < i);
        assert(k < s.head);
        let to = walk[i - 1] as int;
        assert(s.walls.adjacent(at, to));
        let d = if s.walls.open(at, Direction::North) && to == at - 9 {
            Direction::North
        } else if s.walls.open(at, Direction::South) && to == at + 9 {
            Direction::South
        } else if s.walls.open(at, Direction::East) && to == at + 1 {
            Direction::East
        } else {
            Direction::West
        };
        assert(s.walls.open(at, d) && to == at + d.delta());
        assert(s.expands(k)) by {
            if i - 1 >= 1 {
                assert(!s.barred.contains(walk[i - 2] as int));
            }
        }
        assert(!s.barred.contains(walk[i - 1] as int));
        assert(s.covered(k, d));
        let j = choose|j: int|
            0 <= j < s.walks.len() && #[trigger] s.end(j) == to && s.walks[j].len()
                <= s.walks[k].len() + 1;
        assert(s.end(j) == Walls::before(s.from, walk, i));
    }
}

/// A step from the walk at `head` onto the goal row completes a shortest
/// route.
pub proof fn lemma_goal_found(s: Search, d: Direction)
    requires
        s.inv(),
        !s.labelling,
        s.barred == Set::<int>::empty(),
        s.head < s.walks.len(),
        s.walls.open(s.end(s.head), d),
        s.player.is_goal(s.end(s.head) + d.delta()),
    ensures
        s.walls.is_shortest_route(
            s.player,
            s.from,
            s.walks[s.head].push((s.end(s.head) + d.delta()) as u8),
        ),
{
    let base = s.walks[s.head];
    let to = s.end(s.head) + d.delta();
    let route = base.push(to as u8);
    assert(s.admits(base));
    assert forall|i: int| 0 <= i < route.len() implies s.walls.adjacent(
        #[trigger] Walls::before(s.from, route, i),
        route[i] as int,
    ) by {
        if i < base.len() {
            assert(Walls::before(s.from, route, i) == Walls::before(s.from, base, i));
            assert(route[i] == base[i]);
        } else {
            assert(Walls::before(s.from, route, i) == s.end(s.head));
        }
    }
    assert forall|other: Seq<u8>| #[trigger]
        s.walls.is_route(s.player, s.from, other) implies route.len() <= other.len() by {
        if other.len() <= base.len() {
            assert forall|k: int|
                0 <= k < s.walks.len() && (#[trigger] s.walks[k]).len() < other.len() implies k
                < s.head by {
                if k >= s.head {
                    assert(s.walks[s.head].len() <= s.walks[k].len());
                }
            }
            assert(s.admits(other));
            lemma_frontier(s, other, other.len() as int);
        }
    }
}

/// When every found walk is expanded, there is no route.
pub proof fn lemma_exhausted(s: Search)
    requires
        s.inv(),
        !s.labelling,
        s.barred == Set::<int>::empty(),
        s.head == s.walks.len(),
    ensures
        !s.walls.connected(s.player, s.from),
{
    if s.walls.connected(s.player, s.from) {
        let route = choose|route: Seq<u8>| s.walls.is_route(s.player, s.from, route);
        assert(s.admits(route));
        lemma_frontier(s, route, route.len() as int);
    }
}

/// When a labelling search has expanded every walk it found, the lengths of
/// the found walks are the distances along trails.
pub proof fn lemma_distances(s: Search, avoid: int, labels: Seq<int>)
    requires
        s.inv(),
        s.labelling,
        s.barred == set![s.from, avoid],
        s.head == s.walks.len(),
        labels.len() == 81,
        forall|sq: int| 0 <= sq < 81 ==> #[trigger] labels[sq] >= 0,
        forall|k: int| 0 <= k < s.walks.len() ==> labels[#[trigger] s.end(k)] == s.walks[k].len(),
        forall|sq: int| 0 <= sq < 81 ==> #[trigger] s.seen[sq] == (labels[sq] > 0 || sq == s.from),
    ensures
        forall|sq: int|
            0 <= sq < 81 ==> s.walls.is_distance(
                s.player,
                s.from,
                avoid,
                sq,
                #[trigger] labels[sq],
            ),
{
    assert forall|sq: int| 0 <= sq < 81 implies s.walls.is_distance(
        s.player,
        s.from,
        avoid,
        sq,
        #[trigger] labels[sq],
    ) by {
        let n = labels[sq];
        if n > 0 {
            assert(s.seen[sq]);
            let k = choose|k: int|
                0 <= k < s.walks.len() && #[trigger] s.end(k) == sq && s.walks[k].len()
                    <= s.walks.last().len();
            let t = s.walks[k];
            assert(s.admits(t));
            assert(s.walls.is_trail(s.player, s.from, avoid, t)) by {
                assert forall|i: int| 0 <= i < t.len() implies {
                    &&& #[trigger] t[i] as int != s.from
                    &&& t[i] as int != avoid
                    &&& i < t.len() - 1 ==> !s.player.is_goal(t[i] as int)
                } by {
                    assert(!s.barred.contains(t[i] as int));
                }
            }
        }
        assert forall|t: Seq<u8>|
            t.len() > 0 && #[trigger] s.walls.is_trail(s.player, s.from, avoid, t)
                && t.last() as int == sq implies 0 < n <= t.len() by {
            assert(s.admits(t)) by {
                assert forall|i: int| 0 <= i < t.len() implies {
                    &&& !s.barred.contains(#[trigger] t[i] as int)
                    &&& s.labelling && i < t.len() - 1 ==> !s.player.is_goal(t[i] as int)
                } by {}
            }
            lemma_frontier(s, t, t.len() as int);
            let j = choose|j: int|
                0 <= j < s.walks.len() && #[trigger] s.end(j) == sq && s.walks[j].len() <= t.len();
            assert(labels[s.end(j)] == s.walks[j].len());
            if j == 0 {
                assert(s.end(0) == s.from);
                assert(t[t.len() - 1] as int != s.from);
            }
        }
    }
}

impl Board {
    /// The first shortest route of `player` from where the pawn stands,
    /// found by a breadth-first search that tries the directions in the
    /// order North, South, East, West; empty if there is no route. Nothing
    /// is remembered.
    pub fn find_route(&self, player: Player) -> (route: Vec<u8>)
        requires
            self.inv(),
        ensures
            route@ == self@.walls.best_route(player, self@.pawn(player)),
            route@.len() <= 81,
            route@.len() == 0 <==> !self@.walls.connected(player, self@.pawn(player)),
            route@.len() > 0 ==> self@.walls.is_first_route(player, self@.pawn(player), route@),
    {
        let start = self.pawn_of(player);
        let mut queue: Vec<Vec<u8>> = Vec::new();
        queue.push(Vec::new());
        let mut crumbs: [bool; 81] = [false; 81];
        crumbs[start as usize] = true;
        let mut head: usize = 0;
        let ghost mut s = Search::begin(self@.walls, player, start as int, Set::empty(), false);
        proof {
            lemma_begin(self@.walls, player, start as int, Set::empty(), false);
            lemma_ordered_begin(self@.walls, player, start as int);
            assert(crumbs@ =~= s.seen);
            assert(queue@[0]@ =~= s.walks[0]);
        }
        while head < queue.len()
            invariant
                s.inv(),
                s.partly_expanded(0),
                s.ordered(0),
                s.walls == self@.walls,
                !s.labelling,
                s.barred == Set::<int>::empty(),
                s.player == player,
                s.from == start,
                start == self@.pawn(player),
                s.head == head,
                s.seen == crumbs@,
                s.walks.len() == queue.len(),
                forall|k: int| 0 <= k < queue.len() ==> (#[trigger] queue@[k])@ == s.walks[k],
            decreases 81 - head,
        {
            proof {
                lemma_marked_bound(s.seen);
            }
            let sqnum = if queue[head].len() == 0 {
                start
            } else {
                queue[head][queue[head].len() - 1]
            };
            assert(sqnum == s.end(head as int));
            let mut n: u8 = 0;
            while n < 4
                invariant
                    n <= 4,
                    head < queue.len(),
                    s.inv(),
                    s.partly_expanded(n as int),
                    s.ordered(n as int),
                    s.walls == self@.walls,
                    !s.labelling,
                    s.barred == Set::<int>::empty(),
                    s.player == player,
                    s.from == start,
                    start == self@.pawn(player),
                    s.head == head,
                    s.seen == crumbs@,
                    s.walks.len() == queue.len(),
                    sqnum == s.end(head as int),
                    forall|k: int| 0 <= k < queue.len() ==> (#[trigger] queue@[k])@ == s.walks[k],
                decreases 4 - n,
            {
                let direction = Direction::nth(n);
                if self.is_open(sqnum, &direction) {
                    let next = direction.move_sqnum(sqnum);
                    if player.reaches_goal_at(next) {
                        let mut route = copy_route(&queue[head]);
                        route.push(next);
                        proof {
                            lemma_marked_bound(s.seen);
                            lemma_goal_first(s, direction, n as int);
                            assert(route@ == s.walks[s.head].push(next));
                            assert(self@.walls.is_route(player, start as int, route@));
                            lemma_best_route(self@.walls, player, start as int, route@);
                        }
                        return route;
                    }
                    if !crumbs[next as usize] {
                        let mut walk = copy_route(&queue[head]);
                        walk.push(next);
                        proof {
                            lemma_found(s, direction, n as int);
                            lemma_ordered_found(s, direction, n as int);
                            s = s.found(walk@);
                        }
                        queue.push(walk);
                        crumbs[next as usize] = true;
                        proof {
                            assert(crumbs@ =~= s.seen);
                        }
                    } else {
                        proof {
                            lemma_seen_is_covered(s, direction);
                            lemma_ordered_skip(s, n as int);
                        }
                    }
                } else {
                    proof {
                        lemma_ordered_skip(s, n as int);
                    }
                }
                proof {
                    assert forall|d: Direction|
                        d.rank() < n + 1 && s.walls.open(
                            s.end(s.head),
                            d,
                        ) implies #[trigger] s.covered(s.head, d) by {
                        if d.rank() == n {
                            assert(d == direction);
                        }
                    }
                }
                n = n + 1;
            }
            proof {
                lemma_advance(s);
                lemma_ordered_advance(s, 4);
                s = s.advanced();
            }
            head = head + 1;
        }
        proof {
            lemma_exhausted(s);
        }
        Vec::new()
    }

    /// The number of steps of the shortest routes of `player` from where
    /// the pawn stands, found by a breadth-first search that keeps the
    /// lengths of the walks and not the walks; 0 if there is no route.
    pub fn route_length(&self, player: Player) -> (n: usize)
        requires
            self.inv(),
        ensures
            n == self@.walls.distance(player, self@.pawn(player)),
            n <= 81,
            n == 0 <==> !self@.walls.connected(player, self@.pawn(player)),
    {
        let start = self.pawn_of(player);
        let mut queue: Vec<u8> = Vec::new();
        queue.push(start);
        let mut crumbs: [bool; 81] = [false; 81];
        crumbs[start as usize] = true;
        let mut steps: [u8; 81] = [0; 81];
        let mut head: usize = 0;
        let ghost mut s = Search::begin(self@.walls, player, start as int, Set::empty(), false);
        proof {
            lemma_begin(self@.walls, player, start as int, Set::empty(), false);
            assert(crumbs@ =~= s.seen);
        }
        while head < queue.len()
            invariant
                s.inv(),
                s.partly_expanded(0),
                s.walls == self@.walls,
                s.seeks_route(),
                s.player == player,
                s.from == start,
                start == self@.pawn(player),
                s.head == head,
                s.seen == crumbs@,
                s.walks.len() == queue.len(),
                forall|k: int| 0 <= k < queue.len() ==> #[trigger] queue@[k] == s.end(k),
                forall|k: int|
                    0 <= k < s.walks.len() ==> steps@[#[trigger] s.end(k)] == s.walks[k].len(),
            decreases 81 - head,
        {
            proof {
                lemma_marked_bound(s.seen);
            }
            let sqnum = queue[head];
            let further: u8 = steps[sqnum as usize] + 1;
            let mut n: u8 = 0;
            while n < 4
                invariant
                    n <= 4,
                    head < queue.len(),
                    s.inv(),
                    s.partly_expanded(n as int),
                    s.walls == self@.walls,
                    s.seeks_route(),
                    s.player == player,
                    s.from == start,
                    start == self@.pawn(player),
                    s.head == head,
                    s.seen == crumbs@,
                    s.walks.len() == queue.len(),
                    sqnum == s.end(head as int),
                    further == s.walks[head as int].len() + 1,
                    further <= 81,
                    forall|k: int| 0 <= k < queue.len() ==> #[trigger] queue@[k] == s.end(k),
                    forall|k: int|
                        0 <= k < s.walks.len() ==> steps@[#[trigger] s.end(k)]
                            == s.walks[k].len(),
                decreases 4 - n,
            {
                let direction = Direction::nth(n);
                if self.is_open(sqnum, &direction) {
                    let next = direction.move_sqnum(sqnum);
                    if player.reaches_goal_at(next) {
                        proof {
                            lemma_goal_found(s, direction);
                            lemma_distance(
                                self@.walls,
                                player,
                                start as int,
                                s.walks[s.head].push(next),
                            );
                        }
                        return further as usize;
                    }
                    if !crumbs[next as usize] {
                        proof {
                            lemma_found(s, direction, n as int);
                            let ghost before = s;
                            s = s.found(s.walks[s.head].push(next));
                            assert forall|k: int| 0 <= k < before.walks.len() implies s.end(k)
                                == before.end(k) by {}
                            assert(s.end(before.walks.len() as int) == next);
                        }
                        queue.push(next);
                        crumbs[next as usize] = true;
                        steps[next as usize] = further;
                        proof {
                            assert(crumbs@ =~= s.seen);
                        }
                    } else {
                        proof {
                            lemma_seen_is_covered(s, direction);
                        }
                    }
                }
                proof {
                    assert forall|d: Direction|
                        d.rank() < n + 1 && s.walls.open(
                            s.end(s.head),
                            d,
                        ) implies #[trigger] s.covered(s.head, d) by {
                        if d.rank() == n {
                            assert(d == direction);
                        }
                    }
                }
                n = n + 1;
            }
            proof {
                lemma_advance(s);
                s = s.advanced();
            }
            head = head + 1;
        }
        proof {
            lemma_exhausted(s);
        }
        0
    }
}

} // verus!
