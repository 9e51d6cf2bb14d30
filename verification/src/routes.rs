//! What follows from the model for walks and routes: how walks are ordered,
//! that a position has one first shortest route, and what is left of it
//! after a step.

use vstd::prelude::*;
use crate::model::{earlier, parts_at, Walls};
use crate::square::{Direction, Player};

verus! {

/// Of three walks of one length, if the first comes before the second and
/// the second before the third, the first comes before the third.
pub proof fn lemma_earlier_chain(from: int, a: Seq<u8>, b: Seq<u8>, c: Seq<u8>)
    requires
        earlier(from, a, b),
        earlier(from, b, c),
    ensures
        earlier(from, a, c),
{
    let i = choose|i: int| #[trigger] parts_at(from, a, b, i);
    let j = choose|j: int| #[trigger] parts_at(from, b, c, j);
    if i <= j {
        assert(a.subrange(0, i) =~= c.subrange(0, i)) by {
            assert(b.subrange(0, j).subrange(0, i) =~= b.subrange(0, i));
            assert(c.subrange(0, j).subrange(0, i) =~= c.subrange(0, i));
        }
        lemma_same_before(from, a, b, i);
        if i < j {
            assert(b[i] == b.subrange(0, j)[i]);
            assert(c[i] == c.subrange(0, j)[i]);
        }
        assert(parts_at(from, a, c, i));
    } else {
        assert(a.subrange(0, j) =~= c.subrange(0, j)) by {
            assert(a.subrange(0, i).subrange(0, j) =~= a.subrange(0, j));
            assert(b.subrange(0, i).subrange(0, j) =~= b.subrange(0, j));
        }
        assert(a[j] == a.subrange(0, i)[j]);
        assert(b[j] == b.subrange(0, i)[j]);
        lemma_same_before(from, a, b, j);
        assert(parts_at(from, a, c, j));
    }
}

/// Walks that agree on their first `i` steps stand on the same square after
/// them.
pub proof fn lemma_same_before(from: int, a: Seq<u8>, b: Seq<u8>, i: int)
    requires
        0 <= i <= a.len(),
        i <= b.len(),
        a.subrange(0, i) == b.subrange(0, i),
    ensures
        Walls::before(from, a, i) == Walls::before(from, b, i),
{
    if i > 0 {
        assert(a[i - 1] == a.subrange(0, i)[i - 1]);
        assert(b[i - 1] == b.subrange(0, i)[i - 1]);
    }
}

/// A walk that comes before another still does when each goes one step on.
pub proof fn lemma_earlier_grows(from: int, a: Seq<u8>, b: Seq<u8>, x: u8, y: u8)
    requires
        earlier(from, a, b),
    ensures
        earlier(from, a.push(x), b.push(y)),
{
    let i = choose|i: int| #[trigger] parts_at(from, a, b, i);
    assert(a.push(x).subrange(0, i) =~= a.subrange(0, i));
    assert(b.push(y).subrange(0, i) =~= b.subrange(0, i));
    assert(parts_at(from, a.push(x), b.push(y), i));
}

/// No walk comes before a walk that comes before it.
pub proof fn lemma_earlier_one_way(from: int, a: Seq<u8>, b: Seq<u8>)
    requires
        earlier(from, a, b),
    ensures
        !earlier(from, b, a),
        a != b,
{
    let i = choose|i: int| #[trigger] parts_at(from, a, b, i);
    if earlier(from, b, a) {
        let j = choose|j: int| #[trigger] parts_at(from, b, a, j);
        if i < j {
            assert(b[i] == b.subrange(0, j)[i]);
            assert(a[i] == a.subrange(0, j)[i]);
        } else if j < i {
            assert(a[j] == a.subrange(0, i)[j]);
            assert(b[j] == b.subrange(0, i)[j]);
        } else {
            lemma_same_before(from, a, b, i);
        }
    }
}

/// The direction of an open step from `a` to `b`.
pub proof fn lemma_direction_of(walls: Walls, a: int, b: int) -> (d: Direction)
    requires
        walls.adjacent(a, b),
    ensures
        walls.open(a, d),
        b == a + d.delta(),
{
    if walls.open(a, Direction::North) && b == a - 9 {
        Direction::North
    } else if walls.open(a, Direction::South) && b == a + 9 {
        Direction::South
    } else if walls.open(a, Direction::East) && b == a + 1 {
        Direction::East
    } else {
        Direction::West
    }
}

/// There is one first shortest route at most, and the best route is it.
pub proof fn lemma_best_route(walls: Walls, player: Player, from: int, route: Seq<u8>)
    requires
        walls.is_first_route(player, from, route),
    ensures
        walls.best_route(player, from) == route,
{
    assert(walls.is_route(player, from, route));
    let best = walls.best_route(player, from);
    assert(walls.is_first_route(player, from, best));
    if best != route {
        assert(earlier(from, route, best));
        assert(earlier(from, best, route));
        lemma_earlier_one_way(from, route, best);
    }
}

/// What is left of the first shortest route after its first step is the
/// first shortest route from where that step leads.
pub proof fn lemma_first_route_rest(walls: Walls, player: Player, from: int, route: Seq<u8>)
    requires
        walls.is_first_route(player, from, route),
        route.len() > 1,
    ensures
        walls.is_first_route(player, route[0] as int, route.skip(1)),
{
    let rest = route.skip(1);
    let at = route[0] as int;
    lemma_route_rest(walls, player, from, route);
    assert forall|other: Seq<u8>| #[trigger]
        walls.is_shortest_route(player, at, other) implies other == rest || earlier(
        at,
        rest,
        other,
    ) by {
        let longer = seq![route[0]] + other;
        assert(walls.adjacent(Walls::before(from, route, 0), route[0] as int));
        lemma_route_from_start(walls, player, from, at, other);
        assert(walls.is_route(player, at, rest));
        assert(other.len() == rest.len());
        assert(walls.is_shortest_route(player, from, longer));
        if longer == route {
            assert(other =~= rest);
        } else {
            let i = choose|i: int| #[trigger] parts_at(from, route, longer, i);
            if i == 0 {
                assert(longer[0] == route[0]);
            } else {
                assert(rest.subrange(0, i - 1) =~= other.subrange(0, i - 1)) by {
                    assert forall|j: int| 0 <= j < i - 1 implies rest[j] == other[j] by {
                        assert(route[j + 1] == route.subrange(0, i)[j + 1]);
                        assert(longer[j + 1] == longer.subrange(0, i)[j + 1]);
                    }
                }
                assert(Walls::before(at, rest, i - 1) == Walls::before(from, route, i));
                assert(parts_at(at, rest, other, i - 1));
            }
        }
    }
}

/// A route from where one open step leads makes, with that step before it,
/// a route.
pub proof fn lemma_route_from_start(
    walls: Walls,
    player: Player,
    from: int,
    at: int,
    route: Seq<u8>,
)
    requires
        walls.is_route(player, at, route),
        walls.adjacent(from, at),
        0 <= at < 81,
    ensures
        walls.is_route(player, from, seq![at as u8] + route),
{
    let longer = seq![at as u8] + route;
    assert forall|i: int| 0 <= i < longer.len() implies walls.adjacent(
        #[trigger] Walls::before(from, longer, i),
        longer[i] as int,
    ) by {
        if i > 0 {
            assert(Walls::before(from, longer, i) == Walls::before(at, route, i - 1));
            assert(walls.adjacent(Walls::before(at, route, i - 1), route[i - 1] as int));
        }
    }
    assert(longer.last() == route.last());
}

/// What is left of a shortest route after its first step is a shortest
/// route from where that step leads.
pub proof fn lemma_route_rest(walls: Walls, player: Player, from: int, route: Seq<u8>)
    requires
        walls.is_shortest_route(player, from, route),
        route.len() > 1,
    ensures
        walls.is_shortest_route(player, route[0] as int, route.skip(1)),
{
    let rest = route.skip(1);
    let at = route[0] as int;
    assert forall|i: int| 0 <= i < rest.len() implies walls.adjacent(
        #[trigger] Walls::before(at, rest, i),
        rest[i] as int,
    ) by {
        assert(Walls::before(from, route, i + 1) == Walls::before(at, rest, i));
        assert(walls.adjacent(Walls::before(from, route, i + 1), route[i + 1] as int));
    }
    assert(rest.last() == route.last());
    assert forall|other: Seq<u8>| #[trigger]
        walls.is_route(player, at, other) implies rest.len() <= other.len() by {
        let longer = seq![route[0]] + other;
        assert forall|i: int| 0 <= i < longer.len() implies walls.adjacent(
            #[trigger] Walls::before(from, longer, i),
            longer[i] as int,
        ) by {
            if i == 0 {
                assert(walls.adjacent(Walls::before(from, route, 0), route[0] as int));
            } else {
                assert(Walls::before(from, longer, i) == Walls::before(at, other, i - 1));
                assert(walls.adjacent(Walls::before(at, other, i - 1), other[i - 1] as int));
            }
        }
        assert(longer.last() == other.last());
        assert(walls.is_route(player, from, longer));
    }
}

/// A square has one distance along trails.
pub proof fn lemma_trail_distance(
    walls: Walls,
    player: Player,
    from: int,
    avoid: int,
    sq: int,
    n: int,
)
    requires
        walls.is_distance(player, from, avoid, sq, n),
    ensures
        walls.trail_distance(player, from, avoid, sq) == n,
{
    let m = walls.trail_distance(player, from, avoid, sq);
    assert(walls.is_distance(player, from, avoid, sq, m));
    if n > 0 {
        let t = choose|t: Seq<u8>|
            t.len() == n && #[trigger] walls.is_trail(player, from, avoid, t) && t.last() as int
                == sq;
        assert(0 < m <= t.len());
    }
    if m > 0 {
        let t = choose|t: Seq<u8>|
            t.len() == m && #[trigger] walls.is_trail(player, from, avoid, t) && t.last() as int
                == sq;
        assert(0 < n <= t.len());
    }
}

/// All shortest routes are as long as the distance says.
pub proof fn lemma_distance(walls: Walls, player: Player, from: int, route: Seq<u8>)
    requires
        walls.is_shortest_route(player, from, route),
    ensures
        walls.distance(player, from) == route.len(),
        walls.connected(player, from),
{
    let other = choose|other: Seq<u8>| walls.is_shortest_route(player, from, other);
    assert(walls.is_route(player, from, other));
    assert(walls.is_route(player, from, route));
}

} // verus!
