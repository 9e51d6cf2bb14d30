//! The path queries of a board: whether both players can still reach their
//! goal rows, a shortest route of one player, and the distances of all
//! squares from a pawn.

use vstd::prelude::*;
use crate::bits::{count_bits, has_bit, slots};
use crate::board::{copy_route, Board};
use crate::routes::{lemma_best_route, lemma_distance, lemma_trail_distance};
use crate::search::{
    lemma_advance, lemma_begin, lemma_distances, lemma_found, lemma_marked_bound,
    lemma_seen_is_covered, Search,
};
use crate::square::{Direction, Player};

verus! {

impl Board {
    /// Whether each player can still walk from where the pawn stands onto
    /// the goal row.
    pub fn paths_exist(&self) -> (r: bool)
        requires
            self.inv(),
        ensures
            r == (self@.walls.connected(Player::White, self@.white) && self@.walls.connected(
                Player::Black,
                self@.black,
            )),
    {
        self.route_length(Player::White) > 0 && self.route_length(Player::Black) > 0
    }

    /// Whether the board obeys the rules of the game: the pawns stand on
    /// different squares, twenty walls are in the game, no slot holds two
    /// walls, no two walls overlap, and each player can still reach the goal
    /// row.
    pub fn is_legal(&self) -> (r: bool)
        requires
            self.inv(),
        ensures
            r == self@.legal(),
    {
        let pawns = self.pawns();
        let stocks = self.remaining_walls();
        let hwalls = self.hwalls();
        let vwalls = self.vwalls();
        let walls: u32 = stocks[0] as u32 + stocks[1] as u32 + count_bits(hwalls) as u32
            + count_bits(vwalls) as u32;
        let mut apart = true;
        let mut slot: u8 = 0;
        let ghost mut fault: int = 0;
        while slot < 64
            invariant
                slot <= 64,
                self.inv(),
                slots(hwalls) == self@.walls.h,
                slots(vwalls) == self@.walls.v,
                apart ==> forall|s: int| 0 <= s < slot ==> #[trigger] self@.walls.clear_at(s),
                !apart ==> 0 <= fault < slot && !self@.walls.clear_at(fault),
            decreases 64 - slot,
        {
            let across = has_bit(hwalls, slot);
            let along = has_bit(vwalls, slot);
            let clear = !(across && along) && !(across && slot < 63 && has_bit(hwalls, slot + 1))
                && !(along && slot < 56 && has_bit(vwalls, slot + 8));
            proof {
                assert(clear == self@.walls.clear_at(slot as int));
                if apart && !clear {
                    fault = slot as int;
                }
            }
            if !clear {
                apart = false;
            }
            slot = slot + 1;
        }
        proof {
            let w = self@.walls;
            if apart {
                assert forall|s: int| !(w.h.contains(s) && w.v.contains(s)) by {
                    if 0 <= s < 64 {
                        assert(w.clear_at(s));
                    }
                }
                assert forall|s: int| !(#[trigger] w.h.contains(s) && w.h.contains(s + 1)) by {
                    if 0 <= s < 64 {
                        assert(w.clear_at(s));
                    }
                }
                assert forall|s: int| !(#[trigger] w.v.contains(s) && w.v.contains(s + 8)) by {
                    if 0 <= s < 64 {
                        assert(w.clear_at(s));
                    }
                }
            } else {
                assert(!w.clear_at(fault));
            }
        }
        pawns[0] != pawns[1] && walls == 20 && apart && self.paths_exist()
    }

    /// The number of steps `player` needs from where the pawn stands to the
    /// goal row; 0 if the player cannot reach it.
    pub fn distance(&self, player: Player) -> (n: usize)
        requires
            self.inv(),
        ensures
            n == self@.walls.distance(player, self@.pawn(player)),
            n <= 81,
    {
        self.route_length(player)
    }

    /// The first shortest route of `player` from where the pawn stands: the
    /// squares it steps on, the last of them the first on the goal row;
    /// empty if the player cannot reach the goal row. Of several shortest
    /// routes it is the one that, where they part, takes the earlier
    /// direction of the order North, South, East, West.
    ///
    /// A route that is remembered is handed out again; one that is found is
    /// remembered.
    pub fn shortest_path(&mut self, player: Player) -> (route: Vec<u8>)
        requires
            old(self).inv(),
        ensures
            final(self).inv(),
            route@ == old(self)@.walls.best_route(player, old(self)@.pawn(player)),
            route@.len() == old(self)@.walls.distance(player, old(self)@.pawn(player)),
            route@.len() == 0 <==> !old(self)@.walls.connected(player, old(self)@.pawn(player)),
            route@.len() > 0 ==> old(self)@.walls.is_first_route(
                player,
                old(self)@.pawn(player),
                route@,
            ),
            final(self)@ == old(self)@.remembering(
                player,
                if route@.len() > 0 {
                    Some(route@)
                } else {
                    None
                },
            ),
    {
        let known = self.cached_path(player);
        match known {
            Some(route) => {
                proof {
                    assert(self@.route_valid(player));
                    assert(self@ == self@.remembering(player, Some(route@)));
                    lemma_best_route(self@.walls, player, self@.pawn(player), route@);
                    lemma_distance(self@.walls, player, self@.pawn(player), route@);
                    assert(self@.walls.is_route(player, self@.pawn(player), route@));
                }
                route
            },
            None => {
                let route = self.find_route(player);
                if route.len() > 0 {
                    proof {
                        lemma_distance(self@.walls, player, self@.pawn(player), route@);
                    }
                    self.remember(player, copy_route(&route));
                } else {
                    proof {
                        assert(self@ == self@.remembering(player, None));
                    }
                }
                route
            },
        }
    }

    /// For each square, the number of steps of a shortest trail of `player`
    /// to it, and 0 where no trail leads: a trail starts where the player's
    /// pawn stands, does not come back there, does not enter the square of
    /// the other pawn, and ends where it first meets the player's goal row.
    pub fn walk_paths(&self, player: Player) -> (counts: [u32; 81])
        requires
            self.inv(),
        ensures
            forall|sq: int|
                0 <= sq < 81 ==> self@.walls.is_distance(
                    player,
                    self@.pawn(player),
                    self@.pawn(player.opponent()),
                    sq,
                    #[trigger] counts[sq] as int,
                ),
            forall|sq: int|
                0 <= sq < 81 ==> #[trigger] counts[sq] == self@.walls.trail_distance(
                    player,
                    self@.pawn(player),
                    self@.pawn(player.opponent()),
                    sq,
                ) && counts[sq] <= 81,
    {
        let pawn = self.pawn_of(player);
        let rival = self.pawn_of(player.other());
        let mut queue: Vec<u8> = Vec::new();
        queue.push(pawn);
        let mut counts: [u32; 81] = [0; 81];
        let mut head: usize = 0;
        let ghost barred = set![pawn as int, rival as int];
        let ghost mut s = Search::begin(self@.walls, player, pawn as int, barred, true);
        proof {
            lemma_begin(self@.walls, player, pawn as int, barred, true);
        }
        while head < queue.len()
            invariant
                s.inv(),
                s.partly_expanded(0),
                s.walls == self@.walls,
                s.labelling,
                s.barred == barred,
                barred == set![pawn as int, rival as int],
                s.player == player,
                s.from == pawn,
                s.head == head,
                s.walks.len() == queue.len(),
                forall|k: int| 0 <= k < queue.len() ==> #[trigger] queue@[k] == s.end(k),
                forall|k: int|
                    0 <= k < s.walks.len() ==> counts@[#[trigger] s.end(k)] == s.walks[k].len(),
                forall|sq: int|
                    0 <= sq < 81 ==> #[trigger] s.seen[sq] == (counts@[sq] > 0 || sq == pawn),
            decreases 81 - head,
        {
            proof {
                lemma_marked_bound(s.seen);
            }
            let sqnum = queue[head];
            let steps: u32 = counts[sqnum as usize] + 1;
            if head == 0 || !player.reaches_goal_at(sqnum) {
                let mut n: u8 = 0;
                while n < 4
                    invariant
                        n <= 4,
                        head < queue.len(),
                        s.inv(),
                        s.partly_expanded(n as int),
                        s.expands(head as int),
                        s.walls == self@.walls,
                        s.labelling,
                        s.barred == barred,
                        barred == set![pawn as int, rival as int],
                        s.player == player,
                        s.from == pawn,
                        s.head == head,
                        s.walks.len() == queue.len(),
                        sqnum == s.end(head as int),
                        steps == s.walks[head as int].len() + 1,
                        forall|k: int| 0 <= k < queue.len() ==> #[trigger] queue@[k] == s.end(k),
                        forall|k: int|
                            0 <= k < s.walks.len() ==> counts@[#[trigger] s.end(k)]
                                == s.walks[k].len(),
                        forall|sq: int|
                            0 <= sq < 81 ==> #[trigger] s.seen[sq] == (counts@[sq] > 0 || sq
                                == pawn),
                    decreases 4 - n,
                {
                    let direction = Direction::nth(n);
                    if self.is_open(sqnum, &direction) {
                        let next = direction.move_sqnum(sqnum);
                        if !(counts[next as usize] > 0 || next == pawn || next == rival) {
                            proof {
                                lemma_found(s, direction, n as int);
                                let ghost before = s;
                                s = s.found(s.walks[s.head].push(next));
                                assert forall|k: int| 0 <= k < before.walks.len() implies s.end(k)
                                    == before.end(k) by {}
                                assert(s.end(before.walks.len() as int) == next);
                            }
                            counts[next as usize] = steps;
                            queue.push(next);
                            proof {
                                assert(s.covered(s.head, direction));
                            }
                        } else {
                            proof {
                                if next == pawn || next == rival {
                                    assert(s.barred.contains(next as int));
                                } else {
                                    lemma_seen_is_covered(s, direction);
                                }
                                assert(s.covered(s.head, direction));
                            }
                        }
                    }
                    proof {
                        assert forall|d: Direction|
                            d.rank() < n + 1 && s.walls.open(
                                s.end(s.head),
                                d,
                            ) implies #[trigger] s.covered(s.head, d) by {
                            if d.rank() == n {
                                assert(d == direction);
                            }
                        }
                    }
                    n = n + 1;
                }
            }
            proof {
                lemma_advance(s);
                s = s.advanced();
            }
            head = head + 1;
        }
        proof {
            let labels = counts@.map_values(|c: u32| c as int);
            assert forall|k: int| 0 <= k < s.walks.len() implies labels[#[trigger] s.end(k)]
                == s.walks[k].len() by {
                assert(counts@[s.end(k)] == s.walks[k].len());
            }
            lemma_distances(s, rival as int, labels);
            assert forall|sq: int| 0 <= sq < 81 implies self@.walls.is_distance(
                player,
                self@.pawn(player),
                self@.pawn(player.opponent()),
                sq,
                #[trigger] counts[sq] as int,
            ) by {
                assert(labels[sq] == counts[sq] as int);
            }
            assert forall|sq: int| 0 <= sq < 81 implies #[trigger] counts[sq]
                == self@.walls.trail_distance(
                player,
                self@.pawn(player),
                self@.pawn(player.opponent()),
                sq,
            ) && counts[sq] <= 81 by {
                lemma_trail_distance(
                    self@.walls,
                    player,
                    self@.pawn(player),
                    self@.pawn(player.opponent()),
                    sq,
                    counts[sq] as int,
                );
                if counts[sq] > 0 {
                    assert(s.seen[sq]);
                    let k = choose|k: int|
                        0 <= k < s.walks.len() && #[trigger] s.end(k) == sq && s.walks[k].len()
                            <= s.walks.last().len();
                    assert(counts@[s.end(k)] == s.walks[k].len());
                    lemma_marked_bound(s.seen);
                }
            }
        }
        counts
    }
}

} // verus!
