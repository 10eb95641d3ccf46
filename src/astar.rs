//! Weighted A* search over the cells a head may enter.
use vstd::prelude::*;

use crate::env::{Direction, Vec2D};
use crate::game::Game;
use crate::grid::{CellT, MAX_DIM};

verus! {

/// Cost of a cell that has not been reached.
pub const UNREACHED: u64 = 0xffff_ffff_ffff_ffff;

/// Marks a cell without predecessor.
pub const NO_DIR: u8 = 4;

/// Number of `true` entries of `s`.
pub open spec fn count_true(s: Seq<bool>) -> nat
    decreases s.len(),
{
    if s.len() == 0 {
        0
    } else {
        count_true(s.drop_last()) + if s.last() {
            1nat
        } else {
            0nat
        }
    }
}

pub(crate) proof fn lemma_count_true_bound(s: Seq<bool>)
    ensures
        count_true(s) <= s.len(),
    decreases s.len(),
{
    if s.len() > 0 {
        lemma_count_true_bound(s.drop_last());
    }
}

pub(crate) proof fn lemma_count_true_set(s: Seq<bool>, i: int)
    requires
        0 <= i < s.len(),
        !s[i],
    ensures
        count_true(s.update(i, true)) == count_true(s) + 1,
    decreases s.len(),
{
    let t = s.update(i, true);
    if i == s.len() - 1 {
        assert(t.drop_last() =~= s.drop_last());
    } else {
        assert(t.drop_last() =~= s.drop_last().update(i, true));
        lemma_count_true_set(s.drop_last(), i);
    }
}

/// A route: consecutive coordinates are one cardinal step apart and every
/// coordinate after the first may be entered by a head.
pub open spec fn is_route(g: &Game, path: Seq<Vec2D>) -> bool {
    &&& forall|k: int| 0 <= k < path.len() - 1 ==> (#[trigger] path[k]).adjacent(path[k + 1])
    &&& forall|k: int| 1 <= k < path.len() ==> g.passable(#[trigger] path[k])
}

/// The neighbour of `p` that the path came from, given the direction
/// stored for `p`.
pub open spec fn pred_of(p: Vec2D, d: u8) -> Vec2D {
    p.shifted(Direction::nth(d as int).inverse())
}


/// `q` waits in the open list.
pub open spec fn in_open(open: Seq<(u64, Vec2D)>, q: Vec2D) -> bool {
    exists|j: int| 0 <= j < open.len() && (#[trigger] open[j]).1 == q
}

/// Every open entry of `old` is still in `new`, at the same place.
pub open spec fn extends(old: Seq<(u64, Vec2D)>, new: Seq<(u64, Vec2D)>) -> bool {
    &&& new.len() >= old.len()
    &&& forall|j: int| 0 <= j < old.len() ==> new[j] == #[trigger] old[j]
}

proof fn lemma_extends_in_open(old: Seq<(u64, Vec2D)>, new: Seq<(u64, Vec2D)>)
    requires
        extends(old, new),
    ensures
        forall|q: Vec2D| in_open(old, q) ==> #[trigger] in_open(new, q),
{
    assert forall|q: Vec2D| in_open(old, q) implies #[trigger] in_open(new, q) by {
        let j = choose|j: int| 0 <= j < old.len() && (#[trigger] old[j]).1 == q;
        assert(new[j] == old[j]);
    }
}

/// Largest cost a search can give: below it, adding one cannot overflow.
pub const COST_BOUND: u64 = 0x8000_0000;

impl Game {
    /// Every reached cell is closed or waits in the open list.
    pub open spec fn reached_tracked(&self, cost: Seq<u64>, closed: Seq<bool>, open: Seq<(u64, Vec2D)>) -> bool {
        forall|p: Vec2D|
            #![trigger self.grid.index_spec(p)]
            self.grid.has_spec(p) && cost[self.grid.index_spec(p)] < UNREACHED
                ==> closed[self.grid.index_spec(p)] || in_open(open, p)
    }

    /// The neighbour of `c` in direction `d`, when a head may enter it, is
    /// closed or open.
    pub open spec fn step_seen(&self, c: Vec2D, d: Direction, closed: Seq<bool>, open: Seq<(u64, Vec2D)>) -> bool {
        let q = c.shifted(d);
        self.grid.has_spec(q) && self.passable(q) ==> closed[self.grid.index_spec(q)] || in_open(open, q)
    }

    /// The first `n` neighbours of `c` are seen.
    pub open spec fn expanded(&self, c: Vec2D, n: int, closed: Seq<bool>, open: Seq<(u64, Vec2D)>) -> bool {
        forall|i: int| 0 <= i < n ==> #[trigger] self.step_seen(c, Direction::nth(i), closed, open)
    }

    /// Every closed cell but `c` (when `skip`) has all its neighbours seen.
    pub open spec fn closed_expanded(
        &self,
        closed: Seq<bool>,
        open: Seq<(u64, Vec2D)>,
        c: Vec2D,
        skip: bool,
    ) -> bool {
        forall|p: Vec2D|
            #![trigger self.grid.index_spec(p)]
            self.grid.has_spec(p) && closed[self.grid.index_spec(p)] && !(skip && p == c) ==> self.expanded(
                p,
                4,
                closed,
                open,
            )
    }

    /// Reached costs stay small: a closed cell's cost is at most the number
    /// of closed cells, an open one's at most one more.
    pub open spec fn cost_bounded(&self, cost: Seq<u64>, closed: Seq<bool>) -> bool {
        forall|p: Vec2D|
            #![trigger self.grid.index_spec(p)]
            self.grid.has_spec(p) && cost[self.grid.index_spec(p)] < UNREACHED ==> cost[self.grid.index_spec(p)]
                <= count_true(closed) + if closed[self.grid.index_spec(p)] {
                0int
            } else {
                1int
            }
    }
}

/// `goal` can be reached from `start` along a route.
pub open spec fn reachable(g: &Game, start: Vec2D, goal: Vec2D) -> bool {
    exists|path: Seq<Vec2D>|
        path.len() >= 1 && path[0] == start && path.last() == goal && #[trigger] is_route(g, path)
}

impl Game {
    /// The search state is consistent: reached cells lead back to `start`
    /// through their stored predecessors, with the cost falling by one at
    /// each step.
    #[verifier::opaque]
    pub open spec fn search_inv(
        &self,
        start: Vec2D,
        cost: Seq<u64>,
        dir: Seq<u8>,
        closed: Seq<bool>,
    ) -> bool {
        &&& cost.len() == self.grid.cells@.len()
        &&& dir.len() == self.grid.cells@.len()
        &&& closed.len() == self.grid.cells@.len()
        &&& cost[self.grid.index_spec(start)] == 0
        &&& dir[self.grid.index_spec(start)] == NO_DIR
        &&& forall|p: Vec2D|
            #![trigger self.grid.index_spec(p)]
            self.grid.has_spec(p) ==> {
                let i = self.grid.index_spec(p);
                &&& dir[i] <= NO_DIR
                &&& closed[i] ==> cost[i] < UNREACHED
                &&& (dir[i] == NO_DIR && cost[i] < UNREACHED ==> p == start)
                &&& (dir[i] < NO_DIR ==> {
                    let q = pred_of(p, dir[i]);
                    &&& self.grid.has_spec(q)
                    &&& closed[self.grid.index_spec(q)]
                    &&& cost[i] < UNREACHED
                    &&& cost[i] == cost[self.grid.index_spec(q)] + 1
                    &&& self.passable(p)
                    &&& q.adjacent(p)
                })
            }
    }

    /// Heuristic of `p`: Manhattan distance to `goal`, plus the weighted
    /// hazard flag, number of owned neighbours and number of neighbours off
    /// the board.
    fn heuristic(&self, p: Vec2D, goal: Vec2D, weights: &[u32; 3]) -> (r: u64)
        requires
            self.wf(),
            self.grid.has_spec(p),
    {
        let dist = p.manhattan(goal) as u64;
        let hazard: u64 = if self.grid.get(p).hazard {
            1
        } else {
            0
        };
        let mut owned: u64 = 0;
        let mut off: u64 = 0;
        let dirs = Direction::all();
        let mut k: usize = 0;
        while k < 4
            invariant
                self.wf(),
                self.grid.has_spec(p),
                k <= 4,
                owned <= k,
                off <= k,
            decreases 4 - k,
        {
            let q = p.apply(dirs[k]);
            if !self.grid.has(q) {
                off = off + 1;
            } else if self.grid.get(q).t == CellT::Owned {
                owned = owned + 1;
            }
            k = k + 1;
        }
        let w0 = weights[0] as u64;
        let w1 = weights[1] as u64;
        let w2 = weights[2] as u64;
        assert(w0 * hazard <= 0xffff_ffff * 1) by (nonlinear_arith)
            requires
                w0 <= 0xffff_ffff,
                hazard <= 1,
        ;
        assert(w1 * owned <= 0xffff_ffff * 4) by (nonlinear_arith)
            requires
                w1 <= 0xffff_ffff,
                owned <= 4,
        ;
        assert(w2 * off <= 0xffff_ffff * 4) by (nonlinear_arith)
            requires
                w2 <= 0xffff_ffff,
                off <= 4,
        ;
        dist + w0 * hazard + w1 * owned + w2 * off
    }

    /// Searches a route from `start` to `goal` that a head may take. The
    /// open cell with the lowest cost plus heuristic is expanded first; on
    /// equal priority the one queued first. Returns `None` when the search
    /// exhausts the reachable cells without meeting `goal`.
    pub fn a_star(&self, start: Vec2D, goal: Vec2D, weights: &[u32; 3]) -> (r: Option<Vec<Vec2D>>)
        requires
            self.wf(),
            self.grid.has_spec(start),
        ensures
            r is Some ==> {
                let path = r->Some_0@;
                &&& path.len() >= 1
                &&& path[0] == start
                &&& path.last() == goal
                &&& is_route(self, path)
            },
            r is None ==> !reachable(self, start, goal),
    {
        let n = self.grid.cells.len();
        let mut cost: Vec<u64> = vec![UNREACHED; n];
        let mut dir: Vec<u8> = vec![NO_DIR; n];
        let mut closed: Vec<bool> = vec![false; n];
        let mut n_closed: usize = 0;
        let si = self.grid.index(start);
        cost.set(si, 0);
        let mut open: Vec<(u64, Vec2D)> = Vec::new();
        open.push((self.heuristic(start, goal, weights), start));
        proof {
            assert forall|p: Vec2D| #![trigger self.grid.index_spec(p)] self.grid.has_spec(p)
                implies {
                let i = self.grid.index_spec(p);
                &&& dir@[i] <= NO_DIR
                &&& closed@[i] ==> cost@[i] < UNREACHED
                &&& (dir@[i] == NO_DIR && cost@[i] < UNREACHED ==> p == start)
                &&& (dir@[i] < NO_DIR ==> {
                    let q = pred_of(p, dir@[i]);
                    &&& self.grid.has_spec(q)
                    &&& closed@[self.grid.index_spec(q)]
                    &&& cost@[i] < UNREACHED
                    &&& cost@[i] == cost@[self.grid.index_spec(q)] + 1
                    &&& self.passable(p)
                    &&& q.adjacent(p)
                })
            } by {
                self.grid.lemma_index(p);
                if p != start {
                    self.grid.lemma_index_distinct(p, start);
                }
            }
            lemma_count_zero(closed@);
            self.grid.lemma_index(start);
            reveal(Game::search_inv);
            assert(self.search_inv(start, cost@, dir@, closed@));
            assert(open@[0].1 == start);
            assert forall|p: Vec2D| #![trigger self.grid.index_spec(p)] self.grid.has_spec(p) && cost@[self.grid.index_spec(p)]
                < UNREACHED implies closed@[self.grid.index_spec(p)] || in_open(open@, p) by {
                self.grid.lemma_index(p);
                if p != start {
                    self.grid.lemma_index_distinct(p, start);
                }
            }
            assert forall|p: Vec2D| #![trigger self.grid.index_spec(p)] self.grid.has_spec(p) && cost@[self.grid.index_spec(p)]
                < UNREACHED implies cost@[self.grid.index_spec(p)] <= count_true(closed@) + if closed@[self.grid.index_spec(p)] {
                0int
            } else {
                1int
            } by {
                self.grid.lemma_index(p);
                if p != start {
                    self.grid.lemma_index_distinct(p, start);
                }
            }
            if self.grid.has_spec(goal) {
                self.grid.lemma_index(goal);
            }
            assert(n <= MAX_DIM * MAX_DIM) by (nonlinear_arith)
                requires
                    n == self.grid.width * self.grid.height,
                    self.grid.width <= MAX_DIM,
                    self.grid.height <= MAX_DIM,
            ;
        }
        while open.len() > 0
            invariant
                self.wf(),
                self.grid.has_spec(start),
                n == self.grid.cells@.len(),
                self.search_inv(start, cost@, dir@, closed@),
                n_closed == count_true(closed@),
                n_closed <= n,
                n <= MAX_DIM * MAX_DIM,
                forall|k: int|
                    0 <= k < open@.len() ==> self.grid.has_spec((#[trigger] open@[k]).1)
                        && cost@[self.grid.index_spec(open@[k].1)] < UNREACHED,
                self.reached_tracked(cost@, closed@, open@),
                self.closed_expanded(closed@, open@, start, false),
                self.cost_bounded(cost@, closed@),
                self.grid.has_spec(goal) ==> !closed@[self.grid.index_spec(goal)],
            decreases n - n_closed, open@.len(),
        {
            proof {
                lemma_count_true_bound(closed@);
                self.lemma_search_basics(start, cost@, dir@, closed@);
            }
            let mut best: usize = 0;
            let mut m: usize = 1;
            while m < open.len()
                invariant
                    0 <= best < m <= open@.len(),
                decreases open@.len() - m,
            {
                if open[m].0 < open[best].0 {
                    best = m;
                }
                m = m + 1;
            }
            let ghost old_open = open@;
            let (_, c) = open.remove(best);
            proof {
                assert(c == old_open[best as int].1);
                assert forall|k: int|
                    0 <= k < open@.len() implies self.grid.has_spec((#[trigger] open@[k]).1)
                        && cost@[self.grid.index_spec(open@[k].1)] < UNREACHED by {
                    if k < best {
                        assert(open@[k] == old_open[k]);
                    } else {
                        assert(open@[k] == old_open[k + 1]);
                    }
                }
            }
            let ci = self.grid.index(c);
            proof {
                lemma_remove_in_open(old_open, best as int, open@);
                self.lemma_pop_close(cost@, closed@, closed@.update(ci as int, true), old_open, open@, c);
            }
            if closed[ci] {
                proof {
                    assert(closed@.update(ci as int, true) =~= closed@);
                }
                continue;
            }
            proof {
                lemma_count_true_set(closed@, ci as int);
                self.lemma_close_bound(cost@, closed@, closed@.update(ci as int, true), c);
            }
            let ghost closed_before = closed@;
            closed.set(ci, true);
            proof {
                lemma_count_true_bound(closed@);
            }
            n_closed = n_closed + 1;
            proof {
                self.lemma_close_keeps_inv(start, cost@, dir@, closed_before, closed@, c);
            }
            if c == goal {
                return Some(self.trace_route(start, goal, &cost, &dir, Ghost(closed@)));
            }
            proof {
                if self.grid.has_spec(goal) {
                    self.grid.lemma_index_distinct(goal, c);
                    self.grid.lemma_index(goal);
                    assert(!closed_before[self.grid.index_spec(goal)]);
                    assert(closed@ == closed_before.update(ci as int, true));
                    assert(!closed@[self.grid.index_spec(goal)]);
                }
                lemma_count_true_bound(closed@);
                assert(count_true(closed@) < COST_BOUND);
            }
            self.expand(start, goal, weights, c, &mut cost, &mut dir, &closed, &mut open);
        }
        proof {
            self.lemma_search_basics(start, cost@, dir@, closed@);
            assert(open@ =~= Seq::<(u64, Vec2D)>::empty());
            self.lemma_unreachable(start, goal, cost@, closed@);
        }
        None
    }

    fn expand(
        &self,
        start: Vec2D,
        goal: Vec2D,
        weights: &[u32; 3],
        c: Vec2D,
        cost: &mut Vec<u64>,
        dir: &mut Vec<u8>,
        closed: &Vec<bool>,
        open: &mut Vec<(u64, Vec2D)>,
    )
        requires
            self.wf(),
            self.grid.has_spec(start),
            self.grid.has_spec(c),
            closed@[self.grid.index_spec(c)],
            old(cost)@.len() == self.grid.cells@.len(),
            closed@.len() == self.grid.cells@.len(),
            count_true(closed@) < COST_BOUND,
            self.search_inv(start, old(cost)@, old(dir)@, closed@),
            forall|j: int|
                0 <= j < old(open)@.len() ==> self.grid.has_spec((#[trigger] old(open)@[j]).1)
                    && old(cost)@[self.grid.index_spec(old(open)@[j].1)] < UNREACHED,
            self.reached_tracked(old(cost)@, closed@, old(open)@),
            self.closed_expanded(closed@, old(open)@, c, true),
            self.cost_bounded(old(cost)@, closed@),
        ensures
            self.search_inv(start, final(cost)@, final(dir)@, closed@),
            forall|j: int|
                0 <= j < final(open)@.len() ==> self.grid.has_spec((#[trigger] final(open)@[j]).1)
                    && final(cost)@[self.grid.index_spec(final(open)@[j].1)] < UNREACHED,
            final(cost)@.len() == old(cost)@.len(),
            self.reached_tracked(final(cost)@, closed@, final(open)@),
            self.closed_expanded(closed@, final(open)@, c, false),
            self.cost_bounded(final(cost)@, closed@),
    {
        let ci = self.grid.index(c);
        let dirs = Direction::all();
        let mut k: usize = 0;
        proof {
            self.grid.lemma_index(c);
        }
        while k < 4
            invariant
                self.wf(),
                self.grid.has_spec(start),
                self.grid.has_spec(c),
                ci == self.grid.index_spec(c),
                closed@[ci as int],
                cost@.len() == self.grid.cells@.len(),
                closed@.len() == self.grid.cells@.len(),
                count_true(closed@) < COST_BOUND,
                self.search_inv(start, cost@, dir@, closed@),
                forall|j: int|
                    0 <= j < open@.len() ==> self.grid.has_spec((#[trigger] open@[j]).1)
                        && cost@[self.grid.index_spec(open@[j].1)] < UNREACHED,
                self.reached_tracked(cost@, closed@, open@),
                self.closed_expanded(closed@, open@, c, true),
                self.expanded(c, k as int, closed@, open@),
                self.cost_bounded(cost@, closed@),
                k <= 4,
                forall|i: int| 0 <= i < 4 ==> #[trigger] dirs[i] == Direction::nth(i),
            decreases 4 - k,
        {
            let ghost cost0 = cost@;
            let ghost open0 = open@;
            proof {
                self.lemma_search_basics(start, cost@, dir@, closed@);
                assert(cost@[self.grid.index_spec(c)] < UNREACHED);
                assert(cost@[self.grid.index_spec(c)] <= count_true(closed@));
            }
            self.relax(start, goal, weights, c, dirs[k], k as u8, cost, dir, closed, open);
            proof {
                self.lemma_expand_step(c, k as int, closed@, open0, open@, cost0, cost@);
            }
            k = k + 1;
        }
        proof {
            assert forall|p: Vec2D| #![trigger self.grid.index_spec(p)] self.grid.has_spec(p) && closed@[self.grid.index_spec(p)]
                && !(false && p == c) implies self.expanded(p, 4, closed@, open@) by {
                if p != c {
                    assert(self.grid.has_spec(p) && closed@[self.grid.index_spec(p)] && !(true && p == c));
                }
            }
        }
    }

    proof fn lemma_expand_step(
        &self,
        c: Vec2D,
        k: int,
        closed: Seq<bool>,
        open0: Seq<(u64, Vec2D)>,
        open1: Seq<(u64, Vec2D)>,
        cost0: Seq<u64>,
        cost1: Seq<u64>,
    )
        requires
            self.wf(),
            self.grid.has_spec(c),
            closed[self.grid.index_spec(c)],
            0 <= k < 4,
            cost0.len() == self.grid.cells@.len(),
            cost1.len() == cost0.len(),
            closed.len() == self.grid.cells@.len(),
            cost0[self.grid.index_spec(c)] < COST_BOUND,
            self.reached_tracked(cost0, closed, open0),
            self.closed_expanded(closed, open0, c, true),
            self.expanded(c, k, closed, open0),
            self.cost_bounded(cost0, closed),
            extends(open0, open1),
            forall|p: Vec2D|
                #![trigger self.grid.index_spec(p)]
                self.grid.has_spec(p) && cost1[self.grid.index_spec(p)] != cost0[self.grid.index_spec(p)]
                    ==> p == c.shifted(Direction::nth(k)) && cost1[self.grid.index_spec(p)] == cost0[self.grid.index_spec(c)] + 1
                    && in_open(open1, p) && !closed[self.grid.index_spec(p)],
            self.grid.has_spec(c.shifted(Direction::nth(k))) && self.passable(c.shifted(Direction::nth(k)))
                && !closed[self.grid.index_spec(c.shifted(Direction::nth(k)))] ==> in_open(open1, c.shifted(Direction::nth(k)))
                || cost0[self.grid.index_spec(c.shifted(Direction::nth(k)))] <= cost0[self.grid.index_spec(c)] + 1,
        ensures
            self.reached_tracked(cost1, closed, open1),
            self.closed_expanded(closed, open1, c, true),
            self.expanded(c, k + 1, closed, open1),
            self.cost_bounded(cost1, closed),
    {
        lemma_extends_in_open(open0, open1);
        assert forall|p: Vec2D| #![trigger self.grid.index_spec(p)] self.grid.has_spec(p) && closed[self.grid.index_spec(p)]
            && !(true && p == c) implies self.expanded(p, 4, closed, open1) by {
            assert forall|i: int| 0 <= i < 4 implies #[trigger] self.step_seen(p, Direction::nth(i), closed, open1) by {
                assert(self.step_seen(p, Direction::nth(i), closed, open0));
            }
        }
        assert forall|i: int| 0 <= i < k + 1 implies #[trigger] self.step_seen(c, Direction::nth(i), closed, open1) by {
            if i < k {
                assert(self.step_seen(c, Direction::nth(i), closed, open0));
            } else {
                let q = c.shifted(Direction::nth(k));
                if self.grid.has_spec(q) && self.passable(q) && !closed[self.grid.index_spec(q)] && !in_open(open1, q) {
                    assert(cost0[self.grid.index_spec(q)] < UNREACHED);
                    assert(in_open(open0, q));
                }
            }
        }
        assert forall|p: Vec2D| #![trigger self.grid.index_spec(p)] self.grid.has_spec(p) && cost1[self.grid.index_spec(p)] < UNREACHED
            implies closed[self.grid.index_spec(p)] || in_open(open1, p) by {
            if cost1[self.grid.index_spec(p)] == cost0[self.grid.index_spec(p)] {
                if !closed[self.grid.index_spec(p)] {
                    assert(in_open(open0, p));
                }
            }
        }
        assert(cost0[self.grid.index_spec(c)] <= count_true(closed));
    }

    #[verifier::spinoff_prover]
    #[verifier::rlimit(60)]
    fn relax(
        &self,
        start: Vec2D,
        goal: Vec2D,
        weights: &[u32; 3],
        c: Vec2D,
        d: Direction,
        kd: u8,
        cost: &mut Vec<u64>,
        dir: &mut Vec<u8>,
        closed: &Vec<bool>,
        open: &mut Vec<(u64, Vec2D)>,
    )
        requires
            self.wf(),
            self.grid.has_spec(start),
            self.grid.has_spec(c),
            kd < 4,
            d == Direction::nth(kd as int),
            closed@[self.grid.index_spec(c)],
            old(cost)@[self.grid.index_spec(c)] < COST_BOUND,
            old(cost)@.len() == self.grid.cells@.len(),
            closed@.len() == self.grid.cells@.len(),
            self.search_inv(start, old(cost)@, old(dir)@, closed@),
            forall|j: int|
                0 <= j < old(open)@.len() ==> self.grid.has_spec((#[trigger] old(open)@[j]).1)
                    && old(cost)@[self.grid.index_spec(old(open)@[j].1)] < UNREACHED,
        ensures
            self.search_inv(start, final(cost)@, final(dir)@, closed@),
            forall|j: int|
                0 <= j < final(open)@.len() ==> self.grid.has_spec((#[trigger] final(open)@[j]).1)
                    && final(cost)@[self.grid.index_spec(final(open)@[j].1)] < UNREACHED,
            extends(old(open)@, final(open)@),
            final(cost)@.len() == old(cost)@.len(),
            forall|p: Vec2D|
                #![trigger self.grid.index_spec(p)]
                self.grid.has_spec(p) && final(cost)@[self.grid.index_spec(p)] != old(cost)@[self.grid.index_spec(p)]
                    ==> p == c.shifted(d) && final(cost)@[self.grid.index_spec(p)] == old(cost)@[self.grid.index_spec(c)] + 1
                    && in_open(final(open)@, p) && !closed@[self.grid.index_spec(p)],
            self.grid.has_spec(c.shifted(d)) && self.passable(c.shifted(d)) && !closed@[self.grid.index_spec(c.shifted(d))]
                ==> in_open(final(open)@, c.shifted(d)) || old(cost)@[self.grid.index_spec(c.shifted(d))] <= old(cost)@[self.grid.index_spec(c)] + 1,
    {
        let ci = self.grid.index(c);
        proof {
            self.lemma_search_basics(start, cost@, dir@, closed@);
        }
        let q = c.apply(d);
        if self.grid.has(q) {
            let qi = self.grid.index(q);
            let passable = self.grid.get(q).t != CellT::Owned || self.is_vacating(q);
            proof {
                self.grid.lemma_index(c);
            }
            let nc = cost[ci] + 1;
            if passable && !closed[qi] && nc < cost[qi] {
                let ghost old_cost = cost@;
                let ghost old_dir = dir@;
                let ghost old_open = open@;
                cost.set(qi, nc);
                dir.set(qi, kd);
                open.push((nc.saturating_add(self.heuristic(q, goal, weights)), q));
                proof {
                    assert(q != start);
                    assert(pred_of(q, kd) == c);
                    self.lemma_relax_keeps(start, c, q, kd, old_cost, old_dir, cost@, dir@, closed@);
                    self.lemma_open_keeps(q, old_open, open@, old_cost, cost@);
                    assert(open@[open@.len() - 1].1 == q);
                    assert forall|p: Vec2D| #![trigger self.grid.index_spec(p)] self.grid.has_spec(p)
                        && cost@[self.grid.index_spec(p)] != old_cost[self.grid.index_spec(p)] implies p == q by {
                        self.grid.lemma_index(p);
                        if p != q {
                            self.grid.lemma_index_distinct(p, q);
                        }
                    }
                }
            }
        }
    }

    proof fn lemma_open_keeps(
        &self,
        q: Vec2D,
        old_open: Seq<(u64, Vec2D)>,
        open: Seq<(u64, Vec2D)>,
        old_cost: Seq<u64>,
        cost: Seq<u64>,
    )
        requires
            self.wf(),
            self.grid.has_spec(q),
            old_cost.len() == self.grid.cells@.len(),
            cost == old_cost.update(self.grid.index_spec(q), cost[self.grid.index_spec(q)]),
            cost[self.grid.index_spec(q)] < UNREACHED,
            open.len() == old_open.len() + 1,
            open.last().1 == q,
            forall|j: int| 0 <= j < old_open.len() ==> open[j] == old_open[j],
            forall|j: int|
                0 <= j < old_open.len() ==> self.grid.has_spec((#[trigger] old_open[j]).1)
                    && old_cost[self.grid.index_spec(old_open[j].1)] < UNREACHED,
        ensures
            forall|j: int|
                0 <= j < open.len() ==> self.grid.has_spec((#[trigger] open[j]).1)
                    && cost[self.grid.index_spec(open[j].1)] < UNREACHED,
    {
        self.grid.lemma_index(q);
        assert forall|j: int| 0 <= j < open.len() implies self.grid.has_spec((#[trigger] open[j]).1)
            && cost[self.grid.index_spec(open[j].1)] < UNREACHED by {
            let pj = open[j].1;
            if j < open.len() - 1 {
                assert(open[j] == old_open[j]);
                self.grid.lemma_index(pj);
                if pj != q {
                    self.grid.lemma_index_distinct(pj, q);
                }
            }
        }
    }

    proof fn lemma_relax_keeps(
        &self,
        start: Vec2D,
        c: Vec2D,
        q: Vec2D,
        d: u8,
        old_cost: Seq<u64>,
        old_dir: Seq<u8>,
        cost: Seq<u64>,
        dir: Seq<u8>,
        closed: Seq<bool>,
    )
        requires
            self.wf(),
            self.search_inv(start, old_cost, old_dir, closed),
            self.grid.has_spec(c),
            self.grid.has_spec(q),
            self.grid.has_spec(start),
            closed[self.grid.index_spec(c)],
            !closed[self.grid.index_spec(q)],
            d < NO_DIR,
            pred_of(q, d) == c,
            c.adjacent(q),
            self.passable(q),
            q != start,
            old_cost[self.grid.index_spec(c)] + 1 < old_cost[self.grid.index_spec(q)],
            cost == old_cost.update(self.grid.index_spec(q), (old_cost[self.grid.index_spec(c)] + 1) as u64),
            dir == old_dir.update(self.grid.index_spec(q), d),
        ensures
            self.search_inv(start, cost, dir, closed),
    {
        reveal(Game::search_inv);
        self.grid.lemma_index(q);
        self.grid.lemma_index(c);
        self.grid.lemma_index(start);
        self.grid.lemma_index_distinct(q, start);
        if c != q {
            self.grid.lemma_index_distinct(c, q);
        }
        assert forall|p: Vec2D| #![trigger self.grid.index_spec(p)] self.grid.has_spec(p) implies {
            let i = self.grid.index_spec(p);
            &&& dir[i] <= NO_DIR
            &&& closed[i] ==> cost[i] < UNREACHED
            &&& (dir[i] == NO_DIR && cost[i] < UNREACHED ==> p == start)
            &&& (dir[i] < NO_DIR ==> {
                let r = pred_of(p, dir[i]);
                &&& self.grid.has_spec(r)
                &&& closed[self.grid.index_spec(r)]
                &&& cost[i] < UNREACHED
                &&& cost[i] == cost[self.grid.index_spec(r)] + 1
                &&& self.passable(p)
                &&& r.adjacent(p)
            })
        } by {
            self.grid.lemma_index(p);
            if p != q {
                self.grid.lemma_index_distinct(p, q);
                let i = self.grid.index_spec(p);
                if dir[i] < NO_DIR {
                    let r = pred_of(p, dir[i]);
                    assert(self.grid.has_spec(r));
                    self.grid.lemma_index(r);
                    if r != q {
                        self.grid.lemma_index_distinct(r, q);
                    }
                }
            }
        }
    }

    /// Follows the stored predecessors from `goal` back to `start`.
    fn trace_route(
        &self,
        start: Vec2D,
        goal: Vec2D,
        cost: &Vec<u64>,
        dir: &Vec<u8>,
        Ghost(closed): Ghost<Seq<bool>>,
    ) -> (r: Vec<Vec2D>)
        requires
            self.wf(),
            self.grid.has_spec(start),
            self.grid.has_spec(goal),
            self.search_inv(start, cost@, dir@, closed),
            closed[self.grid.index_spec(goal)],
        ensures
            r@.len() >= 1,
            r@[0] == start,
            r@.last() == goal,
            is_route(self, r@),
    {
        let mut back: Vec<Vec2D> = Vec::new();
        let mut cur = goal;
        back.push(cur);
        proof {
            self.grid.lemma_index(goal);
            reveal(Game::search_inv);
        }
        while cur != start
            invariant
                self.wf(),
                self.grid.has_spec(start),
                self.grid.has_spec(cur),
                self.search_inv(start, cost@, dir@, closed),
                cost@[self.grid.index_spec(cur)] < UNREACHED,
                cur == start || self.passable(cur),
                back@.len() >= 1,
                back@[0] == goal,
                back@.last() == cur,
                forall|k: int| 0 <= k < back@.len() - 1 ==> (#[trigger] back@[k + 1]).adjacent(back@[k]),
                forall|k: int| 0 <= k < back@.len() - 1 ==> self.passable(#[trigger] back@[k]),
            decreases cost@[self.grid.index_spec(cur)],
        {
            proof {
                reveal(Game::search_inv);
            }
            let ci = self.grid.index(cur);
            let d = dir[ci];
            assert(d < NO_DIR);
            let prev = cur.apply(Direction::from_index(d).invert());
            proof {
                assert(prev == pred_of(cur, d));
                self.grid.lemma_index(prev);
            }
            let ghost old_back = back@;
            back.push(prev);
            proof {
                assert forall|k: int| 0 <= k < back@.len() - 1 implies (#[trigger] back@[k + 1]).adjacent(back@[k]) by {
                    if k < back@.len() - 2 {
                        assert(back@[k + 1] == old_back[k + 1]);
                    }
                }
                assert forall|k: int| 0 <= k < back@.len() - 1 implies self.passable(#[trigger] back@[k]) by {
                    assert(back@[k] == old_back[k]);
                }
            }
            cur = prev;
        }
        let mut path: Vec<Vec2D> = Vec::new();
        let mut k: usize = back.len();
        while k > 0
            invariant
                k <= back@.len(),
                path@.len() == back@.len() - k,
                forall|j: int| 0 <= j < path@.len() ==> #[trigger] path@[j] == back@[back@.len() - 1 - j],
            decreases k,
        {
            k = k - 1;
            path.push(back[k]);
        }
        proof {
            assert forall|j: int| 0 <= j < path@.len() - 1 implies (#[trigger] path@[j]).adjacent(path@[j + 1]) by {
                let m = back@.len() - 2 - j;
                assert(back@[m + 1].adjacent(back@[m]));
                assert(path@[j] == back@[m + 1]);
                assert(path@[j + 1] == back@[m]);
            }
            assert forall|j: int| 1 <= j < path@.len() implies self.passable(#[trigger] path@[j]) by {
                let m = back@.len() - 1 - j;
                assert(path@[j] == back@[m]);
            }
        }
        path
    }
}

pub(crate) proof fn lemma_count_zero(s: Seq<bool>)
    requires
        forall|i: int| 0 <= i < s.len() ==> !s[i],
    ensures
        count_true(s) == 0,
    decreases s.len(),
{
    if s.len() > 0 {
        lemma_count_zero(s.drop_last());
    }
}


/// No neighbour of `goal` is `start` or may be entered by a head, and
/// `goal` is not `start`: `goal` is walled in.
pub open spec fn enclosed(g: &Game, start: Vec2D, goal: Vec2D) -> bool {
    &&& start != goal
    &&& forall|q: Vec2D| #[trigger] q.adjacent(goal) ==> q != start && !g.passable(q)
}

/// A walled-in goal is not reachable from `start`, so `a_star` returns
/// `None` for it.
pub proof fn lemma_enclosed_no_route(g: &Game, start: Vec2D, goal: Vec2D)
    requires
        enclosed(g, start, goal),
    ensures
        !reachable(g, start, goal),
{
    if reachable(g, start, goal) {
        let path = choose|path: Seq<Vec2D>|
            path.len() >= 1 && path[0] == start && path.last() == goal && #[trigger] is_route(g, path);
        let n = path.len() as int;
        assert(n >= 2);
        assert(path[n - 2].adjacent(path[n - 1]));
        assert(path[n - 2].dist(goal) == goal.dist(path[n - 2]));
        assert(path[n - 2].adjacent(goal));
        if n - 2 == 0 {
            assert(path[0] == start);
        } else {
            assert(g.passable(path[n - 2]));
        }
    }
}

/// A route from `start` to `goal` holds at least Manhattan distance + 1
/// coordinates.
pub proof fn lemma_route_length(g: &Game, path: Seq<Vec2D>)
    requires
        path.len() >= 1,
        is_route(g, path),
    ensures
        path.len() >= path[0].dist(path.last()) + 1,
    decreases path.len(),
{
    if path.len() > 1 {
        let front = path.drop_last();
        assert forall|k: int| 0 <= k < front.len() - 1 implies (#[trigger] front[k]).adjacent(front[k + 1]) by {
            assert(path[k].adjacent(path[k + 1]));
        }
        assert forall|k: int| 1 <= k < front.len() implies g.passable(#[trigger] front[k]) by {
            assert(g.passable(path[k]));
        }
        lemma_route_length(g, front);
        let n = path.len() as int;
        assert(path[n - 2].adjacent(path[n - 1]));
    }
}


impl Game {
    proof fn lemma_close_keeps_inv(
        &self,
        start: Vec2D,
        cost: Seq<u64>,
        dir: Seq<u8>,
        closed0: Seq<bool>,
        closed1: Seq<bool>,
        c: Vec2D,
    )
        requires
            self.wf(),
            self.grid.has_spec(c),
            self.search_inv(start, cost, dir, closed0),
            closed1 == closed0.update(self.grid.index_spec(c), true),
            cost[self.grid.index_spec(c)] < UNREACHED,
        ensures
            self.search_inv(start, cost, dir, closed1),
    {
        reveal(Game::search_inv);
        self.grid.lemma_index(c);
        assert forall|p: Vec2D| #![trigger self.grid.index_spec(p)] self.grid.has_spec(p)
            implies {
            let i = self.grid.index_spec(p);
            &&& dir[i] <= NO_DIR
            &&& closed1[i] ==> cost[i] < UNREACHED
            &&& (dir[i] == NO_DIR && cost[i] < UNREACHED ==> p == start)
            &&& (dir[i] < NO_DIR ==> {
                let q = pred_of(p, dir[i]);
                &&& self.grid.has_spec(q)
                &&& closed1[self.grid.index_spec(q)]
                &&& cost[i] < UNREACHED
                &&& cost[i] == cost[self.grid.index_spec(q)] + 1
                &&& self.passable(p)
                &&& q.adjacent(p)
            })
        } by {
            self.grid.lemma_index(p);
            if p != c {
                self.grid.lemma_index_distinct(p, c);
            }
            let i = self.grid.index_spec(p);
            if dir[i] < NO_DIR {
                let q = pred_of(p, dir[i]);
                assert(self.grid.has_spec(q));
                self.grid.lemma_index(q);
                if q != c {
                    self.grid.lemma_index_distinct(q, c);
                }
            }
        }
    }

    proof fn lemma_search_basics(&self, start: Vec2D, cost: Seq<u64>, dir: Seq<u8>, closed: Seq<bool>)
        requires
            self.search_inv(start, cost, dir, closed),
        ensures
            cost.len() == self.grid.cells@.len(),
            dir.len() == self.grid.cells@.len(),
            closed.len() == self.grid.cells@.len(),
            cost[self.grid.index_spec(start)] == 0,
            forall|p: Vec2D|
                #![trigger self.grid.index_spec(p)]
                self.grid.has_spec(p) && closed[self.grid.index_spec(p)] ==> cost[self.grid.index_spec(p)] < UNREACHED,
    {
        reveal(Game::search_inv);
    }

    /// Taking `c` out of the open list and closing it keeps every reached
    /// cell and every expanded neighbour closed or open.
    proof fn lemma_pop_close(
        &self,
        cost: Seq<u64>,
        closed0: Seq<bool>,
        closed1: Seq<bool>,
        open0: Seq<(u64, Vec2D)>,
        open1: Seq<(u64, Vec2D)>,
        c: Vec2D,
    )
        requires
            self.wf(),
            self.grid.has_spec(c),
            closed0.len() == self.grid.cells@.len(),
            closed1 == closed0.update(self.grid.index_spec(c), true),
            forall|q: Vec2D| #[trigger] in_open(open0, q) ==> in_open(open1, q) || q == c,
            self.reached_tracked(cost, closed0, open0),
            self.closed_expanded(closed0, open0, c, false),
        ensures
            self.reached_tracked(cost, closed1, open1),
            self.closed_expanded(closed1, open1, c, true),
            closed0[self.grid.index_spec(c)] ==> self.closed_expanded(closed1, open1, c, false),
    {
        self.grid.lemma_index(c);
        assert forall|p: Vec2D| #![trigger self.grid.index_spec(p)] self.grid.has_spec(p) && cost[self.grid.index_spec(p)] < UNREACHED
            implies closed1[self.grid.index_spec(p)] || in_open(open1, p) by {
            self.grid.lemma_index(p);
            if !closed1[self.grid.index_spec(p)] {
                assert(in_open(open0, p));
            }
        }
        assert forall|p: Vec2D| #![trigger self.grid.index_spec(p)] self.grid.has_spec(p) && closed1[self.grid.index_spec(p)]
            && (!(true && p == c) || closed0[self.grid.index_spec(c)]) implies self.expanded(p, 4, closed1, open1) by {
            self.grid.lemma_index(p);
            if p != c {
                self.grid.lemma_index_distinct(p, c);
            }
            assert(closed0[self.grid.index_spec(p)]);
            assert forall|i: int| 0 <= i < 4 implies #[trigger] self.step_seen(p, Direction::nth(i), closed1, open1) by {
                assert(self.step_seen(p, Direction::nth(i), closed0, open0));
                let q = p.shifted(Direction::nth(i));
                if self.grid.has_spec(q) {
                    self.grid.lemma_index(q);
                }
            }
        }
    }

    proof fn lemma_close_bound(&self, cost: Seq<u64>, closed0: Seq<bool>, closed1: Seq<bool>, c: Vec2D)
        requires
            self.wf(),
            self.grid.has_spec(c),
            closed0.len() == self.grid.cells@.len(),
            !closed0[self.grid.index_spec(c)],
            closed1 == closed0.update(self.grid.index_spec(c), true),
            count_true(closed1) == count_true(closed0) + 1,
            self.cost_bounded(cost, closed0),
        ensures
            self.cost_bounded(cost, closed1),
    {
        self.grid.lemma_index(c);
        assert forall|p: Vec2D| #![trigger self.grid.index_spec(p)] self.grid.has_spec(p) && cost[self.grid.index_spec(p)] < UNREACHED
            implies cost[self.grid.index_spec(p)] <= count_true(closed1) + if closed1[self.grid.index_spec(p)] {
                0int
            } else {
                1int
            } by {
            self.grid.lemma_index(p);
            if p != c {
                self.grid.lemma_index_distinct(p, c);
            }
        }
    }

    proof fn lemma_route_closed(&self, path: Seq<Vec2D>, closed: Seq<bool>, k: int)
        requires
            self.wf(),
            path.len() >= 1,
            is_route(self, path),
            self.grid.has_spec(path[0]),
            closed[self.grid.index_spec(path[0])],
            self.closed_expanded(closed, Seq::empty(), path[0], false),
            0 <= k < path.len(),
        ensures
            self.grid.has_spec(path[k]),
            closed[self.grid.index_spec(path[k])],
        decreases k,
    {
        if k > 0 {
            self.lemma_route_closed(path, closed, k - 1);
            let a = path[k - 1];
            let b = path[k];
            assert(a.adjacent(b));
            assert(self.passable(b));
            let i = lemma_adjacent_dir(a, b);
            assert(self.expanded(a, 4, closed, Seq::empty()));
            assert(self.step_seen(a, Direction::nth(i), closed, Seq::empty()));
            assert(!in_open(Seq::empty(), b));
        }
    }

    proof fn lemma_unreachable(&self, start: Vec2D, goal: Vec2D, cost: Seq<u64>, closed: Seq<bool>)
        requires
            self.wf(),
            self.grid.has_spec(start),
            cost[self.grid.index_spec(start)] == 0,
            self.reached_tracked(cost, closed, Seq::empty()),
            self.closed_expanded(closed, Seq::empty(), start, false),
            self.grid.has_spec(goal) ==> !closed[self.grid.index_spec(goal)],
        ensures
            !reachable(self, start, goal),
    {
        assert(!in_open(Seq::<(u64, Vec2D)>::empty(), start));
        assert(closed[self.grid.index_spec(start)]);
        if reachable(self, start, goal) {
            let path = choose|path: Seq<Vec2D>|
                path.len() >= 1 && path[0] == start && path.last() == goal && #[trigger] is_route(self, path);
            self.lemma_route_closed(path, closed, path.len() - 1);
        }
    }
}

proof fn lemma_adjacent_dir(a: Vec2D, b: Vec2D) -> (i: int)
    requires
        0 <= a.x < 32767,
        0 <= a.y < 32767,
        a.adjacent(b),
    ensures
        0 <= i < 4,
        a.shifted(Direction::nth(i)) == b,
{
    if b.y == a.y + 1 {
        0
    } else if b.x == a.x + 1 {
        1
    } else if b.y == a.y - 1 {
        2
    } else {
        3
    }
}

proof fn lemma_remove_in_open(old: Seq<(u64, Vec2D)>, best: int, new: Seq<(u64, Vec2D)>)
    requires
        0 <= best < old.len(),
        new == old.remove(best),
    ensures
        forall|q: Vec2D| #[trigger] in_open(old, q) ==> in_open(new, q) || q == old[best].1,
{
    assert forall|q: Vec2D| #[trigger] in_open(old, q) implies in_open(new, q) || q == old[best].1 by {
        let j = choose|j: int| 0 <= j < old.len() && (#[trigger] old[j]).1 == q;
        if j < best {
            assert(new[j] == old[j]);
        } else if j > best {
            assert(new[j - 1] == old[j]);
        }
    }
}

} // verus!
