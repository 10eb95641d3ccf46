//! The planner: heads for the nearest food along an A* route, refuses cells
//! that a rival at least as long could also reach, and otherwise falls back
//! to a random safe legal move.
use rand::rngs::SmallRng;
use rand::seq::IteratorRandom;

use vstd::prelude::*;

use crate::astar::{is_route, reachable};
use crate::env::{Direction, Vec2D};
use crate::game::Game;
use crate::grid::CellT;
use crate::notation::position;

verus! {

#[verifier::external_type_specification]
#[verifier::external_body]
pub struct ExSmallRng(SmallRng);

/// Relies on rand's `IteratorRandom::choose` over a slice iterator: `None`
/// if and only if the slice is empty, otherwise one of its items.
#[verifier::external_body]
fn choose_move(moves: &Vec<Direction>, rng: &mut SmallRng) -> (r: Option<Direction>)
    ensures
        r is None <==> moves@.len() == 0,
        r is Some ==> moves@.contains(r->Some_0),
{
    moves.iter().choose(rng).copied()
}

/// The planner's configuration: one weight per extra heuristic term of the
/// path search (hazard, owned neighbours, neighbours off the board).
#[derive(Clone, Copy, Debug, PartialEq, Eq)]
pub struct StarAgent {
    pub weights: [u32; 3],
}

/// Uniform choice among the legal moves.
#[derive(Clone, Copy, Debug, PartialEq, Eq)]
pub struct RandomAgent;

/// A decision policy.
#[derive(Clone, Copy, Debug, PartialEq, Eq)]
pub enum Agent {
    AStar(StarAgent),
    Random(RandomAgent),
}

/// Boards wider or higher than this skip the path search.
pub const MAX_BOARD_SIZE: usize = 19;

/// Moving self (body 0) in direction `d` enters a cell that the head of a
/// rival at least as long as self can also reach in one step.
pub open spec fn threatened(g: &Game, d: Direction) -> bool {
    let f = g.snakes@[0].head_spec().shifted(d);
    exists|j: int|
        1 <= j < g.snakes@.len() && (#[trigger] g.snakes@[j]).body@.len() >= g.snakes@[0].body@.len()
            && exists|e: Direction| g.snakes@[j].head_spec().shifted(e) == f
}

/// A legal move of self that is not threatened and not excluded.
pub open spec fn safe_choice(g: &Game, excluded: Seq<Direction>, d: Direction) -> bool {
    &&& g.legal_moves(0).contains(d)
    &&& !excluded.contains(d)
    &&& !threatened(g, d)
}

/// What the planner answers when no safe move is left: the first legal
/// move, or `Up` when there is none.
pub open spec fn last_resort(g: &Game) -> Direction {
    if g.legal_moves(0).len() > 0 {
        g.legal_moves(0)[0]
    } else {
        Direction::Up
    }
}

/// Requirements of the planner on a game: self exists and has a head.
pub open spec fn plannable(g: &Game) -> bool {
    &&& g.wf()
    &&& g.snakes@.len() >= 1
    &&& g.snakes@[0].body@.len() >= 1
}

/// Whether moving self in direction `d` is threatened by a rival.
pub fn is_threatened(game: &Game, d: Direction) -> (r: bool)
    requires
        plannable(game),
    ensures
        r == threatened(game, d),
{
    let my = &game.snakes[0];
    proof {
        assert(game.grid.has_spec(game.seg(0, my.body@.len() - 1)));
    }
    let future = my.head().apply(d);
    let dirs = Direction::all();
    let mut j: usize = 1;
    while j < game.snakes.len()
        invariant
            plannable(game),
            1 <= j <= game.snakes@.len(),
            *my == game.snakes@[0],
            future == my.head_spec().shifted(d),
            forall|i: int| 0 <= i < 4 ==> #[trigger] dirs[i] == Direction::nth(i),
            forall|m: int|
                1 <= m < j ==> !((#[trigger] game.snakes@[m]).body@.len() >= my.body@.len()
                    && exists|e: Direction| game.snakes@[m].head_spec().shifted(e) == future),
        decreases game.snakes@.len() - j,
    {
        let s = &game.snakes[j];
        if s.body.len() >= my.body.len() {
            proof {
                assert(game.grid.has_spec(game.seg(j as int, s.body@.len() - 1)));
            }
            let h = s.head();
            let mut k: usize = 0;
            while k < 4
                invariant
                    k <= 4,
                    1 <= j < game.snakes@.len(),
                    *s == game.snakes@[j as int],
                    *my == game.snakes@[0],
                    s.body@.len() >= my.body@.len(),
                    h == s.head_spec(),
                    future == my.head_spec().shifted(d),
                    forall|i: int| 0 <= i < 4 ==> #[trigger] dirs[i] == Direction::nth(i),
                    0 <= h.x < 32767,
                    0 <= h.y < 32767,
                    forall|i: int| 0 <= i < k ==> h.shifted(#[trigger] Direction::nth(i)) != future,
                decreases 4 - k,
            {
                if h.apply(dirs[k]) == future {
                    proof {
                        let e = dirs[k as int];
                        assert(game.snakes@[j as int].head_spec().shifted(e) == future);
                        assert(exists|e: Direction| game.snakes@[j as int].head_spec().shifted(e) == future);
                        assert(game.snakes@[j as int].body@.len() >= game.snakes@[0].body@.len());
                        assert(game.snakes@[0].head_spec().shifted(d) == future);
                    }
                    return true;
                }
                k = k + 1;
            }
            proof {
                assert forall|e: Direction| h.shifted(e) != future by {
                    assert(h.shifted(Direction::nth(e.index_of() as int)) != future);
                    assert(Direction::nth(e.index_of() as int) == e);
                }
            }
        }
        j = j + 1;
    }
    false
}

/// The legal moves of self that are not excluded.
fn candidates(game: &Game, excluded: &Vec<Direction>) -> (r: Vec<Direction>)
    requires
        game.wf(),
    ensures
        forall|d: Direction| r@.contains(d) <==> game.legal_moves(0).contains(d) && !excluded@.contains(d),
{
    let legal = game.valid_moves(0).to_vec();
    let mut out: Vec<Direction> = Vec::new();
    let mut i: usize = 0;
    while i < legal.len()
        invariant
            i <= legal@.len(),
            legal@ == game.legal_moves(0),
            forall|d: Direction|
                out@.contains(d) <==> legal@.subrange(0, i as int).contains(d) && !excluded@.contains(d),
        decreases legal@.len() - i,
    {
        let d = legal[i];
        let mut hit = false;
        let mut k: usize = 0;
        while k < excluded.len()
            invariant
                k <= excluded@.len(),
                hit <==> excluded@.subrange(0, k as int).contains(d),
            decreases excluded@.len() - k,
        {
            if excluded[k] == d {
                hit = true;
            }
            proof {
                if excluded@.subrange(0, k + 1).contains(d) && excluded[k as int] != d {
                    let m = choose|m: int| 0 <= m < k + 1 && #[trigger] excluded@.subrange(0, k + 1)[m] == d;
                    assert(excluded@.subrange(0, k as int)[m] == d);
                }
                if excluded@.subrange(0, k as int).contains(d) {
                    let m = choose|m: int| 0 <= m < k && #[trigger] excluded@.subrange(0, k as int)[m] == d;
                    assert(excluded@.subrange(0, k + 1)[m] == d);
                }
                if excluded[k as int] == d {
                    assert(excluded@.subrange(0, k + 1)[k as int] == d);
                }
            }
            k = k + 1;
        }
        proof {
            assert(excluded@.subrange(0, excluded@.len() as int) =~= excluded@);
        }
        let ghost before = out@;
        if !hit {
            out.push(d);
        }
        proof {
            assert forall|e: Direction|
                out@.contains(e) <==> legal@.subrange(0, i + 1).contains(e) && !excluded@.contains(e) by {
                if legal@.subrange(0, i + 1).contains(e) {
                    let m = choose|m: int| 0 <= m < i + 1 && #[trigger] legal@.subrange(0, i + 1)[m] == e;
                    if m < i {
                        assert(legal@.subrange(0, i as int)[m] == e);
                    }
                }
                if legal@.subrange(0, i as int).contains(e) {
                    let m = choose|m: int| 0 <= m < i && #[trigger] legal@.subrange(0, i as int)[m] == e;
                    assert(legal@.subrange(0, i + 1)[m] == e);
                }
                assert(legal@.subrange(0, i + 1)[i as int] == d);
                if out@.contains(e) && !before.contains(e) {
                    let m = choose|m: int| 0 <= m < out@.len() && #[trigger] out@[m] == e;
                    assert(m == before.len());
                }
                if before.contains(e) {
                    let m = choose|m: int| 0 <= m < before.len() && #[trigger] before[m] == e;
                    assert(out@[m] == e);
                }
                if !hit && e == d {
                    assert(out@[before.len() as int] == e);
                }
            }
        }
        i = i + 1;
    }
    proof {
        assert(legal@.subrange(0, legal@.len() as int) =~= legal@);
    }
    out
}

/// `v` without the entries equal to `m`.
fn without(v: &Vec<Direction>, m: Direction) -> (r: Vec<Direction>)
    ensures
        forall|d: Direction| r@.contains(d) <==> v@.contains(d) && d != m,
        v@.contains(m) ==> r@.len() < v@.len(),
        r@.len() <= v@.len(),
{
    let mut out: Vec<Direction> = Vec::new();
    let mut seen = false;
    let mut i: usize = 0;
    while i < v.len()
        invariant
            i <= v@.len(),
            seen <==> v@.subrange(0, i as int).contains(m),
            out@.len() + if seen { 1int } else { 0int } <= i,
            forall|d: Direction| out@.contains(d) <==> v@.subrange(0, i as int).contains(d) && d != m,
        decreases v@.len() - i,
    {
        let d = v[i];
        let ghost before = out@;
        if d == m {
            seen = true;
        } else {
            out.push(d);
        }
        proof {
            assert(v@.subrange(0, i + 1)[i as int] == d);
            assert forall|e: Direction|
                out@.contains(e) <==> v@.subrange(0, i + 1).contains(e) && e != m by {
                if v@.subrange(0, i + 1).contains(e) {
                    let k = choose|k: int| 0 <= k < i + 1 && #[trigger] v@.subrange(0, i + 1)[k] == e;
                    if k < i {
                        assert(v@.subrange(0, i as int)[k] == e);
                    }
                }
                if v@.subrange(0, i as int).contains(e) {
                    let k = choose|k: int| 0 <= k < i && #[trigger] v@.subrange(0, i as int)[k] == e;
                    assert(v@.subrange(0, i + 1)[k] == e);
                }
                if out@.contains(e) && !before.contains(e) {
                    let k = choose|k: int| 0 <= k < out@.len() && #[trigger] out@[k] == e;
                    assert(k == before.len());
                }
                if before.contains(e) {
                    let k = choose|k: int| 0 <= k < before.len() && #[trigger] before[k] == e;
                    assert(out@[k] == e);
                }
                if d != m && e == d {
                    assert(out@[before.len() as int] == e);
                }
            }
            if v@.subrange(0, i + 1).contains(m) && d != m {
                let k = choose|k: int| 0 <= k < i + 1 && #[trigger] v@.subrange(0, i + 1)[k] == m;
                assert(v@.subrange(0, i as int)[k] == m);
            }
            if v@.subrange(0, i as int).contains(m) {
                let k = choose|k: int| 0 <= k < i && #[trigger] v@.subrange(0, i as int)[k] == m;
                assert(v@.subrange(0, i + 1)[k] == m);
            }
        }
        i = i + 1;
    }
    proof {
        assert(v@.subrange(0, v@.len() as int) =~= v@);
    }
    out
}

/// Random safe fallback: a move drawn at random among the legal moves of
/// self that are neither excluded nor threatened; when none is left, the
/// first legal move, or `Up` when self has no legal move. The directions
/// found threatened are added to `nots`.
pub fn random(game: &Game, nots: &mut Vec<Direction>, rng: &mut SmallRng) -> (r: Direction)
    requires
        plannable(game),
    ensures
        (exists|d: Direction| safe_choice(game, old(nots)@, d)) ==> safe_choice(game, old(nots)@, r),
        !(exists|d: Direction| safe_choice(game, old(nots)@, d)) ==> r == last_resort(game),
        final(nots)@.len() >= old(nots)@.len(),
        final(nots)@.subrange(0, old(nots)@.len() as int) == old(nots)@,
        forall|k: int| old(nots)@.len() <= k < final(nots)@.len() ==> {
            let d = #[trigger] final(nots)@[k];
            &&& game.legal_moves(0).contains(d)
            &&& threatened(game, d)
            &&& !old(nots)@.contains(d)
        },
        forall|k1: int, k2: int|
            old(nots)@.len() <= k1 < k2 < final(nots)@.len() ==> #[trigger] final(nots)@[k1] != #[trigger] final(nots)@[k2],
{
    let ghost excluded = nots@;
    let mut cands = candidates(game, nots);
    loop
        invariant
            plannable(game),
            excluded == old(nots)@,
            nots@.len() >= excluded.len(),
            nots@.subrange(0, excluded.len() as int) == excluded,
            forall|d: Direction| #[trigger] cands@.contains(d) ==> game.legal_moves(0).contains(d) && !excluded.contains(d),
            forall|d: Direction|
                game.legal_moves(0).contains(d) && !excluded.contains(d) && !#[trigger] cands@.contains(d)
                    ==> threatened(game, d),
            forall|k: int| excluded.len() <= k < nots@.len() ==> {
                let d = #[trigger] nots@[k];
                &&& game.legal_moves(0).contains(d)
                &&& threatened(game, d)
                &&& !excluded.contains(d)
                &&& !cands@.contains(d)
            },
            forall|k1: int, k2: int|
                excluded.len() <= k1 < k2 < nots@.len() ==> #[trigger] nots@[k1] != #[trigger] nots@[k2],
        decreases cands@.len(),
    {
        match choose_move(&cands, rng) {
            None => {
                proof {
                    assert forall|d: Direction| !safe_choice(game, excluded, d) by {
                        if game.legal_moves(0).contains(d) && !excluded.contains(d) {
                            assert(!cands@.contains(d));
                        }
                    }
                }
                let legal = game.valid_moves(0);
                if legal.len() > 0 {
                    return legal.dirs[0];
                } else {
                    return Direction::Up;
                }
            },
            Some(m) => {
                if is_threatened(game, m) {
                    let ghost before = nots@;
                    nots.push(m);
                    proof {
                        assert(nots@.subrange(0, excluded.len() as int) =~= before.subrange(0, excluded.len() as int));
                    }
                    let ghost old_cands = cands@;
                    cands = without(&cands, m);
                    proof {
                        assert forall|k: int| excluded.len() <= k < nots@.len() implies {
                            let d = #[trigger] nots@[k];
                            &&& game.legal_moves(0).contains(d)
                            &&& threatened(game, d)
                            &&& !excluded.contains(d)
                            &&& !cands@.contains(d)
                        } by {
                            if k < before.len() {
                                assert(nots@[k] == before[k]);
                            }
                        }
                        assert forall|k1: int, k2: int|
                            excluded.len() <= k1 < k2 < nots@.len() implies #[trigger] nots@[k1] != #[trigger] nots@[k2] by {
                            if k2 == before.len() {
                                assert(nots@[k1] == before[k1]);
                                assert(!old_cands.contains(before[k1]));
                            } else {
                                assert(nots@[k1] == before[k1]);
                                assert(nots@[k2] == before[k2]);
                            }
                        }
                    }
                } else {
                    proof {
                        assert(safe_choice(game, excluded, m));
                    }
                    return m;
                }
            },
        }
    }
}

/// Keeps `m` unless a rival threatens it; a threatened move is excluded and
/// replaced by the random safe fallback.
pub fn move_check(game: &Game, m: Direction, nots: &mut Vec<Direction>, rng: &mut SmallRng) -> (r: Direction)
    requires
        plannable(game),
    ensures
        !threatened(game, m) ==> r == m,
        threatened(game, m) ==> {
            &&& (exists|d: Direction| safe_choice(game, old(nots)@.push(m), d)) ==> safe_choice(game, old(nots)@.push(m), r)
            &&& !(exists|d: Direction| safe_choice(game, old(nots)@.push(m), d)) ==> r == last_resort(game)
        },
        final(nots)@.len() >= old(nots)@.len(),
        final(nots)@.subrange(0, old(nots)@.len() as int) == old(nots)@,
        !threatened(game, m) ==> final(nots)@ == old(nots)@,
        threatened(game, m) ==> final(nots)@.len() > old(nots)@.len() && final(nots)@[old(nots)@.len() as int] == m,
{
    if is_threatened(game, m) {
        let ghost before = nots@;
        nots.push(m);
        let r = random(game, nots, rng);
        proof {
            assert(nots@.subrange(0, before.len() as int) =~= nots@.subrange(0, before.len() as int + 1).subrange(0, before.len() as int));
            assert(before.push(m).subrange(0, before.len() as int) =~= before);
            assert(nots@.subrange(0, before.len() as int + 1)[before.len() as int] == m);
        }
        r
    } else {
        m
    }
}

/// `t` is the food cell nearest to `from` by squared Euclidean distance,
/// the first in row order from the bottom row among equally near ones.
pub open spec fn nearest_food_at(g: &Game, from: Vec2D, t: Vec2D) -> bool {
    &&& g.grid.has_spec(t)
    &&& g.grid.cell_at(t).t == CellT::Food
    &&& forall|q: Vec2D|
        g.grid.has_spec(q) && g.grid.cell_at(q).t == CellT::Food ==> sq_dist(from, t) <= sq_dist(from, q)
            && (g.grid.index_spec(q) < g.grid.index_spec(t) ==> sq_dist(from, t) < sq_dist(from, q))
}

proof fn lemma_nearest_unique(g: &Game, from: Vec2D, t1: Vec2D, t2: Vec2D)
    requires
        g.wf(),
        nearest_food_at(g, from, t1),
        nearest_food_at(g, from, t2),
    ensures
        t1 == t2,
{
    if t1 != t2 {
        g.grid.lemma_index_distinct(t1, t2);
    }
}

/// A rival at least as long as self can move its head onto `c`.
pub open spec fn cell_threatened(g: &Game, c: Vec2D) -> bool {
    exists|j: int|
        1 <= j < g.snakes@.len() && (#[trigger] g.snakes@[j]).body@.len() >= g.snakes@[0].body@.len()
            && exists|e: Direction| g.snakes@[j].head_spec().shifted(e) == c
}

/// The food cell nearest to `from` by squared Euclidean distance; among
/// equally near ones the first in row order from the bottom row.
pub fn nearest_food(game: &Game, from: Vec2D) -> (r: Option<Vec2D>)
    requires
        game.wf(),
    ensures
        r is None <==> !exists|p: Vec2D| game.grid.has_spec(p) && game.grid.cell_at(p).t == CellT::Food,
        r is Some ==> nearest_food_at(game, from, r->Some_0),
{
    let w = game.grid.width;
    let h = game.grid.height;
    let n = game.grid.cells.len();
    let mut best: Option<Vec2D> = None;
    let mut best_d: u64 = 0;
    let mut i: usize = 0;
    while i < n
        invariant
            game.wf(),
            w == game.grid.width,
            h == game.grid.height,
            n == w * h,
            i <= n,
            best is None <==> !exists|p: Vec2D|
                game.grid.has_spec(p) && game.grid.index_spec(p) < i && game.grid.cell_at(p).t == CellT::Food,
            best is Some ==> {
                let t = best->Some_0;
                &&& game.grid.has_spec(t)
                &&& game.grid.index_spec(t) < i
                &&& game.grid.cell_at(t).t == CellT::Food
                &&& best_d == sq_dist(from, t)
                &&& forall|q: Vec2D|
                    game.grid.has_spec(q) && game.grid.index_spec(q) < i && game.grid.cell_at(q).t == CellT::Food
                        ==> sq_dist(from, t) <= sq_dist(from, q) && (game.grid.index_spec(q) < game.grid.index_spec(t)
                        ==> sq_dist(from, t) < sq_dist(from, q))
            },
        decreases n - i,
    {
        assert(w > 0) by (nonlinear_arith)
            requires
                i < n,
                n == w * h,
        ;
        let p = position(i, w, h);
        proof {
            assert forall|q: Vec2D| game.grid.has_spec(q) && game.grid.index_spec(q) == i implies q == p by {
                if q != p {
                    game.grid.lemma_index_distinct(q, p);
                }
            }
        }
        if game.grid.get(p).t == CellT::Food {
            let d = p.sq_dist(from);
            proof {
                assert(sq_dist(from, p) == sq_dist(p, from)) by (nonlinear_arith);
            }
            match best {
                None => {
                    best = Some(p);
                    best_d = d;
                },
                Some(_) => {
                    if d < best_d {
                        best = Some(p);
                        best_d = d;
                    }
                },
            }
        }
        proof {
            if best is None {
                assert forall|q: Vec2D|
                    game.grid.has_spec(q) && game.grid.index_spec(q) < i + 1 implies game.grid.cell_at(q).t
                        != CellT::Food by {
                    if game.grid.index_spec(q) < i {
                        assert(!(game.grid.has_spec(q) && game.grid.index_spec(q) < i
                            && game.grid.cell_at(q).t == CellT::Food));
                    }
                }
            } else if game.grid.cell_at(p).t == CellT::Food {
                assert(game.grid.has_spec(p) && game.grid.index_spec(p) < i + 1);
            }
        }
        i = i + 1;
    }
    proof {
        assert forall|q: Vec2D| game.grid.has_spec(q) implies game.grid.index_spec(q) < n by {
            game.grid.lemma_index(q);
        }
    }
    best
}

/// Squared Euclidean distance.
pub open spec fn sq_dist(a: Vec2D, b: Vec2D) -> int {
    (a.x - b.x) * (a.x - b.x) + (a.y - b.y) * (a.y - b.y)
}

proof fn lemma_legal_listed(g: &Game, d: Direction, n: nat)
    requires
        g.legal(0, d),
        d.index_of() < n <= 4,
    ensures
        g.legal_prefix(0, n).contains(d),
    decreases n,
{
    let rest = g.legal_prefix(0, (n - 1) as nat);
    if d.index_of() == n - 1 {
        assert(Direction::nth(n - 1) == d);
        assert(rest.push(d)[rest.len() as int] == d);
    } else {
        lemma_legal_listed(g, d, (n - 1) as nat);
        let k = choose|k: int| 0 <= k < rest.len() && #[trigger] rest[k] == d;
        if g.legal(0, Direction::nth(n - 1)) {
            assert(rest.push(Direction::nth(n - 1))[k] == d);
        }
    }
}

/// The first step of a route to the nearest food, kept unless threatened.
proof fn lemma_route_commit(g: &Game, head: Vec2D, target: Vec2D, path: Seq<Vec2D>, d: Direction, r: Direction)
    requires
        g.wf(),
        nearest_food_at(g, head, target),
        path.len() >= 2,
        path[0] == head,
        path.last() == target,
        is_route(g, path),
        head == g.snakes@[0].head_spec(),
        head.shifted(d) == path[1],
        !threatened(g, d) ==> r == d,
    ensures
        forall|t: Vec2D|
            nearest_food_at(g, head, t) && t != head && reachable(g, head, t) ==> exists|p: Seq<Vec2D>|
                #![trigger is_route(g, p)]
                p.len() >= 2 && p[0] == head && p.last() == t && is_route(g, p)
                    && (head.shifted(r) == p[1] || cell_threatened(g, p[1])),
{
    assert forall|t: Vec2D|
        nearest_food_at(g, head, t) && t != head && reachable(g, head, t) implies exists|p: Seq<Vec2D>|
        #![trigger is_route(g, p)]
        p.len() >= 2 && p[0] == head && p.last() == t && is_route(g, p)
            && (head.shifted(r) == p[1] || cell_threatened(g, p[1])) by {
        lemma_nearest_unique(g, head, t, target);
        assert(threatened(g, d) == cell_threatened(g, path[1]));
        assert(is_route(g, path));
    }
}

/// Without a usable route to the nearest food there is nothing to commit to.
proof fn lemma_no_commit(g: &Game, head: Vec2D, target: Vec2D, trivial_route: bool)
    requires
        g.wf(),
        nearest_food_at(g, head, target),
        trivial_route ==> target == head,
        !trivial_route ==> !reachable(g, head, target),
    ensures
        forall|t: Vec2D| nearest_food_at(g, head, t) && t != head ==> !reachable(g, head, t),
{
    assert forall|t: Vec2D| nearest_food_at(g, head, t) && t != head implies !reachable(g, head, t) by {
        lemma_nearest_unique(g, head, t, target);
    }
}

impl StarAgent {
    /// One decision: the first step of a route to the nearest food unless a
    /// rival threatens it; otherwise, or without food or route, the random
    /// safe fallback.
    #[verifier::spinoff_prover]
    pub fn step(&self, game: &Game, rng: &mut SmallRng) -> (r: Direction)
        requires
            plannable(game),
        ensures
            (exists|d: Direction| safe_choice(game, Seq::empty(), d)) ==> safe_choice(game, Seq::empty(), r),
            !(exists|d: Direction| safe_choice(game, Seq::empty(), d)) && game.alive_id(0) ==> r == last_resort(game),
            forall|t: Vec2D|
                nearest_food_at(game, game.snakes@[0].head_spec(), t) && t != game.snakes@[0].head_spec()
                    && reachable(game, game.snakes@[0].head_spec(), t) ==> exists|p: Seq<Vec2D>|
                    #![trigger is_route(game, p)]
                    p.len() >= 2 && p[0] == game.snakes@[0].head_spec() && p.last() == t && is_route(game, p)
                        && (game.snakes@[0].head_spec().shifted(r) == p[1] || cell_threatened(game, p[1])),
    {
        let my = &game.snakes[0];
        proof {
            assert(game.grid.has_spec(game.seg(0, my.body@.len() - 1)));
        }
        let head = my.head();
        let mut nots: Vec<Direction> = Vec::new();
        if let Some(target) = nearest_food(game, head) {
            if let Some(path) = game.a_star(head, target, &self.weights) {
                if path.len() >= 2 {
                    let d = Direction::from_delta(v2_delta(path[0], path[1]));
                    proof {
                        assert(is_route(game, path@));
                        assert(path@[0].adjacent(path@[1]));
                        assert(game.passable(path@[1]));
                        assert(head.shifted(d) == path@[1]);
                    }
                    let ghost empty = nots@;
                    let r = move_check(game, d, &mut nots, rng);
                    proof {
                        assert(empty =~= Seq::<Direction>::empty());
                        if game.alive_id(0) {
                            assert(game.legal(0, d));
                        }
                        lemma_commit(game, d, r);
                        lemma_route_commit(game, head, target, path@, d, r);
                    }
                    return r;
                } else {
                    proof {
                        lemma_no_commit(game, head, target, true);
                    }
                }
            } else {
                proof {
                    lemma_no_commit(game, head, target, false);
                }
            }
        } else {
            proof {
                assert forall|t: Vec2D| !nearest_food_at(game, head, t) by {
                    if nearest_food_at(game, head, t) {
                        assert(game.grid.has_spec(t) && game.grid.cell_at(t).t == CellT::Food);
                    }
                }
            }
        }
        let ghost empty = nots@;
        let r = random(game, &mut nots, rng);
        proof {
            assert(empty =~= Seq::<Direction>::empty());
        }
        r
    }
}

/// Committing to a legal first step `d` through `move_check` keeps the
/// planner's guarantees: a safe answer when one exists, else the last resort.
proof fn lemma_commit(g: &Game, d: Direction, r: Direction)
    requires
        plannable(g),
        g.alive_id(0) ==> g.legal(0, d),
        !threatened(g, d) ==> r == d,
        threatened(g, d) ==> {
            &&& (exists|e: Direction| safe_choice(g, Seq::<Direction>::empty().push(d), e)) ==> safe_choice(
                g,
                Seq::<Direction>::empty().push(d),
                r,
            )
            &&& !(exists|e: Direction| safe_choice(g, Seq::<Direction>::empty().push(d), e)) ==> r
                == last_resort(g)
        },
    ensures
        (exists|e: Direction| safe_choice(g, Seq::empty(), e)) ==> safe_choice(g, Seq::empty(), r),
        !(exists|e: Direction| safe_choice(g, Seq::empty(), e)) && g.alive_id(0) ==> r == last_resort(g),
{
    let empty = Seq::<Direction>::empty();
    let one = empty.push(d);
    if g.alive_id(0) {
        lemma_legal_listed(g, d, 4);
    } else {
        lemma_dead_listed(g, 4);
    }
    assert forall|e: Direction| safe_choice(g, one, e) implies safe_choice(g, empty, e) by {
        assert(!empty.contains(e));
    }
    if threatened(g, d) {
        assert forall|e: Direction| safe_choice(g, empty, e) implies safe_choice(g, one, e) by {
            if one.contains(e) {
                let k = choose|k: int| 0 <= k < one.len() && #[trigger] one[k] == e;
                assert(e == d);
            }
        }
        if !(exists|e: Direction| safe_choice(g, empty, e)) {
            assert(!(exists|e: Direction| safe_choice(g, one, e)));
        }
    } else if g.alive_id(0) {
        assert(safe_choice(g, empty, d));
    }
}

proof fn lemma_dead_listed(g: &Game, n: nat)
    requires
        !g.alive_id(0),
    ensures
        g.legal_prefix(0, n) == Seq::<Direction>::empty(),
    decreases n,
{
    if n > 0 {
        lemma_dead_listed(g, (n - 1) as nat);
    }
}

/// `b - a` as a coordinate; both lie on a board, so the difference fits.
fn v2_delta(a: Vec2D, b: Vec2D) -> (r: Vec2D)
    requires
        0 <= a.x < 32767,
        0 <= a.y < 32767,
        0 <= b.x < 32767,
        0 <= b.y < 32767,
    ensures
        r.x == b.x - a.x,
        r.y == b.y - a.y,
{
    Vec2D { x: b.x - a.x, y: b.y - a.y }
}

impl RandomAgent {
    /// A legal move of self drawn at random, or `Up` when there is none.
    pub fn step(&self, game: &Game, rng: &mut SmallRng) -> (r: Direction)
        requires
            game.wf(),
        ensures
            game.legal_moves(0).len() > 0 ==> game.legal_moves(0).contains(r),
            game.legal_moves(0).len() == 0 ==> r == Direction::Up,
    {
        let moves = game.valid_moves(0).to_vec();
        match choose_move(&moves, rng) {
            Some(d) => d,
            None => Direction::Up,
        }
    }
}

impl Agent {
    /// One decision of the configured policy; boards larger than
    /// `max_board` in either dimension skip the path search and take the
    /// random safe fallback.
    pub fn step_internal(&self, game: &Game, max_board: usize, rng: &mut SmallRng) -> (r: Direction)
        requires
            plannable(game),
        ensures
            (game.grid.width > max_board || game.grid.height > max_board) ==> {
                &&& (exists|d: Direction| safe_choice(game, Seq::empty(), d)) ==> safe_choice(game, Seq::empty(), r)
                &&& !(exists|d: Direction| safe_choice(game, Seq::empty(), d)) ==> r == last_resort(game)
            },
            (game.grid.width <= max_board && game.grid.height <= max_board) ==> match self {
                Agent::AStar(_) => {
                    &&& (exists|d: Direction| safe_choice(game, Seq::empty(), d)) ==> safe_choice(game, Seq::empty(), r)
                    &&& !(exists|d: Direction| safe_choice(game, Seq::empty(), d)) && game.alive_id(0) ==> r == last_resort(game)
                },
                Agent::Random(_) => {
                    &&& game.legal_moves(0).len() > 0 ==> game.legal_moves(0).contains(r)
                    &&& game.legal_moves(0).len() == 0 ==> r == Direction::Up
                },
            },
    {
        if game.grid.width > max_board || game.grid.height > max_board {
            let mut nots: Vec<Direction> = Vec::new();
            let ghost empty = nots@;
            let r = random(game, &mut nots, rng);
            proof {
                assert(empty =~= Seq::<Direction>::empty());
            }
            return r;
        }
        match self {
            Agent::AStar(agent) => agent.step(game, rng),
            Agent::Random(agent) => agent.step(game, rng),
        }
    }
}

impl Default for Agent {
    fn default() -> (r: Agent)
        ensures
            r == Agent::AStar(StarAgent { weights: [0, 0, 0] }),
    {
        Agent::AStar(StarAgent { weights: [0, 0, 0] })
    }
}

} // verus!
