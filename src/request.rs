//! The game snapshot a server sends each turn, and the game built from it.
use std::collections::VecDeque;

use vstd::prelude::*;

use crate::astar::{count_true, lemma_count_true_set, lemma_count_zero};
use crate::env::Vec2D;
use crate::game::{Game, Snake, MAX_SNAKES};
use crate::grid::{Cell, MAX_DIM};

verus! {

/// Settings of the running game.
#[derive(Clone, Debug)]
pub struct GameInfo {
    /// Time in ms the server waits for an answer.
    pub timeout: u64,
}

/// A body as the server describes it: segments from head to tail.
#[derive(Clone, Debug)]
pub struct Battlesnake {
    pub id: String,
    pub health: u8,
    pub body: Vec<Vec2D>,
}

/// The board of a snapshot.
#[derive(Clone, Debug)]
pub struct Board {
    pub width: usize,
    pub height: usize,
    pub food: Vec<Vec2D>,
    pub hazards: Vec<Vec2D>,
    pub snakes: Vec<Battlesnake>,
}

/// One snapshot of a game, sent each turn.
#[derive(Clone, Debug)]
pub struct GameRequest {
    pub game: GameInfo,
    pub turn: usize,
    pub board: Board,
    pub you: Battlesnake,
}

/// A snapshot with more bodies than this keeps only the nearest rivals.
pub const CROWDED: usize = 4;

/// Rivals kept on a crowded board.
pub const KEPT_RIVALS: usize = 3;

/// `s` padded at its front (the tail) to three entries by repeating the front.
pub open spec fn pad3(s: Seq<Vec2D>) -> Seq<Vec2D>
    decreases 3 - s.len(),
{
    if s.len() == 0 || s.len() >= 3 {
        s
    } else {
        pad3(seq![s[0]] + s)
    }
}

/// Segments of a server body, tail first and padded to three.
pub open spec fn body_of(b: Battlesnake) -> Seq<Vec2D> {
    pad3(b.body@.reverse())
}

/// Smallest Manhattan distance from `p` to the first `n` entries of `s`
/// (0 when `n` is 0).
pub open spec fn min_dist(s: Seq<Vec2D>, p: Vec2D, n: int) -> nat
    decreases n,
{
    if n <= 0 {
        0
    } else if n == 1 {
        s[0].dist(p)
    } else {
        let m = min_dist(s, p, n - 1);
        if s[n - 1].dist(p) < m {
            s[n - 1].dist(p)
        } else {
            m
        }
    }
}

/// Distance of a body to `p`: its nearest segment, 0 for no segment.
pub open spec fn body_dist(s: Seq<Vec2D>, p: Vec2D) -> nat {
    min_dist(s, p, s.len() as int)
}

/// The bodies among the first `n` of the board that are not `you`.
pub open spec fn rivals_prefix(r: &GameRequest, n: int) -> Seq<Battlesnake>
    decreases n,
{
    if n <= 0 {
        Seq::empty()
    } else {
        let rest = rivals_prefix(r, n - 1);
        let s = r.board.snakes@[n - 1];
        if s.id@ != r.you.id@ {
            rest.push(s)
        } else {
            rest
        }
    }
}

pub open spec fn rivals(r: &GameRequest) -> Seq<Battlesnake> {
    rivals_prefix(r, r.board.snakes@.len() as int)
}

/// `s` is the body of one of `rivals`.
pub open spec fn is_rival_body(rivals: Seq<Battlesnake>, s: Snake) -> bool {
    exists|m: int|
        #![trigger rivals[m]]
        0 <= m < rivals.len() && s.body@ == body_of(rivals[m]) && s.health == rivals[m].health
}

/// The bodies after the first come from distinct rivals: `picks[j]` is the
/// rival that body `j + 1` was built from.
pub open spec fn distinct_rivals(rivals: Seq<Battlesnake>, snakes: Seq<Snake>) -> bool {
    exists|picks: Seq<int>|
        #![trigger picks.len()]
        picks.len() + 1 == snakes.len() && (forall|j: int|
            0 <= j < picks.len() ==> 0 <= #[trigger] picks[j] < rivals.len() && snakes[j + 1].body@ == body_of(
                rivals[picks[j]],
            ) && snakes[j + 1].health == rivals[picks[j]].health) && (forall|j1: int, j2: int|
            0 <= j1 < j2 < picks.len() ==> #[trigger] picks[j1] != #[trigger] picks[j2])
}

/// The snapshot describes a board that a game can hold.
pub open spec fn valid_request(r: &GameRequest) -> bool {
    let w = r.board.width as int;
    let h = r.board.height as int;
    &&& r.board.width <= MAX_DIM
    &&& r.board.height <= MAX_DIM
    &&& r.board.snakes@.len() < MAX_SNAKES
    &&& forall|i: int| 0 <= i < r.board.food@.len() ==> (#[trigger] r.board.food@[i]).within_spec(w, h)
    &&& forall|i: int| 0 <= i < r.board.hazards@.len() ==> (#[trigger] r.board.hazards@[i]).within_spec(w, h)
    &&& valid_body(r.you, w, h)
    &&& forall|i: int| 0 <= i < r.board.snakes@.len() ==> valid_body(#[trigger] r.board.snakes@[i], w, h)
}

/// A body with at least one segment, every segment on the board.
pub open spec fn valid_body(b: Battlesnake, w: int, h: int) -> bool {
    &&& b.body@.len() >= 1
    &&& forall|k: int| 0 <= k < b.body@.len() ==> (#[trigger] b.body@[k]).within_spec(w, h)
}

proof fn lemma_pad3(s: Seq<Vec2D>, w: int, h: int)
    requires
        forall|k: int| 0 <= k < s.len() ==> (#[trigger] s[k]).within_spec(w, h),
    ensures
        forall|k: int| 0 <= k < pad3(s).len() ==> (#[trigger] pad3(s)[k]).within_spec(w, h),
        s.len() >= 1 ==> pad3(s).len() >= 3,
        pad3(s).len() >= s.len(),
        s.len() >= 1 ==> pad3(s).last() == s.last(),
    decreases 3 - s.len(),
{
    if s.len() != 0 && s.len() < 3 {
        let t = seq![s[0]] + s;
        assert forall|k: int| 0 <= k < t.len() implies (#[trigger] t[k]).within_spec(w, h) by {
            if k > 0 {
                assert(t[k] == s[k - 1]);
            }
        }
        lemma_pad3(t, w, h);
    }
}

impl Snake {
    /// The body of a server snapshot: segments reversed to run from tail to
    /// head, padded to three by repeating the tail.
    pub fn from(snake: &Battlesnake) -> (r: Snake)
        ensures
            r.body@ == body_of(*snake),
            r.health == snake.health,
    {
        let mut body: VecDeque<Vec2D> = VecDeque::new();
        let mut i: usize = 0;
        while i < snake.body.len()
            invariant
                i <= snake.body@.len(),
                body@ == snake.body@.subrange(0, i as int).reverse(),
            decreases snake.body@.len() - i,
        {
            body.push_front(snake.body[i]);
            proof {
                assert(body@ =~= snake.body@.subrange(0, i + 1).reverse());
            }
            i = i + 1;
        }
        proof {
            assert(snake.body@.subrange(0, snake.body@.len() as int) =~= snake.body@);
        }
        while body.len() > 0 && body.len() < 3
            invariant
                pad3(body@) == body_of(*snake),
            decreases 3 - body@.len(),
        {
            let t = body[0];
            body.push_front(t);
        }
        Snake::new(body, snake.health)
    }
}

/// Distance of a body to `p`: its nearest segment, 0 for no segment.
fn nearest_segment(body: &VecDeque<Vec2D>, p: Vec2D) -> (r: u32)
    ensures
        r == body_dist(body@, p),
{
    if body.len() == 0 {
        return 0;
    }
    let mut best: u32 = body[0].manhattan(p);
    let mut i: usize = 1;
    while i < body.len()
        invariant
            1 <= i <= body@.len(),
            best == min_dist(body@, p, i as int),
        decreases body@.len() - i,
    {
        let d = body[i].manhattan(p);
        if d < best {
            best = d;
        }
        i = i + 1;
    }
    best
}

proof fn lemma_rev_valid(b: Battlesnake, w: int, h: int)
    requires
        valid_body(b, w, h),
    ensures
        forall|k: int| 0 <= k < b.body@.reverse().len() ==> (#[trigger] b.body@.reverse()[k]).within_spec(w, h),
        b.body@.reverse().len() >= 1,
{
    assert forall|k: int| 0 <= k < b.body@.reverse().len() implies (#[trigger] b.body@.reverse()[k]).within_spec(w, h) by {
        assert(b.body@.reverse()[k] == b.body@[b.body@.len() - 1 - k]);
    }
}

proof fn lemma_rivals_valid(r: &GameRequest, n: int)
    requires
        valid_request(r),
        0 <= n <= r.board.snakes@.len(),
    ensures
        forall|k: int| 0 <= k < rivals_prefix(r, n).len() ==> valid_body(
            #[trigger] rivals_prefix(r, n)[k],
            r.board.width as int,
            r.board.height as int,
        ),
        rivals_prefix(r, n).len() <= n,
    decreases n,
{
    if n > 0 {
        lemma_rivals_valid(r, n - 1);
        let rest = rivals_prefix(r, n - 1);
        let s = r.board.snakes@[n - 1];
        assert(valid_body(s, r.board.width as int, r.board.height as int));
        if s.id@ != r.you.id@ {
            assert forall|k: int| 0 <= k < rest.push(s).len() implies valid_body(
                #[trigger] rest.push(s)[k],
                r.board.width as int,
                r.board.height as int,
            ) by {
                if k < rest.len() {
                    assert(rest.push(s)[k] == rest[k]);
                }
            }
        }
    }
}

proof fn lemma_rivals_len(r: &GameRequest, n: int)
    requires
        0 <= n <= r.board.snakes@.len(),
    ensures
        rivals_prefix(r, n).len() <= n,
    decreases n,
{
    if n > 0 {
        lemma_rivals_len(r, n - 1);
    }
}

impl Snake {
    /// A copy of the body and health.
    pub fn clone_snake(&self) -> (r: Snake)
        ensures
            r.body@ == self.body@,
            r.health == self.health,
    {
        let mut b: VecDeque<Vec2D> = VecDeque::new();
        let mut i: usize = 0;
        while i < self.body.len()
            invariant
                i <= self.body@.len(),
                b@ == self.body@.subrange(0, i as int),
            decreases self.body@.len() - i,
        {
            b.push_back(self.body[i]);
            proof {
                assert(b@ =~= self.body@.subrange(0, i + 1));
            }
            i = i + 1;
        }
        proof {
            assert(self.body@.subrange(0, self.body@.len() as int) =~= self.body@);
        }
        Snake::new(b, self.health)
    }
}

/// The rivals of a snapshot as bodies, in the snapshot's order.
fn collect_rivals(request: &GameRequest) -> (r: Vec<Snake>)
    ensures
        r@.len() == rivals(request).len(),
        forall|k: int| 0 <= k < r@.len() ==> (#[trigger] r@[k]).body@ == body_of(rivals(request)[k])
            && r@[k].health == rivals(request)[k].health,
{
    let mut out: Vec<Snake> = Vec::new();
    let mut i: usize = 0;
    while i < request.board.snakes.len()
        invariant
            i <= request.board.snakes@.len(),
            out@.len() == rivals_prefix(request, i as int).len(),
            forall|k: int| 0 <= k < out@.len() ==> (#[trigger] out@[k]).body@ == body_of(rivals_prefix(request, i as int)[k])
                && out@[k].health == rivals_prefix(request, i as int)[k].health,
        decreases request.board.snakes@.len() - i,
    {
        let s = &request.board.snakes[i];
        let same = s.id == request.you.id;
        if !same {
            out.push(Snake::from(s));
        }
        proof {
            let rest = rivals_prefix(request, i as int);
            if !same {
                assert forall|k: int| 0 <= k < out@.len() implies (#[trigger] out@[k]).body@ == body_of(rivals_prefix(request, i + 1)[k])
                    && out@[k].health == rivals_prefix(request, i + 1)[k].health by {
                    if k < rest.len() {
                        assert(rest.push(*s)[k] == rest[k]);
                    }
                }
            }
        }
        i = i + 1;
    }
    out
}

proof fn lemma_count_all(s: Seq<bool>)
    requires
        count_true(s) < s.len(),
    ensures
        exists|i: int| 0 <= i < s.len() && !s[i],
    decreases s.len(),
{
    if s.last() {
        lemma_count_all(s.drop_last());
        let i = choose|i: int| 0 <= i < s.drop_last().len() && !s.drop_last()[i];
        assert(!s[i]);
    } else {
        assert(!s[s.len() - 1]);
    }
}

/// Appends to `snakes` the (at most) three rivals nearest to `head`: each
/// round takes the first untaken rival at the smallest distance.
fn select_nearest(snakes: &mut Vec<Snake>, rv: &Vec<Snake>, head: Vec2D, Ghost(spec_rivals): Ghost<Seq<Battlesnake>>)
    requires
        old(snakes)@.len() == 1,
        old(snakes)@[0].body@.len() >= 1,
        head == old(snakes)@[0].head_spec(),
        rv@.len() == spec_rivals.len(),
        rv@.len() < MAX_SNAKES,
        forall|k: int| 0 <= k < rv@.len() ==> (#[trigger] rv@[k]).body@ == body_of(spec_rivals[k])
            && rv@[k].health == spec_rivals[k].health,
    ensures
        final(snakes)@[0] == old(snakes)@[0],
        final(snakes)@.len() == 1 + if rv@.len() < KEPT_RIVALS {
            rv@.len()
        } else {
            KEPT_RIVALS as nat
        },
        forall|k: int| 1 <= k < final(snakes)@.len() ==> is_rival_body(spec_rivals, #[trigger] final(snakes)@[k]),
        distinct_rivals(spec_rivals, final(snakes)@),
        forall|k: int, m: int|
            #![trigger final(snakes)@[k], spec_rivals[m]]
            1 <= k < final(snakes)@.len() && 0 <= m < spec_rivals.len() && (forall|j: int|
                1 <= j < final(snakes)@.len() ==> (#[trigger] final(snakes)@[j]).body@ != body_of(spec_rivals[m]))
                ==> body_dist(final(snakes)@[k].body@, head) <= body_dist(body_of(spec_rivals[m]), head),
{
    let n = rv.len();
    let mut dists: Vec<u32> = Vec::new();
    let mut i: usize = 0;
    while i < n
        invariant
            n == rv@.len(),
            i <= n,
            dists@.len() == i,
            forall|k: int| 0 <= k < i ==> dists@[k] == body_dist(#[trigger] rv@[k].body@, head),
        decreases n - i,
    {
        dists.push(nearest_segment(&rv[i].body, head));
        i = i + 1;
    }
    let mut taken: Vec<bool> = vec![false; n];
    let ghost mut picks: Seq<int> = Seq::empty();
    proof {
        lemma_count_zero(taken@);
    }
    let mut round: usize = 0;
    while round < KEPT_RIVALS && round < n
        invariant
            n == rv@.len(),
            n == spec_rivals.len(),
            n < MAX_SNAKES,
            dists@.len() == n,
            taken@.len() == n,
            forall|k: int| 0 <= k < n ==> dists@[k] == body_dist(#[trigger] rv@[k].body@, head),
            forall|k: int| 0 <= k < rv@.len() ==> (#[trigger] rv@[k]).body@ == body_of(spec_rivals[k])
                && rv@[k].health == spec_rivals[k].health,
            round <= KEPT_RIVALS,
            round <= n,
            count_true(taken@) == round,
            picks.len() == round,
            snakes@.len() == 1 + round,
            snakes@[0] == old(snakes)@[0],
            forall|j: int| 0 <= j < round ==> 0 <= #[trigger] picks[j] < n && taken@[picks[j]],
            forall|j1: int, j2: int| 0 <= j1 < j2 < round ==> #[trigger] picks[j1] != #[trigger] picks[j2],
            forall|j: int| 0 <= j < round ==> (#[trigger] snakes@[j + 1]).body@ == rv@[picks[j]].body@
                && snakes@[j + 1].health == rv@[picks[j]].health,
            forall|m: int| 0 <= m < n && taken@[m] ==> exists|j: int| 0 <= j < round && #[trigger] picks[j] == m,
            forall|j: int, m: int| 0 <= j < round && 0 <= m < n && !taken@[m] ==> dists@[#[trigger] picks[j]] <= #[trigger] dists@[m],
        decreases n - round,
    {
        proof {
            lemma_count_all(taken@);
        }
        let mut best: usize = n;
        let mut k: usize = 0;
        while k < n
            invariant
                n == dists@.len(),
                n == taken@.len(),
                k <= n,
                best == n || (best < k && !taken@[best as int]),
                best == n ==> forall|m: int| 0 <= m < k ==> taken@[m],
                best < n ==> forall|m: int| 0 <= m < k && !taken@[m] ==> dists@[best as int] <= dists@[m],
            decreases n - k,
        {
            if !taken[k] && (best == n || dists[k] < dists[best]) {
                best = k;
            }
            k = k + 1;
        }
        assert(best < n);
        proof {
            lemma_count_true_set(taken@, best as int);
        }
        let ghost old_taken = taken@;
        taken.set(best, true);
        snakes.push(rv[best].clone_snake());
        let ghost old_picks = picks;
        proof {
            picks = picks.push(best as int);
            assert forall|j1: int, j2: int| 0 <= j1 < j2 < round + 1 implies #[trigger] picks[j1] != #[trigger] picks[j2] by {
                if j2 == round {
                    assert(picks[j1] == old_picks[j1]);
                    assert(old_taken[old_picks[j1]]);
                } else {
                    assert(picks[j1] == old_picks[j1]);
                    assert(picks[j2] == old_picks[j2]);
                }
            }
            assert forall|m: int| 0 <= m < n && taken@[m] implies exists|j: int| 0 <= j < round + 1 && #[trigger] picks[j] == m by {
                if m == best {
                    assert(picks[round as int] == m);
                } else {
                    assert(old_taken[m]);
                    let j = choose|j: int| 0 <= j < round && #[trigger] old_picks[j] == m;
                    assert(picks[j] == old_picks[j]);
                }
            }
        }
        round = round + 1;
    }
    proof {
        assert forall|j: int| 0 <= j < picks.len() implies 0 <= #[trigger] picks[j] < spec_rivals.len()
            && final(snakes)@[j + 1].body@ == body_of(spec_rivals[picks[j]]) && final(snakes)@[j + 1].health
            == spec_rivals[picks[j]].health by {
            assert(rv@[picks[j]].body@ == body_of(spec_rivals[picks[j]]));
        }
        assert(distinct_rivals(spec_rivals, final(snakes)@));
        assert forall|k: int| 1 <= k < final(snakes)@.len() implies is_rival_body(spec_rivals, #[trigger] final(snakes)@[k]) by {
            let p = picks[k - 1];
            assert(final(snakes)@[(k - 1) + 1].body@ == rv@[p].body@);
            assert(rv@[p].body@ == body_of(spec_rivals[p]));
            assert(0 <= p < spec_rivals.len() && final(snakes)@[k].body@ == body_of(spec_rivals[p])
                && final(snakes)@[k].health == spec_rivals[p].health);
        }
        assert forall|k: int, m: int|
            #![trigger final(snakes)@[k], spec_rivals[m]]
            1 <= k < final(snakes)@.len() && 0 <= m < spec_rivals.len() && (forall|j: int|
                1 <= j < final(snakes)@.len() ==> (#[trigger] final(snakes)@[j]).body@ != body_of(spec_rivals[m]))
                implies body_dist(final(snakes)@[k].body@, head) <= body_dist(body_of(spec_rivals[m]), head) by {
            let p = picks[k - 1];
            assert(final(snakes)@[(k - 1) + 1].body@ == rv@[p].body@);
            assert(rv@[m].body@ == body_of(spec_rivals[m]));
            if taken@[m] {
                let j = choose|j: int| 0 <= j < round && #[trigger] picks[j] == m;
                assert(final(snakes)@[j + 1].body@ == rv@[m].body@);
                assert(final(snakes)@[j + 1].body@ != body_of(spec_rivals[m]));
            } else {
                assert(dists@[p] <= dists@[m]);
                assert(dists@[p] == body_dist(rv@[p].body@, head));
                assert(dists@[m] == body_dist(rv@[m].body@, head));
            }
        }
    }
}

impl Game {
    /// The game a snapshot describes: `you` first (id 0), then the rivals in
    /// the snapshot's order; on a board of more than four bodies only the
    /// three rivals nearest to `you`'s head (by their nearest segment) are
    /// kept, the earlier one first among equally near ones.
    pub fn from_request(request: &GameRequest) -> (r: Game)
        requires
            valid_request(request),
        ensures
            r.wf(),
            r.turn == request.turn,
            r.grid.width == request.board.width,
            r.grid.height == request.board.height,
            r.snakes@.len() >= 1,
            r.snakes@[0].body@ == body_of(request.you),
            r.snakes@[0].health == request.you.health,
            forall|p: Vec2D|
                r.grid.has_spec(p) ==> #[trigger] r.grid.cell_at(p) == (Cell {
                    t: Game::initial_tag(r.snakes@, request.board.food@, p),
                    hazard: request.board.hazards@.contains(p),
                }),
            request.board.snakes@.len() <= CROWDED ==> {
                &&& r.snakes@.len() == 1 + rivals(request).len()
                &&& forall|k: int|
                    1 <= k < r.snakes@.len() ==> (#[trigger] r.snakes@[k]).body@ == body_of(rivals(request)[k - 1])
                        && r.snakes@[k].health == rivals(request)[k - 1].health
            },
            request.board.snakes@.len() > CROWDED ==> {
                &&& r.snakes@.len() == 1 + if rivals(request).len() < KEPT_RIVALS {
                    rivals(request).len()
                } else {
                    KEPT_RIVALS as nat
                }
                &&& forall|k: int| 1 <= k < r.snakes@.len() ==> is_rival_body(rivals(request), #[trigger] r.snakes@[k])
                &&& distinct_rivals(rivals(request), r.snakes@)
                &&& forall|k: int, m: int|
                    #![trigger r.snakes@[k], rivals(request)[m]]
                    1 <= k < r.snakes@.len() && 0 <= m < rivals(request).len() && (forall|j: int|
                        1 <= j < r.snakes@.len() ==> (#[trigger] r.snakes@[j]).body@ != body_of(
                            rivals(request)[m],
                        )) ==> body_dist(r.snakes@[k].body@, r.snakes@[0].head_spec())
                        <= body_dist(body_of(rivals(request)[m]), r.snakes@[0].head_spec())
            },
    {
        let w = request.board.width;
        let h = request.board.height;
        let me = Snake::from(&request.you);
        proof {
            lemma_rev_valid(request.you, w as int, h as int);
            lemma_pad3(request.you.body@.reverse(), w as int, h as int);
        }
        let mut snakes: Vec<Snake> = Vec::new();
        snakes.push(me);
        let rivals_v = collect_rivals(request);
        proof {
            lemma_rivals_valid(request, request.board.snakes@.len() as int);
        }
        if request.board.snakes.len() > CROWDED {
            let head = snakes[0].head();
            select_nearest(&mut snakes, &rivals_v, head, Ghost(rivals(request)));
        } else {
            let mut i: usize = 0;
            while i < rivals_v.len()
                invariant
                    i <= rivals_v@.len(),
                    rivals_v@.len() == rivals(request).len(),
                    forall|k: int| 0 <= k < rivals_v@.len() ==> (#[trigger] rivals_v@[k]).body@ == body_of(rivals(request)[k])
                        && rivals_v@[k].health == rivals(request)[k].health,
                    snakes@.len() == 1 + i,
                    snakes@[0].body@ == body_of(request.you),
                    snakes@[0].health == request.you.health,
                    forall|k: int|
                        1 <= k < snakes@.len() ==> (#[trigger] snakes@[k]).body@ == body_of(rivals(request)[k - 1])
                            && snakes@[k].health == rivals(request)[k - 1].health,
                decreases rivals_v@.len() - i,
            {
                snakes.push(rivals_v[i].clone_snake());
                i = i + 1;
            }
            proof {
                assert forall|k: int| 1 <= k < snakes@.len() implies is_rival_body(rivals(request), #[trigger] snakes@[k]) by {
                    assert(snakes@[k].body@ == body_of(rivals(request)[k - 1]));
                }
            }
        }
        proof {
            lemma_rivals_len(request, request.board.snakes@.len() as int);
            assert forall|i: int, k: int|
                0 <= i < snakes@.len() && 0 <= k < snakes@[i].body@.len()
                    implies (#[trigger] snakes@[i].body@[k]).within_spec(w as int, h as int) by {
                if i > 0 {
                    assert(is_rival_body(rivals(request), snakes@[i]));
                    let m = choose|m: int|
                        #![trigger rivals(request)[m]]
                        0 <= m < rivals(request).len() && snakes@[i].body@ == body_of(
                            rivals(request)[m],
                        ) && snakes@[i].health == rivals(request)[m].health;
                    lemma_rev_valid(rivals(request)[m], w as int, h as int);
                    lemma_pad3(rivals(request)[m].body@.reverse(), w as int, h as int);
                }
            }
            assert forall|i: int| 0 <= i < snakes@.len() && (#[trigger] snakes@[i]).alive_spec()
                implies snakes@[i].body@.len() >= 2 by {
                if i > 0 {
                    assert(is_rival_body(rivals(request), snakes@[i]));
                    let m = choose|m: int|
                        #![trigger rivals(request)[m]]
                        0 <= m < rivals(request).len() && snakes@[i].body@ == body_of(
                            rivals(request)[m],
                        ) && snakes@[i].health == rivals(request)[m].health;
                    lemma_rev_valid(rivals(request)[m], w as int, h as int);
                    lemma_pad3(rivals(request)[m].body@.reverse(), w as int, h as int);
                }
            }
        }
        Game::new(request.turn, w, h, snakes, request.board.food.as_slice(), request.board.hazards.as_slice())
    }
}

} // verus!
