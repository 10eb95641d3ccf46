use std::collections::VecDeque;

use vstd::prelude::*;

use crate::env::{Direction, Vec2D, HAZARD_DAMAGE, MAX_HEALTH};
use crate::grid::{Cell, CellT, Grid, MAX_DIM};

verus! {

/// The outcome of a simulated game: `Running` while it goes on.
#[derive(Clone, Copy, PartialEq, Eq, Structural, Debug)]
pub enum Outcome {
    Running,
    Match,
    Winner(u8),
}

/// A body: its segments from tail to head, and its health.
#[derive(Clone, Debug)]
pub struct Snake {
    pub body: VecDeque<Vec2D>,
    pub health: u8,
}

impl Snake {
    pub open spec fn alive_spec(&self) -> bool {
        self.health > 0
    }

    pub open spec fn head_spec(&self) -> Vec2D {
        self.body@.last()
    }

    /// The body is alive and its tail leaves `p` on the next step (a tail
    /// doubled by eating stays).
    pub open spec fn vacates(&self, p: Vec2D) -> bool {
        &&& self.alive_spec()
        &&& self.body@.len() >= 2
        &&& self.body@[0] == p
        &&& self.body@[1] != p
    }

    pub fn new(body: VecDeque<Vec2D>, health: u8) -> (r: Snake)
        ensures
            r.body@ == body@,
            r.health == health,
    {
        Snake { body, health }
    }

    pub fn alive(&self) -> (r: bool)
        ensures
            r == self.alive_spec(),
    {
        self.health > 0
    }

    /// The head segment, the back of the body.
    pub fn head(&self) -> (r: Vec2D)
        requires
            self.body@.len() > 0,
        ensures
            r == self.head_spec(),
    {
        self.body[self.body.len() - 1]
    }
}

/// The complete state of a game; a body's id is its index in `snakes`.
#[derive(Clone, Debug)]
pub struct Game {
    pub turn: usize,
    pub grid: Grid,
    /// All bodies; dead ones have health 0 and, after a step, no segments.
    pub snakes: Vec<Snake>,
}

/// The list of legal moves of one body, in the fixed direction order.
#[derive(Clone, Debug)]
pub struct ValidMoves {
    pub dirs: Vec<Direction>,
}

/// Maximum number of bodies a game holds (ids are `u8`).
pub const MAX_SNAKES: usize = 255;

impl Game {
    /// Segment `k` of body `i`.
    pub open spec fn seg(&self, i: int, k: int) -> Vec2D {
        self.snakes@[i].body@[k]
    }

    pub open spec fn wf(&self) -> bool {
        &&& self.grid.wf()
        &&& self.snakes@.len() <= MAX_SNAKES
        &&& forall|i: int, k: int|
            0 <= i < self.snakes@.len() && 0 <= k < self.snakes@[i].body@.len()
                ==> self.grid.has_spec(#[trigger] self.seg(i, k))
        &&& forall|i: int|
            0 <= i < self.snakes@.len() && (#[trigger] self.snakes@[i]).alive_spec()
                ==> self.snakes@[i].body@.len() >= 2
    }

    pub open spec fn alive_id(&self, id: int) -> bool {
        0 <= id < self.snakes@.len() && self.snakes@[id].alive_spec()
    }

    /// `p` is the tail of a living body that leaves it on the next step.
    pub open spec fn vacating(&self, p: Vec2D) -> bool {
        exists|i: int| 0 <= i < self.snakes@.len() && #[trigger] self.snakes@[i].vacates(p)
    }

    /// A head may move onto `p`: on the board, and not owned unless it is a
    /// tail that is vacated on the next step.
    pub open spec fn passable(&self, p: Vec2D) -> bool {
        &&& self.grid.has_spec(p)
        &&& (self.grid.cell_at(p).t != CellT::Owned || self.vacating(p))
    }

    /// Moving body `id` in direction `d` does not kill it at once.
    pub open spec fn legal(&self, id: int, d: Direction) -> bool {
        self.alive_id(id) && self.passable(self.snakes@[id].head_spec().shifted(d))
    }

    /// The legal moves of `id` among the first `n` directions, in order.
    pub open spec fn legal_prefix(&self, id: int, n: nat) -> Seq<Direction>
        decreases n,
    {
        if n == 0 {
            Seq::empty()
        } else {
            let rest = self.legal_prefix(id, (n - 1) as nat);
            let d = Direction::nth(n - 1);
            if self.legal(id, d) {
                rest.push(d)
            } else {
                rest
            }
        }
    }

    /// The legal moves of `id`, in the fixed direction order.
    pub open spec fn legal_moves(&self, id: int) -> Seq<Direction> {
        self.legal_prefix(id, 4)
    }

    /// Number of living bodies among the first `n`.
    pub open spec fn living_prefix(&self, n: int) -> nat
        decreases n,
    {
        if n <= 0 {
            0
        } else {
            self.living_prefix(n - 1) + if self.snakes@[n - 1].alive_spec() {
                1nat
            } else {
                0nat
            }
        }
    }

    pub open spec fn living(&self) -> nat {
        self.living_prefix(self.snakes@.len() as int)
    }

    /// The outcome of the current state.
    pub open spec fn outcome_spec(&self) -> Outcome {
        if self.living() == 0 {
            Outcome::Match
        } else if self.living() == 1 {
            Outcome::Winner(
                (choose|i: int| 0 <= i < self.snakes@.len() && self.snakes@[i].alive_spec()) as u8,
            )
        } else {
            Outcome::Running
        }
    }
}

proof fn lemma_living_single(g: &Game, n: int, i: int)
    requires
        0 <= i < n <= g.snakes@.len(),
        g.snakes@[i].alive_spec(),
    ensures
        g.living_prefix(n) >= 1,
        g.living_prefix(n) == 1 ==> forall|j: int|
            0 <= j < n && j != i ==> !(#[trigger] g.snakes@[j]).alive_spec(),
    decreases n,
{
    if n - 1 > i {
        lemma_living_single(g, n - 1, i);
    } else {
        lemma_living_zero(g, n - 1);
    }
}

proof fn lemma_living_zero(g: &Game, n: int)
    requires
        0 <= n <= g.snakes@.len(),
    ensures
        g.living_prefix(n) == 0 <==> forall|j: int|
            0 <= j < n ==> !(#[trigger] g.snakes@[j]).alive_spec(),
    decreases n,
{
    if n > 0 {
        lemma_living_zero(g, n - 1);
    }
}

impl Game {
    /// True iff body `snake` exists and is alive.
    pub fn snake_is_alive(&self, snake: u8) -> (r: bool)
        ensures
            r == self.alive_id(snake as int),
    {
        (snake as usize) < self.snakes.len() && self.snakes[snake as usize].alive()
    }

    /// Whether the game has ended, and how.
    pub fn outcome(&self) -> (r: Outcome)
        requires
            self.wf(),
        ensures
            r == self.outcome_spec(),
            r == Outcome::Match <==> forall|i: int|
                0 <= i < self.snakes@.len() ==> !(#[trigger] self.snakes@[i]).alive_spec(),
            forall|id: u8| r == Outcome::Winner(id) ==> self.alive_id(id as int) && forall|j: int|
                0 <= j < self.snakes@.len() && j != id ==> !(#[trigger] self.snakes@[j]).alive_spec(),
    {
        let mut living_snakes: usize = 0;
        let mut survivor: u8 = 0;
        let mut i: usize = 0;
        while i < self.snakes.len()
            invariant
                self.wf(),
                i <= self.snakes@.len(),
                living_snakes == self.living_prefix(i as int),
                living_snakes <= i,
                living_snakes > 0 ==> survivor < i && self.snakes@[survivor as int].alive_spec(),
            decreases self.snakes@.len() - i,
        {
            if self.snakes[i].alive() {
                living_snakes = living_snakes + 1;
                survivor = i as u8;
            }
            i = i + 1;
        }
        proof {
            lemma_living_zero(self, self.snakes@.len() as int);
            if living_snakes > 0 {
                lemma_living_single(self, self.snakes@.len() as int, survivor as int);
            }
        }
        if living_snakes == 0 {
            Outcome::Match
        } else if living_snakes == 1 {
            proof {
                let c = choose|i: int| 0 <= i < self.snakes@.len() && self.snakes@[i].alive_spec();
                if c != survivor {
                    assert(!self.snakes@[c].alive_spec());
                }
            }
            Outcome::Winner(survivor)
        } else {
            proof {
                assert(!(forall|j: int|
                    0 <= j < self.snakes@.len() ==> !(#[trigger] self.snakes@[j]).alive_spec()));
            }
            Outcome::Running
        }
    }

    /// Whether `p` is the vacating tail of some living body.
    pub(crate) fn is_vacating(&self, p: Vec2D) -> (r: bool)
        requires
            self.wf(),
        ensures
            r == self.vacating(p),
    {
        let mut i: usize = 0;
        while i < self.snakes.len()
            invariant
                self.wf(),
                i <= self.snakes@.len(),
                forall|j: int| 0 <= j < i ==> !(#[trigger] self.snakes@[j].vacates(p)),
            decreases self.snakes@.len() - i,
        {
            let s = &self.snakes[i];
            if s.alive() && s.body.len() >= 2 && s.body[0] == p && s.body[1] != p {
                assert(self.snakes@[i as int].vacates(p));
                return true;
            }
            i = i + 1;
        }
        false
    }

    /// Whether moving `snake` in direction `dir` keeps it alive this step,
    /// head-to-head collisions aside.
    fn snake_move_is_valid(&self, snake: &Snake, dir: Direction) -> (r: bool)
        requires
            self.wf(),
            snake.body@.len() >= 1,
            self.grid.has_spec(snake.head_spec()),
        ensures
            r == self.passable(snake.head_spec().shifted(dir)),
    {
        let p = snake.head().apply(dir);
        self.grid.has(p) && (self.grid.get(p).t != CellT::Owned || self.is_vacating(p))
    }

    /// Whether moving body `snake` in direction `dir` keeps it alive this
    /// step, head-to-head collisions aside.
    pub fn move_is_valid(&self, snake: u8, dir: Direction) -> (r: bool)
        requires
            self.wf(),
        ensures
            r == self.legal(snake as int, dir),
    {
        if self.snake_is_alive(snake) {
            let s = &self.snakes[snake as usize];
            proof {
                assert(self.grid.has_spec(self.seg(snake as int, s.body@.len() - 1)));
            }
            self.snake_move_is_valid(s, dir)
        } else {
            false
        }
    }

    /// The legal moves of body `snake` in the fixed direction order; none
    /// for a dead or unknown body.
    pub fn valid_moves(&self, snake: u8) -> (r: ValidMoves)
        requires
            self.wf(),
        ensures
            r.dirs@ == self.legal_moves(snake as int),
    {
        if self.snake_is_alive(snake) {
            ValidMoves::new(self, snake)
        } else {
            proof {
                self.lemma_dead_no_moves(snake as int, 4);
            }
            ValidMoves::empty()
        }
    }

    proof fn lemma_dead_no_moves(&self, id: int, n: nat)
        requires
            !self.alive_id(id),
        ensures
            self.legal_prefix(id, n) == Seq::<Direction>::empty(),
        decreases n,
    {
        if n > 0 {
            self.lemma_dead_no_moves(id, (n - 1) as nat);
        }
    }
}

impl ValidMoves {
    /// No legal move.
    pub fn empty() -> (r: ValidMoves)
        ensures
            r.dirs@.len() == 0,
    {
        ValidMoves { dirs: Vec::new() }
    }

    /// The legal moves of the living body `id`.
    pub fn new(game: &Game, id: u8) -> (r: ValidMoves)
        requires
            game.wf(),
            game.alive_id(id as int),
        ensures
            r.dirs@ == game.legal_moves(id as int),
    {
        let snake = &game.snakes[id as usize];
        proof {
            assert(game.grid.has_spec(game.seg(id as int, snake.body@.len() - 1)));
        }
        let mut dirs: Vec<Direction> = Vec::new();
        let mut k: u8 = 0;
        while k < 4
            invariant
                game.wf(),
                game.alive_id(id as int),
                *snake == game.snakes@[id as int],
                snake.body@.len() >= 1,
                game.grid.has_spec(snake.head_spec()),
                k <= 4,
                dirs@ == game.legal_prefix(id as int, k as nat),
            decreases 4 - k,
        {
            let d = Direction::from_index(k);
            if game.snake_move_is_valid(snake, d) {
                dirs.push(d);
            }
            k = k + 1;
        }
        ValidMoves { dirs }
    }

    /// The moves, in order.
    pub fn to_vec(&self) -> (r: Vec<Direction>)
        ensures
            r@ == self.dirs@,
    {
        self.dirs.clone()
    }

    /// Number of moves.
    pub fn len(&self) -> (r: usize)
        ensures
            r == self.dirs@.len(),
    {
        self.dirs.len()
    }
}

/// Every move that `valid_moves` lists for a body leads its head onto the
/// board, onto a cell that is not owned or is a tail vacated on this step.
pub proof fn lemma_valid_moves_sound(g: &Game, id: int, d: Direction)
    requires
        g.wf(),
        g.legal_moves(id).contains(d),
    ensures
        g.alive_id(id),
        g.grid.has_spec(g.snakes@[id].head_spec().shifted(d)),
        g.grid.cell_at(g.snakes@[id].head_spec().shifted(d)).t != CellT::Owned || g.vacating(
            g.snakes@[id].head_spec().shifted(d),
        ),
{
    lemma_prefix_sound(g, id, d, 4);
}

proof fn lemma_prefix_sound(g: &Game, id: int, d: Direction, n: nat)
    requires
        g.legal_prefix(id, n).contains(d),
    ensures
        g.legal(id, d),
    decreases n,
{
    if n > 0 {
        let rest = g.legal_prefix(id, (n - 1) as nat);
        let e = Direction::nth(n - 1);
        if g.legal(id, e) && d == e {
        } else {
            if g.legal(id, e) {
                let k = choose|k: int| 0 <= k < rest.push(e).len() && rest.push(e)[k] == d;
                assert(rest[k] == d);
            }
            lemma_prefix_sound(g, id, d, (n - 1) as nat);
        }
    }
}


/// `a - b`, or 0 where that would be negative.
pub open spec fn sat_sub(a: u8, b: u8) -> u8 {
    if a > b {
        (a - b) as u8
    } else {
        0
    }
}

impl Game {
    /// Occupancy of `p` once every living body has retracted its tail.
    pub open spec fn tag_retracted(&self, p: Vec2D) -> CellT {
        if self.vacating(p) {
            CellT::Free
        } else {
            self.grid.cell_at(p).t
        }
    }

    /// Segments of body `i` once the tails have retracted.
    pub open spec fn retracted(&self, i: int) -> Seq<Vec2D> {
        let b = self.snakes@[i].body@;
        if self.snakes@[i].alive_spec() {
            b.subrange(1, b.len() as int)
        } else {
            b
        }
    }

    /// Segments and health of body `i` after its head moved in direction `d`.
    pub open spec fn moved(&self, i: int, d: Direction) -> (Seq<Vec2D>, u8) {
        let s = self.snakes@[i];
        let b = self.retracted(i);
        let h = s.head_spec().shifted(d);
        if !s.alive_spec() {
            (b, s.health)
        } else if !self.grid.has_spec(h) {
            (b, 0)
        } else if self.tag_retracted(h) == CellT::Owned {
            (b.push(h), 0)
        } else if self.tag_retracted(h) == CellT::Food {
            (seq![b[0]] + b.push(h), MAX_HEALTH)
        } else {
            (
                b.push(h),
                sat_sub(
                    s.health,
                    if self.grid.cell_at(h).hazard {
                        HAZARD_DAMAGE
                    } else {
                        1
                    },
                ),
            )
        }
    }

    /// Body `i` is alive after the move phase and meets, head on head,
    /// another living body that is at least as long.
    pub open spec fn loses_head_on(&self, moves: Seq<Direction>, i: int) -> bool {
        let a = self.moved(i, moves[i]);
        &&& a.1 > 0
        &&& exists|j: int|
            0 <= j < self.snakes@.len() && j != i && (#[trigger] self.moved(j, moves[j])).1 > 0
                && self.moved(j, moves[j]).0.last() == a.0.last() && self.moved(j, moves[j]).0.len()
                >= a.0.len()
    }

    /// Health of body `i` after a step with `moves`.
    pub open spec fn health_after(&self, moves: Seq<Direction>, i: int) -> u8 {
        if self.loses_head_on(moves, i) {
            0
        } else {
            self.moved(i, moves[i]).1
        }
    }

    /// Segments of body `i` after a step with `moves`: none for a dead body.
    pub open spec fn body_after(&self, moves: Seq<Direction>, i: int) -> Seq<Vec2D> {
        if self.health_after(moves, i) > 0 {
            self.moved(i, moves[i]).0
        } else {
            Seq::empty()
        }
    }

    /// `p` holds a segment of a body that survives a step with `moves`.
    pub open spec fn held_after(&self, moves: Seq<Direction>, p: Vec2D) -> bool {
        exists|i: int|
            0 <= i < self.snakes@.len() && #[trigger] self.health_after(moves, i) > 0
                && self.moved(i, moves[i]).0.contains(p)
    }

    /// `p` held a segment of a body that is dead after a step with `moves`.
    pub open spec fn cleared_after(&self, moves: Seq<Direction>, p: Vec2D) -> bool {
        exists|i: int|
            0 <= i < self.snakes@.len() && #[trigger] self.health_after(moves, i) == 0
                && self.moved(i, moves[i]).0.contains(p)
    }

    /// Occupancy of `p` after a step with `moves`.
    pub open spec fn tag_after(&self, moves: Seq<Direction>, p: Vec2D) -> CellT {
        if self.held_after(moves, p) {
            CellT::Owned
        } else if self.cleared_after(moves, p) {
            CellT::Free
        } else {
            self.tag_retracted(p)
        }
    }
}

impl Game {
    /// Applies one turn: every living body `i` moves in `moves[i]` (entries
    /// of dead bodies are ignored). Tails retract, heads advance (leaving
    /// the board or entering an owned cell kills, food grows the body and
    /// restores health, otherwise health drops by one or by the hazard
    /// damage), head-on meetings kill the shorter body (both if equally
    /// long), dead bodies are cleared from the board and every segment of a
    /// surviving body is marked owned; the turn counter advances.
    pub fn step(&mut self, moves: &[Direction])
        requires
            old(self).wf(),
            moves@.len() >= old(self).snakes@.len(),
            old(self).turn < usize::MAX,
        ensures
            final(self).wf(),
            final(self).turn == old(self).turn + 1,
            final(self).grid.width == old(self).grid.width,
            final(self).grid.height == old(self).grid.height,
            final(self).snakes@.len() == old(self).snakes@.len(),
            forall|i: int|
                0 <= i < final(self).snakes@.len() ==> (#[trigger] final(self).snakes@[i]).health
                    == old(self).health_after(moves@, i) && final(self).snakes@[i].body@
                    == old(self).body_after(moves@, i),
            old(self).owned_exact() ==> final(self).owned_exact(),
            forall|p: Vec2D|
                final(self).grid.has_spec(p) ==> #[trigger] final(self).grid.cell_at(p) == (Cell {
                    t: old(self).tag_after(moves@, p),
                    hazard: old(self).grid.cell_at(p).hazard,
                }),
    {
        let ghost g0 = *self;
        self.retract_tails();
        self.advance_heads(moves, Ghost(g0));
        self.resolve_head_on(Ghost(g0), Ghost(moves@));
        self.clear_dead(Ghost(g0), Ghost(moves@));
        self.mark_survivors(Ghost(g0), Ghost(moves@));
        self.turn = self.turn + 1;
        proof {
            if g0.owned_exact() {
                assert forall|p: Vec2D| #![trigger self.grid.cell_at(p)] self.grid.has_spec(p) implies (self.grid.cell_at(p).t
                    == CellT::Owned <==> exists|i: int|
                    0 <= i < self.snakes@.len() && (#[trigger] self.snakes@[i]).alive_spec()
                        && self.snakes@[i].body@.contains(p)) by {
                    lemma_step_conserves(&g0, moves@, p);
                    if exists|i: int|
                        0 <= i < g0.snakes@.len() && #[trigger] g0.health_after(moves@, i) > 0 && g0.body_after(moves@, i).contains(p) {
                        let i = choose|i: int|
                            0 <= i < g0.snakes@.len() && #[trigger] g0.health_after(moves@, i) > 0 && g0.body_after(moves@, i).contains(p);
                        assert(self.snakes@[i].alive_spec());
                    }
                    if exists|i: int|
                        0 <= i < self.snakes@.len() && (#[trigger] self.snakes@[i]).alive_spec()
                            && self.snakes@[i].body@.contains(p) {
                        let i = choose|i: int|
                            0 <= i < self.snakes@.len() && (#[trigger] self.snakes@[i]).alive_spec()
                                && self.snakes@[i].body@.contains(p);
                        assert(g0.health_after(moves@, i) > 0);
                    }
                }
            }
        }
        proof {
            assert forall|i: int, k: int|
                0 <= i < self.snakes@.len() && 0 <= k < self.snakes@[i].body@.len()
                    implies self.grid.has_spec(#[trigger] self.seg(i, k)) by {
                lemma_moved_shape(&g0, moves@, i);
                assert(g0.grid.has_spec(g0.moved(i, moves@[i]).0[k]));
            }
            assert forall|i: int|
                0 <= i < self.snakes@.len() && (#[trigger] self.snakes@[i]).alive_spec()
                    implies self.snakes@[i].body@.len() >= 2 by {
                lemma_moved_shape(&g0, moves@, i);
            }
        }
    }

    fn retract_tails(&mut self)
        requires
            old(self).wf(),
        ensures
            final(self).grid.wf(),
            final(self).turn == old(self).turn,
            final(self).grid.width == old(self).grid.width,
            final(self).grid.height == old(self).grid.height,
            final(self).snakes@.len() == old(self).snakes@.len(),
            forall|i: int|
                0 <= i < final(self).snakes@.len() ==> (#[trigger] final(self).snakes@[i]).health
                    == old(self).snakes@[i].health && final(self).snakes@[i].body@
                    == old(self).retracted(i),
            forall|p: Vec2D|
                final(self).grid.has_spec(p) ==> #[trigger] final(self).grid.cell_at(p) == (Cell {
                    t: old(self).tag_retracted(p),
                    hazard: old(self).grid.cell_at(p).hazard,
                }),
    {
        let ghost g0 = *self;
        let mut i: usize = 0;
        while i < self.snakes.len()
            invariant
                g0.wf(),
                self.grid.wf(),
                self.turn == g0.turn,
                self.grid.width == g0.grid.width,
                self.grid.height == g0.grid.height,
                self.snakes@.len() == g0.snakes@.len(),
                i <= self.snakes@.len(),
                forall|k: int|
                    0 <= k < self.snakes@.len() ==> (#[trigger] self.snakes@[k]).health
                        == g0.snakes@[k].health && self.snakes@[k].body@ == if k < i {
                        g0.retracted(k)
                    } else {
                        g0.snakes@[k].body@
                    },
                forall|p: Vec2D|
                    self.grid.has_spec(p) ==> #[trigger] self.grid.cell_at(p) == (Cell {
                        t: if exists|k: int| 0 <= k < i && #[trigger] g0.snakes@[k].vacates(p) {
                            CellT::Free
                        } else {
                            g0.grid.cell_at(p).t
                        },
                        hazard: g0.grid.cell_at(p).hazard,
                    }),
            decreases self.snakes@.len() - i,
        {
            let ghost before = *self;
            if self.snakes[i].alive() {
                assert(g0.snakes@[i as int].alive_spec());
                assert(g0.grid.has_spec(g0.seg(i as int, 0)));
                let tail = self.snakes[i].body.pop_front().unwrap();
                let new_tail = self.snakes[i].body[0];
                if tail != new_tail {
                    self.grid.set_t(tail, CellT::Free);
                }
                proof {
                    assert forall|p: Vec2D| self.grid.has_spec(p) implies #[trigger] self.grid.cell_at(p) == (Cell {
                        t: if exists|k: int| 0 <= k < i + 1 && #[trigger] g0.snakes@[k].vacates(p) {
                            CellT::Free
                        } else {
                            g0.grid.cell_at(p).t
                        },
                        hazard: g0.grid.cell_at(p).hazard,
                    }) by {
                        if exists|k: int| 0 <= k < i && #[trigger] g0.snakes@[k].vacates(p) {
                        } else if g0.snakes@[i as int].vacates(p) {
                        } else {
                            if exists|k: int| 0 <= k < i + 1 && #[trigger] g0.snakes@[k].vacates(p) {
                                let k = choose|k: int| 0 <= k < i + 1 && #[trigger] g0.snakes@[k].vacates(p);
                                assert(k < i || k == i);
                            }
                        }
                    }
                }
            } else {
                proof {
                    assert forall|p: Vec2D| self.grid.has_spec(p) implies #[trigger] self.grid.cell_at(p) == (Cell {
                        t: if exists|k: int| 0 <= k < i + 1 && #[trigger] g0.snakes@[k].vacates(p) {
                            CellT::Free
                        } else {
                            g0.grid.cell_at(p).t
                        },
                        hazard: g0.grid.cell_at(p).hazard,
                    }) by {
                        if exists|k: int| 0 <= k < i + 1 && #[trigger] g0.snakes@[k].vacates(p) {
                            let k = choose|k: int| 0 <= k < i + 1 && #[trigger] g0.snakes@[k].vacates(p);
                            assert(k < i);
                        }
                    }
                }
            }
            i = i + 1;
        }
    }
}


proof fn lemma_moved_shape(g0: &Game, moves: Seq<Direction>, k: int)
    requires
        g0.wf(),
        0 <= k < g0.snakes@.len(),
    ensures
        forall|m: int|
            0 <= m < g0.moved(k, moves[k]).0.len() ==> g0.grid.has_spec(
                #[trigger] g0.moved(k, moves[k]).0[m],
            ),
        g0.moved(k, moves[k]).1 > 0 ==> g0.moved(k, moves[k]).0.len() >= 2,
{
    let b = g0.snakes@[k].body@;
    assert forall|m: int| 0 <= m < b.len() implies g0.grid.has_spec(#[trigger] b[m]) by {
        assert(g0.grid.has_spec(g0.seg(k, m)));
    }
}

impl Game {
    fn advance_heads(&mut self, moves: &[Direction], Ghost(g0): Ghost<Game>)
        requires
            g0.wf(),
            moves@.len() >= g0.snakes@.len(),
            old(self).grid.wf(),
            old(self).grid.width == g0.grid.width,
            old(self).grid.height == g0.grid.height,
            old(self).snakes@.len() == g0.snakes@.len(),
            forall|k: int|
                0 <= k < old(self).snakes@.len() ==> (#[trigger] old(self).snakes@[k]).health
                    == g0.snakes@[k].health && old(self).snakes@[k].body@ == g0.retracted(k),
            forall|p: Vec2D|
                old(self).grid.has_spec(p) ==> #[trigger] old(self).grid.cell_at(p) == (Cell {
                    t: g0.tag_retracted(p),
                    hazard: g0.grid.cell_at(p).hazard,
                }),
        ensures
            final(self).grid == old(self).grid,
            final(self).turn == old(self).turn,
            final(self).snakes@.len() == old(self).snakes@.len(),
            forall|k: int|
                0 <= k < final(self).snakes@.len() ==> (#[trigger] final(self).snakes@[k]).body@
                    == g0.moved(k, moves@[k]).0 && final(self).snakes@[k].health == g0.moved(
                    k,
                    moves@[k],
                ).1,
    {
        let ghost g1 = *self;
        let mut i: usize = 0;
        while i < self.snakes.len()
            invariant
                g0.wf(),
                moves@.len() >= g0.snakes@.len(),
                self.grid == g1.grid,
                self.turn == g1.turn,
                self.grid.wf(),
                self.grid.width == g0.grid.width,
                self.grid.height == g0.grid.height,
                self.snakes@.len() == g0.snakes@.len(),
                i <= self.snakes@.len(),
                forall|p: Vec2D|
                    self.grid.has_spec(p) ==> #[trigger] self.grid.cell_at(p) == (Cell {
                        t: g0.tag_retracted(p),
                        hazard: g0.grid.cell_at(p).hazard,
                    }),
                forall|k: int|
                    0 <= k < self.snakes@.len() ==> if k < i {
                        (#[trigger] self.snakes@[k]).body@ == g0.moved(k, moves@[k]).0
                            && self.snakes@[k].health == g0.moved(k, moves@[k]).1
                    } else {
                        self.snakes@[k].health == g0.snakes@[k].health && self.snakes@[k].body@
                            == g0.retracted(k)
                    },
            decreases self.snakes@.len() - i,
        {
            if self.snakes[i].alive() {
                let ghost b0 = g0.snakes@[i as int].body@;
                assert(g0.snakes@[i as int].alive_spec());
                assert(g0.grid.has_spec(g0.seg(i as int, b0.len() - 1)));
                assert(self.snakes@[i as int].head_spec() == g0.snakes@[i as int].head_spec());
                let dir = moves[i];
                let head = self.snakes[i].head().apply(dir);
                if !self.grid.has(head) {
                    self.snakes[i].health = 0;
                } else {
                    self.snakes[i].body.push_back(head);
                    let c = self.grid.get(head);
                    if c.t == CellT::Owned {
                        self.snakes[i].health = 0;
                    } else if c.t == CellT::Food {
                        let tail = self.snakes[i].body[0];
                        self.snakes[i].body.push_front(tail);
                        self.snakes[i].health = MAX_HEALTH;
                    } else {
                        let dmg: u8 = if c.hazard {
                            HAZARD_DAMAGE
                        } else {
                            1
                        };
                        let h = self.snakes[i].health;
                        self.snakes[i].health = h.saturating_sub(dmg);
                    }
                }
            }
            i = i + 1;
        }
    }

    fn resolve_head_on(&mut self, Ghost(g0): Ghost<Game>, Ghost(moves): Ghost<Seq<Direction>>)
        requires
            g0.wf(),
            moves.len() >= g0.snakes@.len(),
            old(self).snakes@.len() == g0.snakes@.len(),
            forall|k: int|
                0 <= k < old(self).snakes@.len() ==> (#[trigger] old(self).snakes@[k]).body@
                    == g0.moved(k, moves[k]).0 && old(self).snakes@[k].health == g0.moved(
                    k,
                    moves[k],
                ).1,
        ensures
            final(self).grid == old(self).grid,
            final(self).turn == old(self).turn,
            final(self).snakes@.len() == old(self).snakes@.len(),
            forall|k: int|
                0 <= k < final(self).snakes@.len() ==> (#[trigger] final(self).snakes@[k]).body@
                    == g0.moved(k, moves[k]).0 && final(self).snakes@[k].health
                    == g0.health_after(moves, k),
    {
        let ghost s0 = *self;
        let n = self.snakes.len();
        let mut dead: Vec<bool> = Vec::new();
        let mut i: usize = 0;
        while i < n
            invariant
                g0.wf(),
                self.grid == s0.grid,
                self.turn == s0.turn,
                moves.len() >= g0.snakes@.len(),
                n == self.snakes@.len(),
                self.snakes@.len() == g0.snakes@.len(),
                forall|k: int|
                    0 <= k < self.snakes@.len() ==> (#[trigger] self.snakes@[k]).body@ == g0.moved(
                        k,
                        moves[k],
                    ).0 && self.snakes@[k].health == g0.moved(k, moves[k]).1,
                i <= n,
                dead@.len() == i,
                forall|k: int| 0 <= k < i ==> dead@[k] == g0.loses_head_on(moves, k),
            decreases n - i,
        {
            let mut lose = false;
            if self.snakes[i].alive() {
                proof {
                    lemma_moved_shape(&g0, moves, i as int);
                }
                let hi = self.snakes[i].head();
                let li = self.snakes[i].body.len();
                let mut j: usize = 0;
                while j < n
                    invariant
                        g0.wf(),
                        self.grid == s0.grid,
                        self.turn == s0.turn,
                        moves.len() >= g0.snakes@.len(),
                        n == self.snakes@.len(),
                        self.snakes@.len() == g0.snakes@.len(),
                        forall|k: int|
                            0 <= k < self.snakes@.len() ==> (#[trigger] self.snakes@[k]).body@
                                == g0.moved(k, moves[k]).0 && self.snakes@[k].health == g0.moved(
                                k,
                                moves[k],
                            ).1,
                        i < n,
                        j <= n,
                        hi == g0.moved(i as int, moves[i as int]).0.last(),
                        li == g0.moved(i as int, moves[i as int]).0.len(),
                        lose == exists|m: int|
                            0 <= m < j && m != i && (#[trigger] g0.moved(m, moves[m])).1 > 0
                                && g0.moved(m, moves[m]).0.last() == hi && g0.moved(
                                m,
                                moves[m],
                            ).0.len() >= li,
                    decreases n - j,
                {
                    if j != i && self.snakes[j].alive() {
                        proof {
                            lemma_moved_shape(&g0, moves, j as int);
                        }
                        if self.snakes[j].head() == hi && self.snakes[j].body.len() >= li {
                            lose = true;
                        }
                    }
                    proof {
                        if lose {
                            if !(exists|m: int|
                                0 <= m < j && m != i && (#[trigger] g0.moved(m, moves[m])).1 > 0
                                    && g0.moved(m, moves[m]).0.last() == hi && g0.moved(
                                    m,
                                    moves[m],
                                ).0.len() >= li) {
                                assert(g0.moved(j as int, moves[j as int]).1 > 0);
                            }
                        } else {
                            assert(!(exists|m: int|
                                0 <= m < j + 1 && m != i && (#[trigger] g0.moved(m, moves[m])).1
                                    > 0 && g0.moved(m, moves[m]).0.last() == hi && g0.moved(
                                    m,
                                    moves[m],
                                ).0.len() >= li));
                        }
                    }
                    j = j + 1;
                }
            }
            dead.push(lose);
            i = i + 1;
        }
        let mut i: usize = 0;
        while i < n
            invariant
                g0.wf(),
                self.grid == s0.grid,
                self.turn == s0.turn,
                moves.len() >= g0.snakes@.len(),
                n == self.snakes@.len(),
                self.snakes@.len() == g0.snakes@.len(),
                dead@.len() == n,
                forall|k: int| 0 <= k < n ==> dead@[k] == g0.loses_head_on(moves, k),
                i <= n,
                forall|k: int|
                    0 <= k < self.snakes@.len() ==> (#[trigger] self.snakes@[k]).body@ == g0.moved(
                        k,
                        moves[k],
                    ).0 && self.snakes@[k].health == if k < i {
                        g0.health_after(moves, k)
                    } else {
                        g0.moved(k, moves[k]).1
                    },
            decreases n - i,
        {
            if dead[i] {
                self.snakes[i].health = 0;
            }
            i = i + 1;
        }
    }
}


impl Game {
    fn clear_dead(&mut self, Ghost(g0): Ghost<Game>, Ghost(moves): Ghost<Seq<Direction>>)
        requires
            g0.wf(),
            moves.len() >= g0.snakes@.len(),
            old(self).grid.wf(),
            old(self).grid.width == g0.grid.width,
            old(self).grid.height == g0.grid.height,
            old(self).snakes@.len() == g0.snakes@.len(),
            forall|k: int|
                0 <= k < old(self).snakes@.len() ==> (#[trigger] old(self).snakes@[k]).body@
                    == g0.moved(k, moves[k]).0 && old(self).snakes@[k].health
                    == g0.health_after(moves, k),
            forall|p: Vec2D|
                old(self).grid.has_spec(p) ==> #[trigger] old(self).grid.cell_at(p) == (Cell {
                    t: g0.tag_retracted(p),
                    hazard: g0.grid.cell_at(p).hazard,
                }),
        ensures
            final(self).grid.wf(),
            final(self).turn == old(self).turn,
            final(self).grid.width == g0.grid.width,
            final(self).grid.height == g0.grid.height,
            final(self).snakes@.len() == old(self).snakes@.len(),
            forall|k: int|
                0 <= k < final(self).snakes@.len() ==> (#[trigger] final(self).snakes@[k]).body@
                    == g0.body_after(moves, k) && final(self).snakes@[k].health
                    == g0.health_after(moves, k),
            forall|p: Vec2D|
                final(self).grid.has_spec(p) ==> #[trigger] final(self).grid.cell_at(p) == (Cell {
                    t: if g0.cleared_after(moves, p) {
                        CellT::Free
                    } else {
                        g0.tag_retracted(p)
                    },
                    hazard: g0.grid.cell_at(p).hazard,
                }),
    {
        let ghost s0 = *self;
        let mut i: usize = 0;
        while i < self.snakes.len()
            invariant
                g0.wf(),
                moves.len() >= g0.snakes@.len(),
                self.turn == s0.turn,
                self.grid.wf(),
                self.grid.width == g0.grid.width,
                self.grid.height == g0.grid.height,
                self.snakes@.len() == g0.snakes@.len(),
                i <= self.snakes@.len(),
                forall|k: int|
                    0 <= k < self.snakes@.len() ==> (#[trigger] self.snakes@[k]).health
                        == g0.health_after(moves, k) && self.snakes@[k].body@ == if k < i {
                        g0.body_after(moves, k)
                    } else {
                        g0.moved(k, moves[k]).0
                    },
                forall|p: Vec2D|
                    self.grid.has_spec(p) ==> #[trigger] self.grid.cell_at(p) == (Cell {
                        t: if exists|k: int|
                            0 <= k < i && #[trigger] g0.health_after(moves, k) == 0 && g0.moved(
                                k,
                                moves[k],
                            ).0.contains(p) {
                            CellT::Free
                        } else {
                            g0.tag_retracted(p)
                        },
                        hazard: g0.grid.cell_at(p).hazard,
                    }),
            decreases self.snakes@.len() - i,
        {
            let ghost gi = *self;
            if !self.snakes[i].alive() {
                proof {
                    lemma_moved_shape(&g0, moves, i as int);
                }
                let ghost body = self.snakes@[i as int].body@;
                let mut j: usize = 0;
                while j < self.snakes[i].body.len()
                    invariant
                        g0.wf(),
                        moves.len() >= g0.snakes@.len(),
                        self.turn == s0.turn,
                        self.grid.wf(),
                        self.grid.width == g0.grid.width,
                        self.grid.height == g0.grid.height,
                        self.snakes == gi.snakes,
                        i < self.snakes@.len(),
                        body == self.snakes@[i as int].body@,
                        body == g0.moved(i as int, moves[i as int]).0,
                        forall|m: int| 0 <= m < body.len() ==> g0.grid.has_spec(#[trigger] body[m]),
                        j <= body.len(),
                        forall|p: Vec2D|
                            self.grid.has_spec(p) ==> #[trigger] self.grid.cell_at(p) == (Cell {
                                t: if body.subrange(0, j as int).contains(p) {
                                    CellT::Free
                                } else {
                                    gi.grid.cell_at(p).t
                                },
                                hazard: g0.grid.cell_at(p).hazard,
                            }),
                    decreases body.len() - j,
                {
                    let p = self.snakes[i].body[j];
                    self.grid.set_t(p, CellT::Free);
                    proof {
                        assert forall|q: Vec2D| self.grid.has_spec(q) implies #[trigger] self.grid.cell_at(q)
                            == (Cell {
                            t: if body.subrange(0, j + 1).contains(q) {
                                CellT::Free
                            } else {
                                gi.grid.cell_at(q).t
                            },
                            hazard: g0.grid.cell_at(q).hazard,
                        }) by {
                            if q == p {
                                assert(body.subrange(0, j + 1)[j as int] == q);
                            } else if body.subrange(0, j + 1).contains(q) {
                                let k = choose|k: int|
                                    0 <= k < j + 1 && #[trigger] body.subrange(0, j + 1)[k] == q;
                                assert(body.subrange(0, j as int)[k] == q);
                            } else if body.subrange(0, j as int).contains(q) {
                                let k = choose|k: int|
                                    0 <= k < j && #[trigger] body.subrange(0, j as int)[k] == q;
                                assert(body.subrange(0, j + 1)[k] == q);
                            }
                        }
                    }
                    j = j + 1;
                }
                self.snakes[i].body.clear();
                proof {
                    assert(body.subrange(0, body.len() as int) =~= body);
                    assert(self.snakes@[i as int].body@ =~= g0.body_after(moves, i as int));
                }
            }
            proof {
                assert forall|p: Vec2D| self.grid.has_spec(p) implies #[trigger] self.grid.cell_at(p)
                    == (Cell {
                    t: if exists|k: int|
                        0 <= k < i + 1 && #[trigger] g0.health_after(moves, k) == 0 && g0.moved(
                            k,
                            moves[k],
                        ).0.contains(p) {
                        CellT::Free
                    } else {
                        g0.tag_retracted(p)
                    },
                    hazard: g0.grid.cell_at(p).hazard,
                }) by {
                    if exists|k: int|
                        0 <= k < i + 1 && #[trigger] g0.health_after(moves, k) == 0 && g0.moved(
                            k,
                            moves[k],
                        ).0.contains(p) {
                        let k = choose|k: int|
                            0 <= k < i + 1 && #[trigger] g0.health_after(moves, k) == 0 && g0.moved(
                                k,
                                moves[k],
                            ).0.contains(p);
                        if k < i {
                            assert(exists|k: int|
                                0 <= k < i && #[trigger] g0.health_after(moves, k) == 0
                                    && g0.moved(k, moves[k]).0.contains(p));
                        }
                    } else {
                        assert(!(exists|k: int|
                            0 <= k < i && #[trigger] g0.health_after(moves, k) == 0 && g0.moved(
                                k,
                                moves[k],
                            ).0.contains(p)));
                    }
                }
            }
            i = i + 1;
        }
    }

    fn mark_survivors(&mut self, Ghost(g0): Ghost<Game>, Ghost(moves): Ghost<Seq<Direction>>)
        requires
            g0.wf(),
            moves.len() >= g0.snakes@.len(),
            old(self).grid.wf(),
            old(self).grid.width == g0.grid.width,
            old(self).grid.height == g0.grid.height,
            old(self).snakes@.len() == g0.snakes@.len(),
            forall|k: int|
                0 <= k < old(self).snakes@.len() ==> (#[trigger] old(self).snakes@[k]).body@
                    == g0.body_after(moves, k) && old(self).snakes@[k].health
                    == g0.health_after(moves, k),
            forall|p: Vec2D|
                old(self).grid.has_spec(p) ==> #[trigger] old(self).grid.cell_at(p) == (Cell {
                    t: if g0.cleared_after(moves, p) {
                        CellT::Free
                    } else {
                        g0.tag_retracted(p)
                    },
                    hazard: g0.grid.cell_at(p).hazard,
                }),
        ensures
            final(self).grid.wf(),
            final(self).turn == old(self).turn,
            final(self).grid.width == g0.grid.width,
            final(self).grid.height == g0.grid.height,
            final(self).snakes == old(self).snakes,
            forall|p: Vec2D|
                final(self).grid.has_spec(p) ==> #[trigger] final(self).grid.cell_at(p) == (Cell {
                    t: g0.tag_after(moves, p),
                    hazard: g0.grid.cell_at(p).hazard,
                }),
    {
        let ghost s0 = *self;
        let mut i: usize = 0;
        while i < self.snakes.len()
            invariant
                g0.wf(),
                moves.len() >= g0.snakes@.len(),
                self.turn == s0.turn,
                self.snakes == s0.snakes,
                self.grid.wf(),
                self.grid.width == g0.grid.width,
                self.grid.height == g0.grid.height,
                self.snakes@.len() == g0.snakes@.len(),
                i <= self.snakes@.len(),
                forall|k: int|
                    0 <= k < self.snakes@.len() ==> (#[trigger] self.snakes@[k]).body@
                        == g0.body_after(moves, k) && self.snakes@[k].health
                        == g0.health_after(moves, k),
                forall|p: Vec2D|
                    self.grid.has_spec(p) ==> #[trigger] self.grid.cell_at(p) == (Cell {
                        t: if exists|k: int|
                            0 <= k < i && #[trigger] g0.health_after(moves, k) > 0 && g0.moved(
                                k,
                                moves[k],
                            ).0.contains(p) {
                            CellT::Owned
                        } else if g0.cleared_after(moves, p) {
                            CellT::Free
                        } else {
                            g0.tag_retracted(p)
                        },
                        hazard: g0.grid.cell_at(p).hazard,
                    }),
            decreases self.snakes@.len() - i,
        {
            let ghost gi = self.grid;
            let ghost body = self.snakes@[i as int].body@;
            if self.snakes[i].alive() {
                proof {
                    lemma_moved_shape(&g0, moves, i as int);
                }
                let mut j: usize = 0;
                while j < self.snakes[i].body.len()
                    invariant
                        g0.wf(),
                        self.turn == s0.turn,
                        self.snakes == s0.snakes,
                        self.grid.wf(),
                        self.grid.width == g0.grid.width,
                        self.grid.height == g0.grid.height,
                        i < self.snakes@.len(),
                        body == self.snakes@[i as int].body@,
                        forall|m: int| 0 <= m < body.len() ==> g0.grid.has_spec(#[trigger] body[m]),
                        j <= body.len(),
                        forall|p: Vec2D|
                            self.grid.has_spec(p) ==> #[trigger] self.grid.cell_at(p) == if body.subrange(0, j as int).contains(p) {
                                Cell { t: CellT::Owned, hazard: gi.cell_at(p).hazard }
                            } else {
                                gi.cell_at(p)
                            },
                    decreases body.len() - j,
                {
                    let p = self.snakes[i].body[j];
                    self.grid.set_t(p, CellT::Owned);
                    proof {
                        assert forall|q: Vec2D| self.grid.has_spec(q) implies #[trigger] self.grid.cell_at(q)
                            == if body.subrange(0, j + 1).contains(q) {
                            Cell { t: CellT::Owned, hazard: gi.cell_at(q).hazard }
                        } else {
                            gi.cell_at(q)
                        } by {
                            if q == p {
                                assert(body.subrange(0, j + 1)[j as int] == q);
                            } else if body.subrange(0, j + 1).contains(q) {
                                let k = choose|k: int|
                                    0 <= k < j + 1 && #[trigger] body.subrange(0, j + 1)[k] == q;
                                assert(body.subrange(0, j as int)[k] == q);
                            } else if body.subrange(0, j as int).contains(q) {
                                let k = choose|k: int|
                                    0 <= k < j && #[trigger] body.subrange(0, j as int)[k] == q;
                                assert(body.subrange(0, j + 1)[k] == q);
                            }
                        }
                    }
                    j = j + 1;
                }
                proof {
                    assert(body.subrange(0, body.len() as int) =~= body);
                }
            }
            proof {
                assert forall|p: Vec2D| self.grid.has_spec(p) implies #[trigger] self.grid.cell_at(p)
                    == (Cell {
                    t: if exists|k: int|
                        0 <= k < i + 1 && #[trigger] g0.health_after(moves, k) > 0 && g0.moved(
                            k,
                            moves[k],
                        ).0.contains(p) {
                        CellT::Owned
                    } else if g0.cleared_after(moves, p) {
                        CellT::Free
                    } else {
                        g0.tag_retracted(p)
                    },
                    hazard: g0.grid.cell_at(p).hazard,
                }) by {
                    if exists|k: int|
                        0 <= k < i + 1 && #[trigger] g0.health_after(moves, k) > 0 && g0.moved(
                            k,
                            moves[k],
                        ).0.contains(p) {
                        let k = choose|k: int|
                            0 <= k < i + 1 && #[trigger] g0.health_after(moves, k) > 0 && g0.moved(
                                k,
                                moves[k],
                            ).0.contains(p);
                        if k < i {
                            assert(exists|k: int|
                                0 <= k < i && #[trigger] g0.health_after(moves, k) > 0
                                    && g0.moved(k, moves[k]).0.contains(p));
                        }
                    } else {
                        assert(!(exists|k: int|
                            0 <= k < i && #[trigger] g0.health_after(moves, k) > 0 && g0.moved(
                                k,
                                moves[k],
                            ).0.contains(p)));
                    }
                }
            }
            i = i + 1;
        }
    }
}

/// Growth law: a living body whose head lands on a cell that holds food
/// (once tails have retracted) and that survives the head-on check is one
/// segment longer with full health; after any other surviving move onto the
/// board its health is one lower, or the hazard damage lower on a hazard,
/// floored at 0, and never higher than before.
pub proof fn lemma_growth(g: &Game, moves: Seq<Direction>, i: int)
    requires
        g.wf(),
        moves.len() >= g.snakes@.len(),
        g.alive_id(i),
    ensures
        ({
            let h = g.snakes@[i].head_spec().shifted(moves[i]);
            &&& g.grid.has_spec(h) && g.tag_retracted(h) == CellT::Food && !g.loses_head_on(moves, i)
                ==> g.body_after(moves, i).len() == g.snakes@[i].body@.len() + 1 && g.health_after(
                moves,
                i,
            ) == MAX_HEALTH
            &&& g.grid.has_spec(h) && g.tag_retracted(h) == CellT::Free && !g.loses_head_on(moves, i)
                ==> g.health_after(moves, i) == sat_sub(
                g.snakes@[i].health,
                if g.grid.cell_at(h).hazard {
                    HAZARD_DAMAGE
                } else {
                    1
                },
            )
            &&& g.tag_retracted(h) != CellT::Food ==> g.health_after(moves, i) <= g.snakes@[i].health
        }),
{
}

/// Head-on law: when two bodies are alive after the move phase and their
/// heads meet, the shorter one ends the step with health 0, and both do if
/// they are equally long.
pub proof fn lemma_head_on(g: &Game, moves: Seq<Direction>, i: int, j: int)
    requires
        g.wf(),
        moves.len() >= g.snakes@.len(),
        0 <= i < g.snakes@.len(),
        0 <= j < g.snakes@.len(),
        i != j,
        g.moved(i, moves[i]).1 > 0,
        g.moved(j, moves[j]).1 > 0,
        g.moved(i, moves[i]).0.last() == g.moved(j, moves[j]).0.last(),
    ensures
        g.moved(i, moves[i]).0.len() < g.moved(j, moves[j]).0.len() ==> g.health_after(moves, i)
            == 0,
        g.moved(i, moves[i]).0.len() == g.moved(j, moves[j]).0.len() ==> g.health_after(moves, i)
            == 0 && g.health_after(moves, j) == 0,
{
    if g.moved(i, moves[i]).0.len() <= g.moved(j, moves[j]).0.len() {
        assert(g.moved(j, moves[j]).1 > 0);
        assert(g.loses_head_on(moves, i));
    }
    if g.moved(i, moves[i]).0.len() == g.moved(j, moves[j]).0.len() {
        assert(g.moved(i, moves[i]).1 > 0);
        assert(g.loses_head_on(moves, j));
    }
}

/// Every cell that held a segment of a body that is dead after the step is
/// free after it, unless the head of a surviving body now stands there.
pub proof fn lemma_dead_cleared(g: &Game, moves: Seq<Direction>, i: int, p: Vec2D)
    requires
        g.wf(),
        moves.len() >= g.snakes@.len(),
        0 <= i < g.snakes@.len(),
        g.health_after(moves, i) == 0,
        g.snakes@[i].body@.contains(p),
        !g.held_after(moves, p),
    ensures
        g.tag_after(moves, p) == CellT::Free,
        g.body_after(moves, i).len() == 0,
{
    let b = g.snakes@[i].body@;
    let k = choose|k: int| 0 <= k < b.len() && b[k] == p;
    let m = g.moved(i, moves[i]).0;
    if g.snakes@[i].alive_spec() {
        if k == 0 {
            if b[1] != p {
                assert(g.snakes@[i].vacates(p));
                if !g.cleared_after(moves, p) {
                    assert(g.vacating(p));
                }
            } else {
                assert(g.retracted(i)[0] == p);
                if g.grid.has_spec(g.snakes@[i].head_spec().shifted(moves[i])) {
                    if g.tag_retracted(g.snakes@[i].head_spec().shifted(moves[i])) == CellT::Food {
                        assert(m[0] == p);
                    } else {
                        assert(m[0] == p);
                    }
                } else {
                    assert(m[0] == p);
                }
                assert(m.contains(p));
            }
        } else {
            assert(g.retracted(i)[k - 1] == p);
            if g.grid.has_spec(g.snakes@[i].head_spec().shifted(moves[i])) {
                if g.tag_retracted(g.snakes@[i].head_spec().shifted(moves[i])) == CellT::Food {
                    assert(m[k] == p);
                } else {
                    assert(m[k - 1] == p);
                }
            } else {
                assert(m[k - 1] == p);
            }
            assert(m.contains(p));
        }
    } else {
        assert(m[k] == p);
    }
}


impl Game {
    /// Occupancy that `Game::new` gives to `p`: owned by a listed body, else
    /// food if listed as food, else free.
    pub open spec fn initial_tag(snakes: Seq<Snake>, food: Seq<Vec2D>, p: Vec2D) -> CellT {
        if exists|k: int| 0 <= k < snakes.len() && (#[trigger] snakes[k]).body@.contains(p) {
            CellT::Owned
        } else if food.contains(p) {
            CellT::Food
        } else {
            CellT::Free
        }
    }

    /// Builds a game from its bodies, food and hazards.
    pub fn new(
        turn: usize,
        width: usize,
        height: usize,
        snakes: Vec<Snake>,
        food: &[Vec2D],
        hazards: &[Vec2D],
    ) -> (r: Game)
        requires
            width <= MAX_DIM,
            height <= MAX_DIM,
            snakes@.len() <= MAX_SNAKES,
            forall|i: int| 0 <= i < food@.len() ==> (#[trigger] food@[i]).within_spec(width as int, height as int),
            forall|i: int|
                0 <= i < hazards@.len() ==> (#[trigger] hazards@[i]).within_spec(width as int, height as int),
            forall|i: int, k: int|
                0 <= i < snakes@.len() && 0 <= k < snakes@[i].body@.len()
                    ==> (#[trigger] snakes@[i].body@[k]).within_spec(width as int, height as int),
            forall|i: int|
                0 <= i < snakes@.len() && (#[trigger] snakes@[i]).alive_spec()
                    ==> snakes@[i].body@.len() >= 2,
        ensures
            r.wf(),
            r.turn == turn,
            r.grid.width == width,
            r.grid.height == height,
            r.snakes@ == snakes@,
            forall|p: Vec2D|
                r.grid.has_spec(p) ==> #[trigger] r.grid.cell_at(p) == (Cell {
                    t: Game::initial_tag(snakes@, food@, p),
                    hazard: hazards@.contains(p),
                }),
            (forall|i: int| 0 <= i < snakes@.len() ==> (#[trigger] snakes@[i]).alive_spec() || snakes@[i].body@.len() == 0)
                ==> r.owned_exact(),
    {
        let mut grid = Grid::new(width, height);
        grid.add_food(food);
        grid.add_hazards(hazards);
        let mut i: usize = 0;
        while i < snakes.len()
            invariant
                grid.wf(),
                grid.width == width,
                grid.height == height,
                i <= snakes@.len(),
                forall|i: int, k: int|
                    0 <= i < snakes@.len() && 0 <= k < snakes@[i].body@.len()
                        ==> (#[trigger] snakes@[i].body@[k]).within_spec(width as int, height as int),
                forall|p: Vec2D|
                    grid.has_spec(p) ==> #[trigger] grid.cell_at(p) == (Cell {
                        t: if exists|k: int| 0 <= k < i && (#[trigger] snakes@[k]).body@.contains(p) {
                            CellT::Owned
                        } else if food@.contains(p) {
                            CellT::Food
                        } else {
                            CellT::Free
                        },
                        hazard: hazards@.contains(p),
                    }),
            decreases snakes@.len() - i,
        {
            grid.add_snake(&snakes[i].body);
            proof {
                assert forall|p: Vec2D| grid.has_spec(p) implies #[trigger] grid.cell_at(p) == (Cell {
                    t: if exists|k: int| 0 <= k < i + 1 && (#[trigger] snakes@[k]).body@.contains(p) {
                        CellT::Owned
                    } else if food@.contains(p) {
                        CellT::Food
                    } else {
                        CellT::Free
                    },
                    hazard: hazards@.contains(p),
                }) by {
                    if exists|k: int| 0 <= k < i + 1 && (#[trigger] snakes@[k]).body@.contains(p) {
                        let k = choose|k: int| 0 <= k < i + 1 && (#[trigger] snakes@[k]).body@.contains(p);
                        if k < i {
                            assert(exists|k: int| 0 <= k < i && (#[trigger] snakes@[k]).body@.contains(p));
                        }
                    }
                }
            }
            i = i + 1;
        }
        let r = Game { turn, grid, snakes };
        assert forall|i: int, k: int|
            0 <= i < r.snakes@.len() && 0 <= k < r.snakes@[i].body@.len() implies r.grid.has_spec(
            #[trigger] r.seg(i, k),
        ) by {
            assert(snakes@[i].body@[k].within_spec(width as int, height as int));
        }
        proof {
            if forall|i: int| 0 <= i < snakes@.len() ==> (#[trigger] snakes@[i]).alive_spec() || snakes@[i].body@.len() == 0 {
                assert forall|p: Vec2D| #![trigger r.grid.cell_at(p)] r.grid.has_spec(p) implies (r.grid.cell_at(p).t
                    == CellT::Owned <==> exists|i: int|
                    0 <= i < r.snakes@.len() && (#[trigger] r.snakes@[i]).alive_spec() && r.snakes@[i].body@.contains(p)) by {
                    if exists|k: int| 0 <= k < snakes@.len() && (#[trigger] snakes@[k]).body@.contains(p) {
                        let k = choose|k: int| 0 <= k < snakes@.len() && (#[trigger] snakes@[k]).body@.contains(p);
                        assert(snakes@[k].alive_spec());
                        assert(r.snakes@[k].alive_spec() && r.snakes@[k].body@.contains(p));
                    }
                    if exists|i: int|
                        0 <= i < r.snakes@.len() && (#[trigger] r.snakes@[i]).alive_spec() && r.snakes@[i].body@.contains(p) {
                        let i = choose|i: int|
                            0 <= i < r.snakes@.len() && (#[trigger] r.snakes@[i]).alive_spec() && r.snakes@[i].body@.contains(p);
                        assert(snakes@[i].body@.contains(p));
                        assert(Game::initial_tag(snakes@, food@, p) == CellT::Owned);
                    }
                }
            }
        }
        r
    }
}


impl Game {
    /// A cell is owned exactly when a segment of a living body lies on it.
    pub open spec fn owned_exact(&self) -> bool {
        forall|p: Vec2D|
            #![trigger self.grid.cell_at(p)]
            self.grid.has_spec(p) ==> (self.grid.cell_at(p).t == CellT::Owned <==> exists|i: int|
                0 <= i < self.snakes@.len() && (#[trigger] self.snakes@[i]).alive_spec()
                    && self.snakes@[i].body@.contains(p))
    }
}

/// Step conservation: when owned cells are exactly the cells of living
/// bodies before a step, the same holds after it.
pub proof fn lemma_step_conserves(g: &Game, moves: Seq<Direction>, p: Vec2D)
    requires
        g.wf(),
        g.owned_exact(),
        moves.len() >= g.snakes@.len(),
        g.grid.has_spec(p),
    ensures
        g.tag_after(moves, p) == CellT::Owned <==> exists|i: int|
            0 <= i < g.snakes@.len() && #[trigger] g.health_after(moves, i) > 0 && g.body_after(moves, i).contains(p),
{
    if g.held_after(moves, p) {
        let i = choose|i: int|
            0 <= i < g.snakes@.len() && #[trigger] g.health_after(moves, i) > 0 && g.moved(i, moves[i]).0.contains(p);
        assert(g.body_after(moves, i).contains(p));
    } else {
        assert(!exists|i: int|
            0 <= i < g.snakes@.len() && #[trigger] g.health_after(moves, i) > 0 && g.body_after(moves, i).contains(p));
        if !g.cleared_after(moves, p) && g.tag_retracted(p) == CellT::Owned {
            assert(g.grid.cell_at(p).t == CellT::Owned);
            let i = choose|i: int|
                0 <= i < g.snakes@.len() && (#[trigger] g.snakes@[i]).alive_spec() && g.snakes@[i].body@.contains(p);
            let b = g.snakes@[i].body@;
            let k = choose|k: int| 0 <= k < b.len() && b[k] == p;
            let r = g.retracted(i);
            if k == 0 {
                if b[1] != p {
                    assert(g.snakes@[i].vacates(p));
                    assert(g.vacating(p));
                }
                assert(r[0] == p);
            } else {
                assert(r[k - 1] == p);
            }
            assert(r.contains(p));
            let m = g.moved(i, moves[i]).0;
            let rk = choose|rk: int| 0 <= rk < r.len() && r[rk] == p;
            if g.grid.has_spec(g.snakes@[i].head_spec().shifted(moves[i]))
                && g.tag_retracted(g.snakes@[i].head_spec().shifted(moves[i])) == CellT::Food {
                assert(m[rk + 1] == p);
            } else {
                assert(m[rk] == p);
            }
            assert(m.contains(p));
            assert(g.health_after(moves, i) == 0);
        }
    }
}

} // verus!
