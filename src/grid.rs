use vstd::prelude::*;

use std::collections::VecDeque;

use crate::env::Vec2D;

verus! {

/// Largest width or height of a board: every in-bounds coordinate and its
/// neighbours fit an `i16`.
pub const MAX_DIM: usize = 32767;

/// Occupancy of a cell.
#[derive(Clone, Copy, PartialEq, Eq, Structural, Debug, Hash)]
pub enum CellT {
    Free,
    Food,
    Owned,
}

/// A board cell: its occupancy and whether it is hazardous.
#[derive(Clone, Copy, PartialEq, Eq, Structural, Debug, Hash)]
pub struct Cell {
    pub t: CellT,
    pub hazard: bool,
}

impl Cell {
    pub fn new(t: CellT, hazard: bool) -> (r: Cell)
        ensures
            r == (Cell { t, hazard }),
    {
        Cell { t, hazard }
    }
}

/// A dense rectangular board, stored row by row from the bottom row up.
#[derive(Clone, Debug)]
pub struct Grid {
    pub width: usize,
    pub height: usize,
    pub cells: Vec<Cell>,
}

proof fn lemma_index_bounds(x: int, y: int, w: int, h: int)
    requires
        0 <= x < w,
        0 <= y < h,
    ensures
        0 <= y * w + x < w * h,
{
    assert(y * w + x < w * h) by (nonlinear_arith)
        requires
            0 <= x < w,
            0 <= y < h,
    ;
    assert(0 <= y * w) by (nonlinear_arith)
        requires
            0 <= y,
            0 <= w,
    ;
}

proof fn lemma_index_injective(x1: int, y1: int, x2: int, y2: int, w: int)
    requires
        0 <= x1 < w,
        0 <= x2 < w,
        0 <= y1,
        0 <= y2,
        y1 * w + x1 == y2 * w + x2,
    ensures
        x1 == x2 && y1 == y2,
{
    if y1 < y2 {
        assert(y1 * w + w <= y2 * w) by (nonlinear_arith)
            requires
                y1 < y2,
                0 <= w,
        ;
    } else if y2 < y1 {
        assert(y2 * w + w <= y1 * w) by (nonlinear_arith)
            requires
                y2 < y1,
                0 <= w,
        ;
    }
}

impl Grid {
    pub open spec fn wf(&self) -> bool {
        &&& self.width <= MAX_DIM
        &&& self.height <= MAX_DIM
        &&& self.cells@.len() == self.width * self.height
    }

    /// True iff `p` lies on the board.
    pub open spec fn has_spec(&self, p: Vec2D) -> bool {
        p.within_spec(self.width as int, self.height as int)
    }

    pub open spec fn index_spec(&self, p: Vec2D) -> int {
        p.y * self.width + p.x
    }

    /// The cell at `p` (meaningful where `has_spec(p)`).
    pub open spec fn cell_at(&self, p: Vec2D) -> Cell {
        self.cells@[self.index_spec(p)]
    }

    pub proof fn lemma_index(&self, p: Vec2D)
        requires
            self.wf(),
            self.has_spec(p),
        ensures
            0 <= self.index_spec(p) < self.cells@.len(),
    {
        lemma_index_bounds(p.x as int, p.y as int, self.width as int, self.height as int);
    }

    pub proof fn lemma_index_distinct(&self, p: Vec2D, q: Vec2D)
        requires
            self.wf(),
            self.has_spec(p),
            self.has_spec(q),
            p != q,
        ensures
            self.index_spec(p) != self.index_spec(q),
    {
        if self.index_spec(p) == self.index_spec(q) {
            lemma_index_injective(p.x as int, p.y as int, q.x as int, q.y as int, self.width as int);
        }
    }

    /// A board of the given size with every cell free and no hazard.
    pub fn new(width: usize, height: usize) -> (r: Grid)
        requires
            width <= MAX_DIM,
            height <= MAX_DIM,
        ensures
            r.wf(),
            r.width == width,
            r.height == height,
            forall|p: Vec2D| r.has_spec(p) ==> #[trigger] r.cell_at(p) == Cell::new_spec(),
    {
        assert(width * height <= MAX_DIM * MAX_DIM) by (nonlinear_arith)
            requires
                width <= MAX_DIM,
                height <= MAX_DIM,
        ;
        let n: usize = width * height;
        let cells = vec![Cell { t: CellT::Free, hazard: false }; n];
        let r = Grid { width, height, cells };
        assert forall|p: Vec2D| r.has_spec(p) implies #[trigger] r.cell_at(p) == Cell::new_spec() by {
            r.lemma_index(p);
        }
        r
    }

    /// True iff `p` lies on the board.
    pub fn has(&self, p: Vec2D) -> (r: bool)
        ensures
            r == self.has_spec(p),
    {
        p.within(self.width, self.height)
    }

    /// Position of `p` in `cells`.
    pub fn index(&self, p: Vec2D) -> (r: usize)
        requires
            self.wf(),
            self.has_spec(p),
        ensures
            r == self.index_spec(p),
            r < self.cells@.len(),
    {
        proof {
            self.lemma_index(p);
        }
        let y: usize = p.y as usize;
        let x: usize = p.x as usize;
        let n = self.cells.len();
        assert(y * self.width + x == self.index_spec(p));
        assert(y * self.width <= y * self.width + x < n);
        y * self.width + x
    }

    /// The cell at `p`; callers check `has` first.
    pub fn get(&self, p: Vec2D) -> (r: Cell)
        requires
            self.wf(),
            self.has_spec(p),
        ensures
            r == self.cell_at(p),
    {
        let i = self.index(p);
        self.cells[i]
    }

    /// Replaces the cell at `p`; callers check `has` first.
    pub fn set(&mut self, p: Vec2D, c: Cell)
        requires
            old(self).wf(),
            old(self).has_spec(p),
        ensures
            final(self).wf(),
            final(self).width == old(self).width,
            final(self).height == old(self).height,
            forall|q: Vec2D|
                final(self).has_spec(q) ==> #[trigger] final(self).cell_at(q) == if q == p {
                    c
                } else {
                    old(self).cell_at(q)
                },
    {
        let i = self.index(p);
        self.cells.set(i, c);
        proof {
            assert forall|q: Vec2D| final(self).has_spec(q) implies #[trigger] final(self).cell_at(q)
                == if q == p {
                c
            } else {
                old(self).cell_at(q)
            } by {
                old(self).lemma_index(q);
                if q != p {
                    old(self).lemma_index_distinct(p, q);
                }
            }
        }
    }

    /// Sets the occupancy at `p`, keeping its hazard flag.
    pub fn set_t(&mut self, p: Vec2D, t: CellT)
        requires
            old(self).wf(),
            old(self).has_spec(p),
        ensures
            final(self).wf(),
            final(self).width == old(self).width,
            final(self).height == old(self).height,
            forall|q: Vec2D|
                final(self).has_spec(q) ==> #[trigger] final(self).cell_at(q) == if q == p {
                    Cell { t, hazard: old(self).cell_at(q).hazard }
                } else {
                    old(self).cell_at(q)
                },
    {
        let c = self.get(p);
        self.set(p, Cell { t, hazard: c.hazard });
    }

    /// Marks every listed cell as food.
    pub fn add_food(&mut self, points: &[Vec2D])
        requires
            old(self).wf(),
            forall|i: int| 0 <= i < points@.len() ==> old(self).has_spec(#[trigger] points@[i]),
        ensures
            final(self).wf(),
            final(self).width == old(self).width,
            final(self).height == old(self).height,
            forall|q: Vec2D|
                final(self).has_spec(q) ==> #[trigger] final(self).cell_at(q) == if points@.contains(q) {
                    Cell { t: CellT::Food, hazard: old(self).cell_at(q).hazard }
                } else {
                    old(self).cell_at(q)
                },
    {
        self.mark_all(points, CellT::Food);
    }

    /// Marks every segment of a body as owned.
    pub fn add_snake(&mut self, body: &VecDeque<Vec2D>)
        requires
            old(self).wf(),
            forall|i: int| 0 <= i < body@.len() ==> old(self).has_spec(#[trigger] body@[i]),
        ensures
            final(self).wf(),
            final(self).width == old(self).width,
            final(self).height == old(self).height,
            forall|q: Vec2D|
                final(self).has_spec(q) ==> #[trigger] final(self).cell_at(q) == if body@.contains(q) {
                    Cell { t: CellT::Owned, hazard: old(self).cell_at(q).hazard }
                } else {
                    old(self).cell_at(q)
                },
    {
        let ghost g0 = *self;
        let mut i: usize = 0;
        while i < body.len()
            invariant
                self.wf(),
                self.width == g0.width,
                self.height == g0.height,
                g0.wf(),
                i <= body@.len(),
                forall|k: int| 0 <= k < body@.len() ==> g0.has_spec(#[trigger] body@[k]),
                forall|q: Vec2D|
                    self.has_spec(q) ==> #[trigger] self.cell_at(q) == if body@.subrange(
                        0,
                        i as int,
                    ).contains(q) {
                        Cell { t: CellT::Owned, hazard: g0.cell_at(q).hazard }
                    } else {
                        g0.cell_at(q)
                    },
            decreases body@.len() - i,
        {
            let p = body[i];
            self.set_t(p, CellT::Owned);
            proof {
                assert forall|q: Vec2D| self.has_spec(q) implies #[trigger] self.cell_at(q)
                    == if body@.subrange(0, i + 1).contains(q) {
                    Cell { t: CellT::Owned, hazard: g0.cell_at(q).hazard }
                } else {
                    g0.cell_at(q)
                } by {
                    if q == p {
                        assert(body@.subrange(0, i + 1)[i as int] == q);
                    } else if body@.subrange(0, i + 1).contains(q) {
                        let k = choose|k: int|
                            0 <= k < i + 1 && #[trigger] body@.subrange(0, i + 1)[k] == q;
                        assert(body@.subrange(0, i as int)[k] == q);
                    } else if body@.subrange(0, i as int).contains(q) {
                        let k = choose|k: int|
                            0 <= k < i && #[trigger] body@.subrange(0, i as int)[k] == q;
                        assert(body@.subrange(0, i + 1)[k] == q);
                    }
                }
            }
            i = i + 1;
        }
        proof {
            assert(body@.subrange(0, body@.len() as int) =~= body@);
        }
    }

    fn mark_all(&mut self, points: &[Vec2D], t: CellT)
        requires
            old(self).wf(),
            forall|i: int| 0 <= i < points@.len() ==> old(self).has_spec(#[trigger] points@[i]),
        ensures
            final(self).wf(),
            final(self).width == old(self).width,
            final(self).height == old(self).height,
            forall|q: Vec2D|
                final(self).has_spec(q) ==> #[trigger] final(self).cell_at(q) == if points@.contains(q) {
                    Cell { t, hazard: old(self).cell_at(q).hazard }
                } else {
                    old(self).cell_at(q)
                },
    {
        let ghost g0 = *self;
        let mut i: usize = 0;
        while i < points.len()
            invariant
                self.wf(),
                self.width == g0.width,
                self.height == g0.height,
                g0.wf(),
                i <= points@.len(),
                forall|k: int| 0 <= k < points@.len() ==> g0.has_spec(#[trigger] points@[k]),
                forall|q: Vec2D|
                    self.has_spec(q) ==> #[trigger] self.cell_at(q) == if points@.subrange(
                        0,
                        i as int,
                    ).contains(q) {
                        Cell { t, hazard: g0.cell_at(q).hazard }
                    } else {
                        g0.cell_at(q)
                    },
            decreases points@.len() - i,
        {
            let p = points[i];
            self.set_t(p, t);
            proof {
                assert forall|q: Vec2D| self.has_spec(q) implies #[trigger] self.cell_at(q)
                    == if points@.subrange(0, i + 1).contains(q) {
                    Cell { t, hazard: g0.cell_at(q).hazard }
                } else {
                    g0.cell_at(q)
                } by {
                    if q == p {
                        assert(points@.subrange(0, i + 1)[i as int] == q);
                    } else if points@.subrange(0, i + 1).contains(q) {
                        let k = choose|k: int|
                            0 <= k < i + 1 && #[trigger] points@.subrange(0, i + 1)[k] == q;
                        assert(points@.subrange(0, i as int)[k] == q);
                    } else if points@.subrange(0, i as int).contains(q) {
                        let k = choose|k: int|
                            0 <= k < i && #[trigger] points@.subrange(0, i as int)[k] == q;
                        assert(points@.subrange(0, i + 1)[k] == q);
                    }
                }
            }
            i = i + 1;
        }
        proof {
            assert(points@.subrange(0, points@.len() as int) =~= points@);
        }
    }

    /// Sets the hazard flag of every listed cell.
    pub fn add_hazards(&mut self, points: &[Vec2D])
        requires
            old(self).wf(),
            forall|i: int| 0 <= i < points@.len() ==> old(self).has_spec(#[trigger] points@[i]),
        ensures
            final(self).wf(),
            final(self).width == old(self).width,
            final(self).height == old(self).height,
            forall|q: Vec2D|
                final(self).has_spec(q) ==> #[trigger] final(self).cell_at(q) == if points@.contains(q) {
                    Cell { t: old(self).cell_at(q).t, hazard: true }
                } else {
                    old(self).cell_at(q)
                },
    {
        let ghost g0 = *self;
        let mut i: usize = 0;
        while i < points.len()
            invariant
                self.wf(),
                self.width == g0.width,
                self.height == g0.height,
                g0.wf(),
                i <= points@.len(),
                forall|k: int| 0 <= k < points@.len() ==> g0.has_spec(#[trigger] points@[k]),
                forall|q: Vec2D|
                    self.has_spec(q) ==> #[trigger] self.cell_at(q) == if points@.subrange(
                        0,
                        i as int,
                    ).contains(q) {
                        Cell { t: g0.cell_at(q).t, hazard: true }
                    } else {
                        g0.cell_at(q)
                    },
            decreases points@.len() - i,
        {
            let p = points[i];
            let c = self.get(p);
            self.set(p, Cell { t: c.t, hazard: true });
            proof {
                assert forall|q: Vec2D| self.has_spec(q) implies #[trigger] self.cell_at(q)
                    == if points@.subrange(0, i + 1).contains(q) {
                    Cell { t: g0.cell_at(q).t, hazard: true }
                } else {
                    g0.cell_at(q)
                } by {
                    if q == p {
                        assert(points@.subrange(0, i + 1)[i as int] == q);
                    } else if points@.subrange(0, i + 1).contains(q) {
                        let k = choose|k: int|
                            0 <= k < i + 1 && #[trigger] points@.subrange(0, i + 1)[k] == q;
                        assert(points@.subrange(0, i as int)[k] == q);
                    } else if points@.subrange(0, i as int).contains(q) {
                        let k = choose|k: int|
                            0 <= k < i && #[trigger] points@.subrange(0, i as int)[k] == q;
                        assert(points@.subrange(0, i + 1)[k] == q);
                    }
                }
            }
            i = i + 1;
        }
        proof {
            assert(points@.subrange(0, points@.len() as int) =~= points@);
        }
    }
}

impl Cell {
    /// A free cell without hazard.
    pub open spec fn new_spec() -> Cell {
        Cell { t: CellT::Free, hazard: false }
    }
}

} // verus!
