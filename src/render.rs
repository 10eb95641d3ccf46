//! What a picture of the board shows in each cell.
use vstd::prelude::*;

use crate::env::{delta_dir, Direction, Vec2D};
use crate::game::Game;
use crate::grid::CellT;

verus! {

/// The symbol drawn for a cell.
#[derive(Clone, Copy, PartialEq, Eq, Structural, Debug)]
pub enum Glyph {
    Free,
    Food,
    /// A segment of body `id` whose next segment lies in the direction.
    Tail(Direction, u8),
    /// The head of body `id`.
    Head(u8),
}

/// A drawn cell: its symbol and whether it is hazardous.
#[derive(Clone, Copy, PartialEq, Eq, Structural, Debug)]
pub struct Tile {
    pub glyph: Glyph,
    pub hazard: bool,
}

/// `p` holds a segment of a living body.
pub open spec fn on_living_body(g: &Game, p: Vec2D, n: int) -> bool {
    exists|i: int|
        0 <= i < n && (#[trigger] g.snakes@[i]).alive_spec() && g.snakes@[i].body@.contains(p)
}

/// The symbol of a cell that no living body covers.
pub open spec fn ground(c: CellT) -> Glyph {
    if c == CellT::Food {
        Glyph::Food
    } else {
        Glyph::Free
    }
}

/// What segment `b` of body `a` draws: the id at the head, elsewhere an
/// arrow towards the next segment.
pub open spec fn seg_glyph(g: &Game, a: int, b: int) -> Glyph {
    let body = g.snakes@[a].body@;
    if b == body.len() - 1 {
        Glyph::Head(a as u8)
    } else {
        Glyph::Tail(delta_dir(body[b + 1].x - body[b].x, body[b + 1].y - body[b].y), a as u8)
    }
}

/// Segment `b` of the living body `a` lies on `p`.
pub open spec fn writes(g: &Game, a: int, b: int, p: Vec2D) -> bool {
    &&& 0 <= a < g.snakes@.len()
    &&& g.snakes@[a].alive_spec()
    &&& 0 <= b < g.snakes@[a].body@.len()
    &&& g.snakes@[a].body@[b] == p
}

/// Among bodies before `n`, segment `b` of body `a` is the last drawn on
/// `p` (bodies in id order, each from tail to head).
pub open spec fn drawn_by(g: &Game, p: Vec2D, n: int, a: int, b: int) -> bool {
    &&& a < n
    &&& writes(g, a, b, p)
    &&& forall|a2: int, b2: int|
        #![trigger writes(g, a2, b2, p)]
        a2 < n && writes(g, a2, b2, p) ==> a2 < a || (a2 == a && b2 <= b)
}

impl Game {
    /// The tiles of the board in row order from the bottom row: each living
    /// body drawn as arrows from tail to head and its id at the head (later
    /// bodies drawn over earlier ones), other cells as food or free, every
    /// cell with its hazard flag.
    pub fn tiles(&self) -> (r: Vec<Tile>)
        requires
            self.wf(),
        ensures
            r@.len() == self.grid.cells@.len(),
            forall|p: Vec2D|
                #![trigger self.grid.index_spec(p)]
                self.grid.has_spec(p) ==> {
                    let t = r@[self.grid.index_spec(p)];
                    &&& t.hazard == self.grid.cell_at(p).hazard
                    &&& !on_living_body(self, p, self.snakes@.len() as int) ==> t.glyph == ground(
                        self.grid.cell_at(p).t,
                    )
                    &&& on_living_body(self, p, self.snakes@.len() as int) ==> exists|a: int, b: int|
                        #![trigger self.snakes@[a].body@[b]]
                        drawn_by(self, p, self.snakes@.len() as int, a, b) && t.glyph == seg_glyph(self, a, b)
                },
    {
        let w = self.grid.width;
        let h = self.grid.height;
        let n = self.grid.cells.len();
        let mut tiles: Vec<Tile> = Vec::new();
        let mut i: usize = 0;
        while i < n
            invariant
                self.wf(),
                w == self.grid.width,
                h == self.grid.height,
                n == w * h,
                i <= n,
                tiles@.len() == i,
                forall|k: int| 0 <= k < i ==> (#[trigger] tiles@[k]) == (Tile {
                    glyph: ground(self.grid.cells@[k].t),
                    hazard: self.grid.cells@[k].hazard,
                }),
            decreases n - i,
        {
            let c = self.grid.cells[i];
            let glyph = if c.t == CellT::Food {
                Glyph::Food
            } else {
                Glyph::Free
            };
            tiles.push(Tile { glyph, hazard: c.hazard });
            i = i + 1;
        }
        proof {
            assert forall|p: Vec2D| #![trigger self.grid.index_spec(p)] self.grid.has_spec(p) implies {
                let t = tiles@[self.grid.index_spec(p)];
                &&& t.hazard == self.grid.cell_at(p).hazard
                &&& !on_living_body(self, p, 0) ==> t.glyph == ground(self.grid.cell_at(p).t)
                &&& !on_living_body(self, p, 0)
            } by {
                self.grid.lemma_index(p);
                assert(tiles@[self.grid.index_spec(p)] == (Tile {
                    glyph: ground(self.grid.cells@[self.grid.index_spec(p)].t),
                    hazard: self.grid.cells@[self.grid.index_spec(p)].hazard,
                }));
            }
        }
        let mut id: usize = 0;
        while id < self.snakes.len()
            invariant
                self.wf(),
                tiles@.len() == self.grid.cells@.len(),
                id <= self.snakes@.len(),
                forall|p: Vec2D|
                    #![trigger self.grid.index_spec(p)]
                    self.grid.has_spec(p) ==> {
                        let t = tiles@[self.grid.index_spec(p)];
                        &&& t.hazard == self.grid.cell_at(p).hazard
                        &&& !on_living_body(self, p, id as int) ==> t.glyph == ground(self.grid.cell_at(p).t)
                        &&& on_living_body(self, p, id as int) ==> exists|a: int, b: int|
                            #![trigger self.snakes@[a].body@[b]]
                            drawn_by(self, p, id as int, a, b) && t.glyph == seg_glyph(self, a, b)
                    },
            decreases self.snakes@.len() - id,
        {
            let ghost before = tiles@;
            let s = &self.snakes[id];
            if s.alive() && s.body.len() > 0 {
                let mut k: usize = 0;
                while k < s.body.len()
                    invariant
                        self.wf(),
                        *s == self.snakes@[id as int],
                        id < self.snakes@.len(),
                        id < 256,
                        k <= s.body@.len(),
                        tiles@.len() == self.grid.cells@.len(),
                        forall|p: Vec2D|
                            #![trigger self.grid.index_spec(p)]
                            self.grid.has_spec(p) ==> {
                                let t = tiles@[self.grid.index_spec(p)];
                                &&& t.hazard == self.grid.cell_at(p).hazard
                                &&& s.body@.subrange(0, k as int).contains(p) ==> exists|b: int|
                                    #![trigger s.body@[b]]
                                    0 <= b < k && s.body@[b] == p && t.glyph == seg_glyph(self, id as int, b)
                                        && forall|b2: int| b < b2 < k ==> #[trigger] s.body@[b2] != p
                                &&& !s.body@.subrange(0, k as int).contains(p) ==> t == before[self.grid.index_spec(p)]
                            },
                    decreases s.body@.len() - k,
                {
                    let p = s.body[k];
                    proof {
                        assert(self.grid.has_spec(self.seg(id as int, k as int)));
                    }
                    let glyph = if k + 1 < s.body.len() {
                        let q = s.body[k + 1];
                        proof {
                            assert(self.grid.has_spec(self.seg(id as int, k + 1)));
                        }
                        Glyph::Tail(Direction::from_delta(Vec2D { x: q.x - p.x, y: q.y - p.y }), id as u8)
                    } else {
                        Glyph::Head(id as u8)
                    };
                    assert(glyph == seg_glyph(self, id as int, k as int));
                    let pi = self.grid.index(p);
                    let old_t = tiles[pi];
                    let ghost prev = tiles@;
                    tiles.set(pi, Tile { glyph, hazard: old_t.hazard });
                    proof {
                        assert forall|q: Vec2D| #![trigger self.grid.index_spec(q)] self.grid.has_spec(q) implies {
                            let t = tiles@[self.grid.index_spec(q)];
                            &&& t.hazard == self.grid.cell_at(q).hazard
                            &&& s.body@.subrange(0, k + 1).contains(q) ==> exists|b: int|
                                #![trigger s.body@[b]]
                                0 <= b < k + 1 && s.body@[b] == q && t.glyph == seg_glyph(self, id as int, b)
                                    && forall|b2: int| b < b2 < k + 1 ==> #[trigger] s.body@[b2] != q
                            &&& !s.body@.subrange(0, k + 1).contains(q) ==> t == before[self.grid.index_spec(q)]
                        } by {
                            self.grid.lemma_index(q);
                            if q != p {
                                self.grid.lemma_index_distinct(q, p);
                                if s.body@.subrange(0, k + 1).contains(q) {
                                    let m = choose|m: int| 0 <= m < k + 1 && #[trigger] s.body@.subrange(0, k + 1)[m] == q;
                                    assert(s.body@.subrange(0, k as int)[m] == q);
                                    let b = choose|b: int|
                                        #![trigger s.body@[b]]
                                        0 <= b < k && s.body@[b] == q && prev[self.grid.index_spec(q)].glyph == seg_glyph(self, id as int, b)
                                            && forall|b2: int| b < b2 < k ==> #[trigger] s.body@[b2] != q;
                                    assert(s.body@[b] == q);
                                }
                                if s.body@.subrange(0, k as int).contains(q) {
                                    let m = choose|m: int| 0 <= m < k && #[trigger] s.body@.subrange(0, k as int)[m] == q;
                                    assert(s.body@.subrange(0, k + 1)[m] == q);
                                }
                            } else {
                                assert(s.body@.subrange(0, k + 1)[k as int] == q);
                                assert(s.body@[k as int] == q);
                            }
                        }
                    }
                    k = k + 1;
                }
                proof {
                    assert(s.body@.subrange(0, s.body@.len() as int) =~= s.body@);
                }
            }
            proof {
                assert forall|p: Vec2D| #![trigger self.grid.index_spec(p)] self.grid.has_spec(p) implies {
                    let t = tiles@[self.grid.index_spec(p)];
                    &&& t.hazard == self.grid.cell_at(p).hazard
                    &&& !on_living_body(self, p, id + 1) ==> t.glyph == ground(self.grid.cell_at(p).t)
                    &&& on_living_body(self, p, id + 1) ==> exists|a: int, b: int|
                        #![trigger self.snakes@[a].body@[b]]
                        drawn_by(self, p, id + 1, a, b) && t.glyph == seg_glyph(self, a, b)
                } by {
                    let s = self.snakes@[id as int];
                    let mine = s.alive_spec() && s.body@.contains(p);
                    if mine {
                        assert(s.body@.subrange(0, s.body@.len() as int) =~= s.body@);
                        let b = choose|b: int|
                            #![trigger s.body@[b]]
                            0 <= b < s.body@.len() && s.body@[b] == p && tiles@[self.grid.index_spec(p)].glyph
                                == seg_glyph(self, id as int, b) && forall|b2: int| b < b2 < s.body@.len() ==> #[trigger] s.body@[b2] != p;
                        assert(self.snakes@[id as int].body@[b] == p);
                        assert(drawn_by(self, p, id + 1, id as int, b));
                        assert(on_living_body(self, p, id + 1));
                    } else {
                        if on_living_body(self, p, id + 1) {
                            let j = choose|j: int|
                                0 <= j < id + 1 && (#[trigger] self.snakes@[j]).alive_spec() && self.snakes@[j].body@.contains(p);
                            assert(j != id);
                            assert(on_living_body(self, p, id as int));
                            let (a, b) = choose|a: int, b: int|
                                #![trigger self.snakes@[a].body@[b]]
                                drawn_by(self, p, id as int, a, b) && tiles@[self.grid.index_spec(p)].glyph == seg_glyph(self, a, b);
                            assert(self.snakes@[a].body@[b] == p);
                            assert(drawn_by(self, p, id + 1, a, b));
                        }
                        if on_living_body(self, p, id as int) {
                            let j = choose|j: int|
                                0 <= j < id && (#[trigger] self.snakes@[j]).alive_spec() && self.snakes@[j].body@.contains(p);
                            assert(on_living_body(self, p, id + 1));
                        }
                    }
                }
            }
            id = id + 1;
        }
        proof {
            assert forall|p: Vec2D| #![trigger self.grid.index_spec(p)] self.grid.has_spec(p)
                implies tiles@[self.grid.index_spec(p)].hazard == self.grid.cell_at(p).hazard by {
                self.grid.lemma_index(p);
            }
        }
        tiles
    }
}

} // verus!
