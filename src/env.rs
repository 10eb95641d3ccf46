use vstd::prelude::*;

verus! {

/// Health lost per turn by a body whose head stands on a hazard cell.
pub const HAZARD_DAMAGE: u8 = 15;

/// Health of a body that has just eaten.
pub const MAX_HEALTH: u8 = 100;

/// A cell coordinate; `y` grows upwards.
#[derive(Clone, Copy, PartialEq, Eq, Structural, Debug, Hash)]
pub struct Vec2D {
    pub x: i16,
    pub y: i16,
}

/// One of the four cardinal moves, in their fixed enumeration order.
#[derive(Clone, Copy, PartialEq, Eq, Structural, Debug, Hash)]
pub enum Direction {
    Up,
    Right,
    Down,
    Left,
}

/// Absolute value of an integer.
pub open spec fn abs_int(v: int) -> int {
    if v < 0 {
        -v
    } else {
        v
    }
}

/// The direction `Direction::from_delta` gives for the delta `(dx, dy)`.
pub open spec fn delta_dir(dx: int, dy: int) -> Direction {
    if dx > 0 && dx >= abs_int(dy) {
        Direction::Right
    } else if dx < 0 && -dx >= abs_int(dy) {
        Direction::Left
    } else if dy < 0 {
        Direction::Down
    } else {
        Direction::Up
    }
}

/// Shorthand constructor for a coordinate.
pub fn v2(x: i16, y: i16) -> (r: Vec2D)
    ensures
        r == (Vec2D { x, y }),
{
    Vec2D { x, y }
}

impl Direction {
    /// Unit delta of the direction, x component.
    pub open spec fn dx(self) -> int {
        match self {
            Direction::Right => 1,
            Direction::Left => -1,
            _ => 0,
        }
    }

    /// Unit delta of the direction, y component.
    pub open spec fn dy(self) -> int {
        match self {
            Direction::Up => 1,
            Direction::Down => -1,
            _ => 0,
        }
    }

    /// Position of the direction in the fixed order Up, Right, Down, Left.
    pub open spec fn index_of(self) -> nat {
        match self {
            Direction::Up => 0,
            Direction::Right => 1,
            Direction::Down => 2,
            Direction::Left => 3,
        }
    }

    /// The direction at position `i` of the fixed order (`i < 4`).
    pub open spec fn nth(i: int) -> Direction {
        if i == 0 {
            Direction::Up
        } else if i == 1 {
            Direction::Right
        } else if i == 2 {
            Direction::Down
        } else {
            Direction::Left
        }
    }

    pub open spec fn inverse(self) -> Direction {
        match self {
            Direction::Up => Direction::Down,
            Direction::Right => Direction::Left,
            Direction::Down => Direction::Up,
            Direction::Left => Direction::Right,
        }
    }

    /// The four directions in their fixed order.
    pub fn all() -> (r: [Direction; 4])
        ensures
            forall|i: int| 0 <= i < 4 ==> #[trigger] r[i] == Direction::nth(i),
    {
        [Direction::Up, Direction::Right, Direction::Down, Direction::Left]
    }

    /// The direction with the given position in the fixed order.
    pub fn from_index(i: u8) -> (r: Direction)
        requires
            i < 4,
        ensures
            r == Direction::nth(i as int),
            r.index_of() == i,
    {
        if i == 0 {
            Direction::Up
        } else if i == 1 {
            Direction::Right
        } else if i == 2 {
            Direction::Down
        } else {
            Direction::Left
        }
    }

    /// The opposite direction.
    pub fn invert(self) -> (r: Direction)
        ensures
            r == self.inverse(),
            r.dx() == -self.dx(),
            r.dy() == -self.dy(),
    {
        match self {
            Direction::Up => Direction::Down,
            Direction::Right => Direction::Left,
            Direction::Down => Direction::Up,
            Direction::Left => Direction::Right,
        }
    }

    /// The direction of a delta; a delta that is no unit step maps to the
    /// direction of its dominant axis, and the zero delta to `Up`.
    pub fn from_delta(p: Vec2D) -> (r: Direction)
        ensures
            r == delta_dir(p.x as int, p.y as int),
            abs_int(p.x as int) + abs_int(p.y as int) == 1 ==> r.dx() == p.x && r.dy() == p.y,
    {
        if p.x > 0 && p.x as i32 >= (if p.y < 0 { -(p.y as i32) } else { p.y as i32 }) {
            Direction::Right
        } else if p.x < 0 && -(p.x as i32) >= (if p.y < 0 { -(p.y as i32) } else { p.y as i32 }) {
            Direction::Left
        } else if p.y < 0 {
            Direction::Down
        } else {
            Direction::Up
        }
    }
}

impl Vec2D {
    pub fn new(x: i16, y: i16) -> (r: Vec2D)
        ensures
            r == (Vec2D { x, y }),
    {
        Vec2D { x, y }
    }

    /// The coordinate one step in direction `d`, as integers.
    pub open spec fn step_spec(self, d: Direction) -> (int, int) {
        (self.x + d.dx(), self.y + d.dy())
    }

    /// The neighbour in direction `d` (exact while it stays in the `i16` range).
    pub open spec fn shifted(self, d: Direction) -> Vec2D {
        Vec2D { x: (self.x + d.dx()) as i16, y: (self.y + d.dy()) as i16 }
    }

    /// True iff `self` lies in `[0, w) x [0, h)`.
    pub open spec fn within_spec(self, w: int, h: int) -> bool {
        0 <= self.x < w && 0 <= self.y < h
    }

    /// Manhattan distance between two coordinates.
    pub open spec fn dist(self, o: Vec2D) -> nat {
        (abs_int(self.x - o.x) + abs_int(self.y - o.y)) as nat
    }

    /// True iff `o` is one cardinal step from `self`.
    pub open spec fn adjacent(self, o: Vec2D) -> bool {
        self.dist(o) == 1
    }

    /// The neighbour in direction `d`; the coordinate must not leave the `i16` range.
    pub fn apply(self, d: Direction) -> (r: Vec2D)
        requires
            i16::MIN < self.x < i16::MAX,
            i16::MIN < self.y < i16::MAX,
        ensures
            r.x == self.x + d.dx(),
            r.y == self.y + d.dy(),
            r == self.shifted(d),
    {
        match d {
            Direction::Up => Vec2D { x: self.x, y: self.y + 1 },
            Direction::Right => Vec2D { x: self.x + 1, y: self.y },
            Direction::Down => Vec2D { x: self.x, y: self.y - 1 },
            Direction::Left => Vec2D { x: self.x - 1, y: self.y },
        }
    }

    /// Component-wise difference `self - o`, widened so that it cannot overflow.
    pub fn delta(self, o: Vec2D) -> (r: (i32, i32))
        ensures
            r.0 == self.x - o.x,
            r.1 == self.y - o.y,
    {
        (self.x as i32 - o.x as i32, self.y as i32 - o.y as i32)
    }

    /// Manhattan distance to `o`.
    pub fn manhattan(self, o: Vec2D) -> (r: u32)
        ensures
            r == self.dist(o),
    {
        let dx: i32 = self.x as i32 - o.x as i32;
        let dy: i32 = self.y as i32 - o.y as i32;
        let ax: u32 = if dx < 0 { (-dx) as u32 } else { dx as u32 };
        let ay: u32 = if dy < 0 { (-dy) as u32 } else { dy as u32 };
        ax + ay
    }

    /// Squared Euclidean distance to `o`.
    pub fn sq_dist(self, o: Vec2D) -> (r: u64)
        ensures
            r == (self.x - o.x) * (self.x - o.x) + (self.y - o.y) * (self.y - o.y),
    {
        let dx: i64 = self.x as i64 - o.x as i64;
        let dy: i64 = self.y as i64 - o.y as i64;
        assert(0 <= dx * dx <= 65536 * 65536) by (nonlinear_arith)
            requires
                -65536 <= dx <= 65536,
        ;
        assert(0 <= dy * dy <= 65536 * 65536) by (nonlinear_arith)
            requires
                -65536 <= dy <= 65536,
        ;
        (dx * dx + dy * dy) as u64
    }

    /// True iff `self` lies in `[0, w) x [0, h)`.
    pub fn within(self, w: usize, h: usize) -> (r: bool)
        ensures
            r == self.within_spec(w as int, h as int),
    {
        0 <= self.x && (self.x as usize) < w && 0 <= self.y && (self.y as usize) < h
    }
}

} // verus!
