//! The textual board notation: one line per row, top row first, one token
//! per cell. A token's first character gives the cell: `o` food, a digit
//! the head of the body with that id, `^ > v <` a segment whose next segment
//! (towards the head) lies in that direction, anything else a free cell.
use std::collections::VecDeque;

use vstd::prelude::*;
use vstd::string::StrSliceExecFns;

use crate::env::{Direction, Vec2D, MAX_HEALTH};
use crate::game::{Game, Snake};
use crate::grid::{Cell, CellT, Grid, MAX_DIM};
use crate::request::pad3;

verus! {

/// Whitespace as `char::is_whitespace` sees it: the characters with the
/// Unicode `White_Space` property.
pub open spec fn is_ws(c: char) -> bool {
    ('\u{9}' <= c <= '\u{d}') || c == ' ' || c == '\u{85}' || c == '\u{a0}' || c == '\u{1680}'
        || ('\u{2000}' <= c <= '\u{200a}') || c == '\u{2028}' || c == '\u{2029}' || c == '\u{202f}'
        || c == '\u{205f}' || c == '\u{3000}'
}

/// The digit character of `n < 10`.
pub open spec fn digit_char(n: int) -> char {
    if n == 0 {
        '0'
    } else if n == 1 {
        '1'
    } else if n == 2 {
        '2'
    } else if n == 3 {
        '3'
    } else if n == 4 {
        '4'
    } else if n == 5 {
        '5'
    } else if n == 6 {
        '6'
    } else if n == 7 {
        '7'
    } else if n == 8 {
        '8'
    } else {
        '9'
    }
}

/// Index of the first character at or after `i` that is no whitespace.
pub open spec fn lead(s: Seq<char>, i: int) -> int
    decreases s.len() - i,
{
    if 0 <= i < s.len() && is_ws(s[i]) {
        lead(s, i + 1)
    } else {
        i
    }
}

/// End of `s[..j]` once trailing whitespace after `a` is dropped.
pub open spec fn trail(s: Seq<char>, a: int, j: int) -> int
    decreases j - a,
{
    if a < j && j <= s.len() && is_ws(s[j - 1]) {
        trail(s, a, j - 1)
    } else {
        j
    }
}

/// `s` without leading and trailing whitespace.
pub open spec fn trimmed(s: Seq<char>) -> Seq<char> {
    let a = lead(s, 0);
    s.subrange(a, trail(s, a, s.len() as int))
}

/// Reading the first `n` characters of `t`: finished rows (first characters of each
/// token), the current row, and whether a token is open.
pub open spec fn scan(t: Seq<char>, n: nat) -> (Seq<Seq<char>>, Seq<char>, bool)
    decreases n,
{
    if n == 0 {
        (Seq::empty(), Seq::empty(), false)
    } else {
        let st = scan(t, (n - 1) as nat);
        let c = t[n - 1];
        if c == '\n' {
            (st.0.push(st.1), Seq::empty(), false)
        } else if is_ws(c) {
            (st.0, st.1, false)
        } else if st.2 {
            st
        } else {
            (st.0, st.1.push(c), true)
        }
    }
}

/// The rows of a trimmed text, top row first: none for an empty text.
pub open spec fn rows_of(t: Seq<char>) -> Seq<Seq<char>> {
    if t.len() == 0 {
        Seq::empty()
    } else {
        let st = scan(t, t.len());
        st.0.push(st.1)
    }
}

/// Rows `k..` concatenated from the last row back to row `k`.
pub open spec fn concat_from(rows: Seq<Seq<char>>, k: int) -> Seq<char>
    decreases rows.len() - k,
{
    if k >= rows.len() || k < 0 {
        Seq::empty()
    } else {
        concat_from(rows, k + 1) + rows[k]
    }
}

/// The cell tokens of a board text, bottom row first.
pub open spec fn raw_cells(s: Seq<char>) -> Seq<char> {
    concat_from(rows_of(trimmed(s)), 0)
}

/// Number of rows of a board text.
pub open spec fn board_height(s: Seq<char>) -> nat {
    rows_of(trimmed(s)).len()
}

/// The text describes a rectangular board that fits the coordinate range.
pub open spec fn well_formed_board(s: Seq<char>) -> bool {
    let rows = rows_of(trimmed(s));
    &&& rows.len() > 0
    &&& forall|k: int| 0 <= k < rows.len() ==> (#[trigger] rows[k]).len() == rows[0].len()
    &&& rows[0].len() <= MAX_DIM
    &&& rows.len() <= MAX_DIM
}

proof fn lemma_concat_len(rows: Seq<Seq<char>>, k: int, w: int)
    requires
        0 <= k <= rows.len(),
        forall|m: int| 0 <= m < rows.len() ==> (#[trigger] rows[m]).len() == w,
    ensures
        concat_from(rows, k).len() == (rows.len() - k) * w,
    decreases rows.len() - k,
{
    if k < rows.len() {
        lemma_concat_len(rows, k + 1, w);
        assert(rows[k].len() == w);
        assert(concat_from(rows, k) == concat_from(rows, k + 1) + rows[k]);
        let n = rows.len() as int;
        assert((n - (k + 1)) * w + w == (n - k) * w) by (nonlinear_arith);
        assert(concat_from(rows, k).len() == concat_from(rows, k + 1).len() + w);
    } else {
        assert((rows.len() as int - k) * w == 0 * w);
    }
}

/// The occupancy a token stands for.
pub open spec fn token_tag(c: char) -> CellT {
    if c == 'o' {
        CellT::Food
    } else if is_head_token(c) || arrow_dir(c) is Some {
        CellT::Owned
    } else {
        CellT::Free
    }
}

pub open spec fn is_head_token(c: char) -> bool {
    '0' <= c <= '9'
}

/// The direction an arrow token points to.
pub open spec fn arrow_dir(c: char) -> Option<Direction> {
    if c == '^' {
        Some(Direction::Up)
    } else if c == '>' {
        Some(Direction::Right)
    } else if c == 'v' {
        Some(Direction::Down)
    } else if c == '<' {
        Some(Direction::Left)
    } else {
        None
    }
}

/// The arrow token that points in direction `d`.
pub open spec fn arrow_of(d: Direction) -> char {
    match d {
        Direction::Up => '^',
        Direction::Right => '>',
        Direction::Down => 'v',
        Direction::Left => '<',
    }
}

/// Number of bodies in a board: the heads `0`, `1`, ... present in order.
pub open spec fn head_count(raw: Seq<char>, n: nat) -> nat
    decreases 10 - n,
{
    if n < 10 && raw.contains(digit_char(n as int)) {
        head_count(raw, n + 1)
    } else {
        n
    }
}

fn ws(c: char) -> (r: bool)
    ensures
        r == is_ws(c),
{
    ('\u{9}' <= c && c <= '\u{d}') || c == ' ' || c == '\u{85}' || c == '\u{a0}' || c == '\u{1680}'
        || ('\u{2000}' <= c && c <= '\u{200a}') || c == '\u{2028}' || c == '\u{2029}' || c == '\u{202f}'
        || c == '\u{205f}' || c == '\u{3000}'
}

fn digit(n: u8) -> (r: char)
    requires
        n < 10,
    ensures
        r == digit_char(n as int),
{
    if n == 0 {
        '0'
    } else if n == 1 {
        '1'
    } else if n == 2 {
        '2'
    } else if n == 3 {
        '3'
    } else if n == 4 {
        '4'
    } else if n == 5 {
        '5'
    } else if n == 6 {
        '6'
    } else if n == 7 {
        '7'
    } else if n == 8 {
        '8'
    } else {
        '9'
    }
}

fn arrow(d: Direction) -> (r: char)
    ensures
        r == arrow_of(d),
        arrow_dir(r) == Some(d),
{
    match d {
        Direction::Up => '^',
        Direction::Right => '>',
        Direction::Down => 'v',
        Direction::Left => '<',
    }
}

/// Bounds of `s` without surrounding whitespace.
/// The characters of `txt`.
fn text_chars(txt: &str) -> (r: Vec<char>)
    ensures
        r@ == txt@,
{
    let n = txt.unicode_len();
    let mut out: Vec<char> = Vec::new();
    let mut i: usize = 0;
    while i < n
        invariant
            n == txt@.len(),
            i <= n,
            out@ == txt@.subrange(0, i as int),
        decreases n - i,
    {
        let c = txt.get_char(i);
        out.push(c);
        proof {
            assert(out@ =~= txt@.subrange(0, i + 1));
        }
        i = i + 1;
    }
    proof {
        assert(txt@.subrange(0, n as int) =~= txt@);
    }
    out
}

fn trim_bounds(s: &[char]) -> (r: (usize, usize))
    ensures
        r.0 == lead(s@, 0),
        r.1 == trail(s@, r.0 as int, s@.len() as int),
        r.0 <= r.1 <= s@.len(),
{
    let mut a: usize = 0;
    while a < s.len() && ws(s[a])
        invariant
            a <= s@.len(),
            lead(s@, 0) == lead(s@, a as int),
        decreases s@.len() - a,
    {
        a = a + 1;
    }
    let mut b: usize = s.len();
    while b > a && ws(s[b - 1])
        invariant
            a <= b <= s@.len(),
            trail(s@, a as int, s@.len() as int) == trail(s@, a as int, b as int),
        decreases b,
    {
        b = b - 1;
    }
    (a, b)
}

/// The rows of `s[a..b]` as `rows_of` gives them.
fn split_rows(s: &[char], a: usize, b: usize) -> (r: Vec<Vec<char>>)
    requires
        a <= b <= s@.len(),
    ensures
        r@.len() == rows_of(s@.subrange(a as int, b as int)).len(),
        forall|k: int| 0 <= k < r@.len() ==> (#[trigger] r@[k])@ == rows_of(s@.subrange(a as int, b as int))[k],
{
    let ghost t = s@.subrange(a as int, b as int);
    let mut rows: Vec<Vec<char>> = Vec::new();
    if a == b {
        return rows;
    }
    let mut cur: Vec<char> = Vec::new();
    let mut open = false;
    let mut i: usize = a;
    while i < b
        invariant
            a <= i <= b <= s@.len(),
            t == s@.subrange(a as int, b as int),
            rows@.len() == scan(t, (i - a) as nat).0.len(),
            forall|k: int| 0 <= k < rows@.len() ==> (#[trigger] rows@[k])@ == scan(t, (i - a) as nat).0[k],
            cur@ == scan(t, (i - a) as nat).1,
            open == scan(t, (i - a) as nat).2,
        decreases b - i,
    {
        let c = s[i];
        assert(t[(i - a) as int] == c);
        if c == '\n' {
            let done = cur;
            rows.push(done);
            cur = Vec::new();
            open = false;
        } else if ws(c) {
            open = false;
        } else if !open {
            cur.push(c);
            open = true;
        }
        i = i + 1;
    }
    rows.push(cur);
    rows
}

/// Rows concatenated from the last one back to the first.
fn concat_rows(rows: &Vec<Vec<char>>, Ghost(spec_rows): Ghost<Seq<Seq<char>>>) -> (r: Vec<char>)
    requires
        rows@.len() == spec_rows.len(),
        forall|k: int| 0 <= k < rows@.len() ==> (#[trigger] rows@[k])@ == spec_rows[k],
    ensures
        r@ == concat_from(spec_rows, 0),
{
    let mut out: Vec<char> = Vec::new();
    let mut k: usize = rows.len();
    while k > 0
        invariant
            k <= rows@.len(),
            rows@.len() == spec_rows.len(),
            forall|m: int| 0 <= m < rows@.len() ==> (#[trigger] rows@[m])@ == spec_rows[m],
            out@ == concat_from(spec_rows, k as int),
        decreases k,
    {
        k = k - 1;
        let row = &rows[k];
        let mut j: usize = 0;
        let ghost base = out@;
        while j < row.len()
            invariant
                j <= row@.len(),
                out@ == base + row@.subrange(0, j as int),
            decreases row@.len() - j,
        {
            out.push(row[j]);
            proof {
                assert(row@.subrange(0, j + 1) =~= row@.subrange(0, j as int).push(row@[j as int]));
                assert(out@ =~= base + row@.subrange(0, j + 1));
            }
            j = j + 1;
        }
        proof {
            assert(row@.subrange(0, row@.len() as int) =~= row@);
        }
    }
    out
}

/// Position of the `i`-th raw cell on a board of width `w`.
pub open spec fn pos_of(i: int, w: int) -> Vec2D {
    Vec2D { x: (i % w) as i16, y: (i / w) as i16 }
}

pub(crate) fn position(i: usize, w: usize, h: usize) -> (r: Vec2D)
    requires
        0 < w <= MAX_DIM,
        h <= MAX_DIM,
        i < w * h,
    ensures
        r == pos_of(i as int, w as int),
        r.within_spec(w as int, h as int),
        r.y * w + r.x == i,
{
    assert(i / w < h) by (nonlinear_arith)
        requires
            0 < w,
            i < w * h,
    ;
    assert((i / w) * w + i % w == i) by (nonlinear_arith)
        requires
            0 < w,
    ;
    Vec2D { x: (i % w) as i16, y: (i / w) as i16 }
}

/// The grid a list of raw cells describes: no hazards.
fn board_grid(raw: &Vec<char>, width: usize, height: usize) -> (r: Grid)
    requires
        width <= MAX_DIM,
        0 < height <= MAX_DIM,
        raw@.len() == width * height,
    ensures
        r.wf(),
        r.width == width,
        r.height == height,
        forall|p: Vec2D|
            r.has_spec(p) ==> #[trigger] r.cell_at(p) == (Cell {
                t: token_tag(raw@[r.index_spec(p)]),
                hazard: false,
            }),
{
    let mut grid = Grid::new(width, height);
    let mut i: usize = 0;
    while i < raw.len()
        invariant
            grid.wf(),
            grid.width == width,
            grid.height == height,
            width <= MAX_DIM,
            0 < height <= MAX_DIM,
            raw@.len() == width * height,
            i <= raw@.len(),
            forall|p: Vec2D|
                grid.has_spec(p) ==> #[trigger] grid.cell_at(p) == if grid.index_spec(p) < i {
                    Cell { t: token_tag(raw@[grid.index_spec(p)]), hazard: false }
                } else {
                    Cell::new_spec()
                },
        decreases raw@.len() - i,
    {
        assert(width > 0) by (nonlinear_arith)
            requires
                i < width * height,
                0 < height,
                width >= 0,
        ;
        let p = position(i, width, height);
        let c = raw[i];
        let t = if c == 'o' {
            CellT::Food
        } else if ('0' <= c && c <= '9') || c == '^' || c == '>' || c == 'v' || c == '<' {
            CellT::Owned
        } else {
            CellT::Free
        };
        let ghost g0 = grid;
        grid.set(p, Cell::new(t, false));
        proof {
            assert forall|q: Vec2D| grid.has_spec(q) implies #[trigger] grid.cell_at(q) == if grid.index_spec(q) < i + 1 {
                Cell { t: token_tag(raw@[grid.index_spec(q)]), hazard: false }
            } else {
                Cell::new_spec()
            } by {
                if q != p {
                    g0.lemma_index_distinct(p, q);
                }
            }
        }
        i = i + 1;
    }
    proof {
        assert forall|p: Vec2D| grid.has_spec(p) implies #[trigger] grid.cell_at(p) == (Cell {
            t: token_tag(raw@[grid.index_spec(p)]),
            hazard: false,
        }) by {
            grid.lemma_index(p);
        }
    }
    grid
}

/// The first index of `c` in `raw`.
/// The neighbour of `p` whose arrow points back at `p`: the first such
/// among the directions from position `i` on, in the fixed order.
pub open spec fn link_from(raw: Seq<char>, w: int, h: int, p: Vec2D, i: int) -> Option<Vec2D>
    decreases 4 - i,
{
    if i < 0 || i >= 4 {
        None
    } else {
        let d = Direction::nth(i);
        let q = p.shifted(d);
        if q.within_spec(w, h) && raw[q.y * w + q.x] == arrow_of(d.inverse()) {
            Some(q)
        } else {
            link_from(raw, w, h, p, i + 1)
        }
    }
}

/// The segments reached from `p` by following arrows back for at most `n`
/// steps, tail first and ending at `p`.
pub open spec fn walk(raw: Seq<char>, w: int, h: int, p: Vec2D, n: nat) -> Seq<Vec2D>
    decreases n,
{
    if n == 0 {
        seq![p]
    } else {
        match link_from(raw, w, h, p, 0) {
            None => seq![p],
            Some(q) => walk(raw, w, h, q, (n - 1) as nat).push(p),
        }
    }
}

proof fn lemma_walk_step(raw: Seq<char>, w: int, h: int, p: Vec2D, k: nat)
    ensures
        walk(raw, w, h, p, k).len() >= 1,
        walk(raw, w, h, p, k).len() <= k + 1,
        walk(raw, w, h, p, k).last() == p,
        walk(raw, w, h, p, k).len() == k + 1 ==> walk(raw, w, h, p, k + 1) == match link_from(
            raw,
            w,
            h,
            walk(raw, w, h, p, k)[0],
            0,
        ) {
            None => walk(raw, w, h, p, k),
            Some(q) => seq![q] + walk(raw, w, h, p, k),
        },
        walk(raw, w, h, p, k).len() < k + 1 ==> walk(raw, w, h, p, k + 1) == walk(raw, w, h, p, k),
    decreases k,
{
    match link_from(raw, w, h, p, 0) {
        None => {},
        Some(q) => {
            if k == 0 {
                assert(walk(raw, w, h, q, 0) == seq![q]);
                assert(walk(raw, w, h, p, 1) =~= seq![q] + seq![p]);
            } else {
                lemma_walk_step(raw, w, h, q, (k - 1) as nat);
                let s = walk(raw, w, h, q, (k - 1) as nat);
                if s.len() == k {
                    match link_from(raw, w, h, s[0], 0) {
                        None => {},
                        Some(x) => {
                            assert((seq![x] + s).push(p) =~= seq![x] + s.push(p));
                        },
                    }
                    assert(s.push(p)[0] == s[0]);
                }
            }
        },
    }
}

proof fn lemma_walk_stable(raw: Seq<char>, w: int, h: int, p: Vec2D, k: nat, j: nat)
    requires
        walk(raw, w, h, p, k).len() < k + 1,
    ensures
        walk(raw, w, h, p, k + j) == walk(raw, w, h, p, k),
    decreases j,
{
    if j > 0 {
        lemma_walk_stable(raw, w, h, p, k, (j - 1) as nat);
        lemma_walk_step(raw, w, h, p, (k + j - 1) as nat);
    }
}

fn find_first(raw: &Vec<char>, c: char) -> (r: Option<usize>)
    ensures
        r is None <==> !raw@.contains(c),
        r is Some ==> r->Some_0 < raw@.len() && raw@[r->Some_0 as int] == c,
        r is Some ==> forall|m: int| 0 <= m < r->Some_0 ==> raw@[m] != c,
{
    let mut j: usize = 0;
    while j < raw.len()
        invariant
            j <= raw@.len(),
            forall|m: int| 0 <= m < j ==> raw@[m] != c,
        decreases raw@.len() - j,
    {
        if raw[j] == c {
            return Some(j);
        }
        j = j + 1;
    }
    None
}

/// A body's segments, `body[0]` the tail: consecutive segments are equal or
/// adjacent, and all lie on the board.
pub open spec fn linked(body: Seq<Vec2D>, w: int, h: int) -> bool {
    &&& forall|k: int| 0 <= k < body.len() ==> (#[trigger] body[k]).within_spec(w, h)
    &&& forall|k: int|
        0 <= k < body.len() - 1 ==> #[trigger] body[k] == body[k + 1] || body[k].adjacent(body[k + 1])
}

/// Follows the arrows that point towards the head at `head`, back to the
/// tail, and pads the body to three segments.
fn trace_body(raw: &Vec<char>, grid: &Grid, head: Vec2D) -> (r: VecDeque<Vec2D>)
    requires
        grid.wf(),
        0 < grid.width,
        raw@.len() == grid.width * grid.height,
        grid.has_spec(head),
    ensures
        r@.len() >= 3,
        r@.last() == head,
        linked(r@, grid.width as int, grid.height as int),
        r@ == pad3(walk(raw@, grid.width as int, grid.height as int, head, raw@.len())),
{
    let w = grid.width;
    let h = grid.height;
    let mut p = head;
    let mut body: VecDeque<Vec2D> = VecDeque::new();
    body.push_front(p);
    let mut fuel: usize = raw.len();
    let mut more = true;
    while more && fuel > 0
        invariant
            grid.wf(),
            w == grid.width,
            h == grid.height,
            raw@.len() == grid.width * grid.height,
            body@.len() >= 1,
            body@[0] == p,
            body@.last() == head,
            grid.has_spec(p),
            linked(body@, w as int, h as int),
            fuel <= raw@.len(),
            body@ == walk(raw@, w as int, h as int, head, (raw@.len() - fuel) as nat),
            more ==> body@.len() == raw@.len() - fuel + 1,
            !more ==> body@ == walk(raw@, w as int, h as int, head, raw@.len()),
        decreases fuel + if more { 1int } else { 0int },
    {
        let dirs = Direction::all();
        let mut k: usize = 0;
        let mut found = false;
        let mut next = p;
        while k < 4 && !found
            invariant
                grid.wf(),
                w == grid.width,
                h == grid.height,
                raw@.len() == grid.width * grid.height,
                grid.has_spec(p),
                k <= 4,
                found ==> grid.has_spec(next) && p.adjacent(next),
                found ==> link_from(raw@, w as int, h as int, p, 0) == Some(next),
                !found ==> link_from(raw@, w as int, h as int, p, 0) == link_from(raw@, w as int, h as int, p, k as int),
                forall|i: int| 0 <= i < 4 ==> #[trigger] dirs[i] == Direction::nth(i),
            decreases 4 - k + if found { 0int } else { 1int },
        {
            let d = dirs[k];
            let q = p.apply(d);
            if grid.has(q) {
                let qi = grid.index(q);
                if raw[qi] == arrow(d.invert()) {
                    next = q;
                    found = true;
                }
            }
            k = k + 1;
        }
        proof {
            lemma_walk_step(raw@, w as int, h as int, head, (raw@.len() - fuel) as nat);
        }
        if found {
            let ghost old_body = body@;
            p = next;
            body.push_front(p);
            proof {
                assert(body@ =~= seq![p] + old_body);
                assert(p.adjacent(old_body[0]));
                assert forall|k: int| 0 <= k < body@.len() - 1 implies #[trigger] body@[k] == body@[k + 1]
                    || body@[k].adjacent(body@[k + 1]) by {
                    if k == 0 {
                        assert(body@[1] == old_body[0]);
                    } else {
                        assert(body@[k] == old_body[k - 1]);
                        assert(body@[k + 1] == old_body[k]);
                    }
                }
            }
            fuel = fuel - 1;
        } else {
            proof {
                let k = (raw@.len() - fuel) as nat;
                lemma_walk_step(raw@, w as int, h as int, head, k + 1);
                lemma_walk_stable(raw@, w as int, h as int, head, k + 1, (raw@.len() - k - 1) as nat);
            }
            more = false;
        }
    }
    let ghost chain = body@;
    proof {
        assert(chain == walk(raw@, w as int, h as int, head, raw@.len()));
    }
    while body.len() < 3
        invariant
            body@.len() >= 1,
            body@.last() == head,
            linked(body@, w as int, h as int),
            pad3(body@) == pad3(chain),
        decreases 3 - body@.len(),
    {
        let t = body[0];
        let ghost old_body = body@;
        body.push_front(t);
        proof {
            assert forall|k: int| 0 <= k < body@.len() - 1 implies #[trigger] body@[k] == body@[k + 1]
                || body@[k].adjacent(body@[k + 1]) by {
                if k == 0 {
                    assert(body@[1] == old_body[0]);
                } else {
                    assert(body@[k] == old_body[k - 1]);
                    assert(body@[k + 1] == old_body[k]);
                }
            }
        }
    }
    body
}

/// One body for each head `0`, `1`, ... present in order.
fn trace_bodies(raw: &Vec<char>, grid: &Grid) -> (r: Vec<Snake>)
    requires
        grid.wf(),
        raw@.len() == grid.width * grid.height,
    ensures
        r@.len() == head_count(raw@, 0),
        r@.len() <= 10,
        forall|i: int|
            0 <= i < r@.len() ==> {
                let s = #[trigger] r@[i];
                &&& s.health == MAX_HEALTH
                &&& s.body@.len() >= 3
                &&& linked(s.body@, grid.width as int, grid.height as int)
                &&& raw@[grid.index_spec(s.head_spec())] == digit_char(i)
                &&& forall|m: int| 0 <= m < grid.index_spec(s.head_spec()) ==> raw@[m] != digit_char(i)
                &&& s.body@ == pad3(walk(raw@, grid.width as int, grid.height as int, s.head_spec(), raw@.len()))
            },
{
    let mut snakes: Vec<Snake> = Vec::new();
    let mut d: u8 = 0;
    let mut stop = false;
    while d < 10 && !stop
        invariant
            grid.wf(),
            raw@.len() == grid.width * grid.height,
            d <= 10,
            snakes@.len() == d,
            !stop ==> head_count(raw@, 0) == head_count(raw@, d as nat),
            stop ==> head_count(raw@, 0) == d,
            forall|i: int|
                0 <= i < snakes@.len() ==> {
                    let s = #[trigger] snakes@[i];
                    &&& s.health == MAX_HEALTH
                    &&& s.body@.len() >= 3
                    &&& linked(s.body@, grid.width as int, grid.height as int)
                    &&& raw@[grid.index_spec(s.head_spec())] == digit_char(i)
                    &&& forall|m: int| 0 <= m < grid.index_spec(s.head_spec()) ==> raw@[m] != digit_char(i)
                    &&& s.body@ == pad3(walk(raw@, grid.width as int, grid.height as int, s.head_spec(), raw@.len()))
                },
        decreases 10 - d + if stop { 0int } else { 1int },
    {
        match find_first(raw, digit(d)) {
            Some(pos) => {
                assert(grid.width > 0) by (nonlinear_arith)
                    requires
                        pos < grid.width * grid.height,
                        grid.width >= 0,
                        grid.height >= 0,
                ;
                let head = position(pos, grid.width, grid.height);
                let body = trace_body(raw, grid, head);
                snakes.push(Snake::new(body, MAX_HEALTH));
                d = d + 1;
            },
            None => {
                stop = true;
            },
        }
    }
    snakes
}

impl Game {
    /// Parses a board written in the textual notation. Every body gets
    /// health 100 and is padded at its tail to at least three segments.
    /// Returns `None` when the rows do not form a rectangle.
    pub fn parse(txt: &str) -> (r: Option<Game>)
        ensures
            r is None <==> !well_formed_board(txt@),
            r is Some ==> ({
                let g = r->Some_0;
                let raw = raw_cells(txt@);
                &&& g.wf()
                &&& g.turn == 0
                &&& g.grid.height == board_height(txt@)
                &&& g.grid.width * g.grid.height == raw.len()
                &&& forall|p: Vec2D|
                    g.grid.has_spec(p) ==> #[trigger] g.grid.cell_at(p) == (Cell {
                        t: token_tag(raw[g.grid.index_spec(p)]),
                        hazard: false,
                    })
                &&& forall|i: int|
                    0 <= i < g.snakes@.len() ==> linked(
                        (#[trigger] g.snakes@[i]).body@,
                        g.grid.width as int,
                        g.grid.height as int,
                    )
                &&& g.snakes@.len() == head_count(raw, 0)
                &&& forall|i: int|
                    0 <= i < g.snakes@.len() ==> {
                        let s = #[trigger] g.snakes@[i];
                        &&& s.health == MAX_HEALTH
                        &&& s.body@.len() >= 3
                        &&& raw[g.grid.index_spec(s.head_spec())] == digit_char(i)
                        &&& forall|m: int| 0 <= m < g.grid.index_spec(s.head_spec()) ==> raw[m] != digit_char(i)
                        &&& s.body@ == pad3(walk(raw, g.grid.width as int, g.grid.height as int, s.head_spec(), raw.len()))
                    }
            }),
    {
        let chars = text_chars(txt);
        let (a, b) = trim_bounds(chars.as_slice());
        let rows = split_rows(chars.as_slice(), a, b);
        let ghost srows = rows_of(chars@.subrange(a as int, b as int));
        proof {
            assert(chars@.subrange(a as int, b as int) == trimmed(txt@));
        }
        let height = rows.len();
        if height == 0 {
            return None;
        }
        let width = rows[0].len();
        let mut k: usize = 0;
        while k < height
            invariant
                height == rows@.len(),
                height > 0,
                rows@.len() == srows.len(),
                forall|m: int| 0 <= m < rows@.len() ==> (#[trigger] rows@[m])@ == srows[m],
                srows == rows_of(trimmed(txt@)),
                width == rows@[0]@.len(),
                k <= height,
                forall|m: int| 0 <= m < k ==> (#[trigger] rows@[m])@.len() == width,
            decreases height - k,
        {
            if rows[k].len() != width {
                proof {
                    assert(srows[k as int].len() != srows[0].len());
                }
                return None;
            }
            k = k + 1;
        }
        if width > MAX_DIM || height > MAX_DIM {
            return None;
        }
        let raw = concat_rows(&rows, Ghost(srows));
        proof {
            assert forall|m: int| 0 <= m < srows.len() implies (#[trigger] srows[m]).len() == width by {
                assert(rows@[m]@ == srows[m]);
            }
            lemma_concat_len(srows, 0, width as int);
        }
        let grid = board_grid(&raw, width, height);
        let snakes = trace_bodies(&raw, &grid);
        Some(Game { turn: 0, grid, snakes })
    }
}

} // verus!
