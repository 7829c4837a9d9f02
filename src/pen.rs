//! The ghost pen: its placement in the grid and membership tests.
use crate::grid::Pos;
use vstd::prelude::*;

verus! {

/// Widest and tallest pen, wall ring included.
pub const PEN_W: usize = 9;
pub const PEN_H: usize = 5;

/// The inclusive rectangle `(x0, y0)`-`(x1, y1)` of the pen, wall ring and
/// gate included.
#[derive(Clone, Copy, Debug, PartialEq, Eq, Structural)]
pub struct PenBounds {
    pub x0: usize,
    pub y0: usize,
    pub x1: usize,
    pub y1: usize,
}

/// The pen's extent along one axis of length `dim`: at most `cap` and at most
/// `dim - 2`, odd, and never under 3.
pub open spec fn pen_extent(dim: int, cap: int) -> int {
    let a = if cap < dim - 2 { cap } else { dim - 2 };
    let b = if a % 2 == 0 { if a > 0 { a - 1 } else { 0 } } else { a };
    if b < 3 { 3 } else { b }
}

/// The pen of a `w` x `h` grid, centred.
pub open spec fn pen_of(w: int, h: int) -> PenBounds {
    let pw = pen_extent(w, PEN_W as int);
    let ph = pen_extent(h, PEN_H as int);
    let x0 = (w - pw) / 2;
    let y0 = (h - ph) / 2;
    PenBounds { x0: x0 as usize, y0: y0 as usize, x1: (x0 + pw - 1) as usize, y1: (y0 + ph - 1) as usize }
}

/// In a grid of odd sides, at least 5 x 5, the pen lies off the outer ring;
/// from 9 tall on with at least two rows above it, from 13 wide on with at
/// least two columns left of it.
pub proof fn lemma_pen_fits(w: int, h: int)
    requires
        w % 2 == 1,
        h % 2 == 1,
        5 <= w <= usize::MAX,
        5 <= h <= usize::MAX,
    ensures
        1 <= pen_of(w, h).x0,
        pen_of(w, h).x0 + 2 <= pen_of(w, h).x1,
        pen_of(w, h).x1 <= w - 2,
        1 <= pen_of(w, h).y0,
        h >= 9 ==> 2 <= pen_of(w, h).y0,
        pen_of(w, h).y0 + 2 <= pen_of(w, h).y1,
        pen_of(w, h).y1 <= h - 2,
        w >= 13 ==> 2 <= pen_of(w, h).x0,
        pen_of(w, h).x0 < (pen_of(w, h).x0 + pen_of(w, h).x1) / 2 < pen_of(w, h).x1,
{
    let pw = pen_extent(w, PEN_W as int);
    let ph = pen_extent(h, PEN_H as int);
    assert(3 <= pw <= w - 2);
    assert(3 <= ph <= h - 2);
    assert(h >= 9 ==> ph == 5);
}

/// Columns of the pen's interior.
pub open spec fn inner_w(pen: PenBounds) -> int {
    pen.x1 - pen.x0 - 1
}

/// Rows of the pen's interior.
pub open spec fn inner_h(pen: PenBounds) -> int {
    pen.y1 - pen.y0 - 1
}

/// The `j`-th tile of the pen's interior in row-major order.
pub open spec fn pen_cell(pen: PenBounds, j: int) -> Pos {
    Pos { x: (pen.x0 + 1 + j % inner_w(pen)) as usize, y: (pen.y0 + 1 + j / inner_w(pen)) as usize }
}

impl PenBounds {
    /// Inside the rectangle, ring included.
    pub open spec fn holds(self, x: int, y: int) -> bool {
        self.x0 <= x <= self.x1 && self.y0 <= y <= self.y1
    }

    /// Strictly inside the ring.
    pub open spec fn interior(self, x: int, y: int) -> bool {
        self.x0 < x < self.x1 && self.y0 < y < self.y1
    }

    /// On the ring.
    pub open spec fn ring(self, x: int, y: int) -> bool {
        self.holds(x, y) && !self.interior(x, y)
    }
}

fn odd_extent(dim: usize, cap: usize) -> (r: usize)
    requires
        dim >= 3,
    ensures
        r == pen_extent(dim as int, cap as int),
{
    let mut a = if cap < dim - 2 { cap } else { dim - 2 };
    if a % 2 == 0 {
        a = a.saturating_sub(1);
    }
    if a < 3 { 3 } else { a }
}

/// The pen of a `width` x `height` grid: at most `PEN_W` x `PEN_H`, odd in
/// both directions, at least 3 x 3, centred.
pub fn pen_bounds(width: usize, height: usize) -> (r: PenBounds)
    requires
        width >= 3,
        height >= 3,
    ensures
        r == pen_of(width as int, height as int),
{
    let pen_w = odd_extent(width, PEN_W);
    let pen_h = odd_extent(height, PEN_H);
    let x0 = (width - pen_w) / 2;
    let y0 = (height - pen_h) / 2;
    PenBounds { x0, y0, x1: x0 + pen_w - 1, y1: y0 + pen_h - 1 }
}

/// Whether `pos` lies in the pen (ring included) of a `width` x `height` grid.
pub fn is_in_pen(pos: Pos, width: usize, height: usize) -> (r: bool)
    requires
        width >= 3,
        height >= 3,
    ensures
        r == pen_of(width as int, height as int).holds(pos.x as int, pos.y as int),
{
    let pen = pen_bounds(width, height);
    pos.x >= pen.x0 && pos.x <= pen.x1 && pos.y >= pen.y0 && pos.y <= pen.y1
}

/// Whether `pos` lies in `pen`, ring included.
pub fn is_in_pen_bounds(pos: Pos, pen: &PenBounds) -> (r: bool)
    ensures
        r == pen.holds(pos.x as int, pos.y as int),
{
    pos.x >= pen.x0 && pos.x <= pen.x1 && pos.y >= pen.y0 && pos.y <= pen.y1
}

/// Whether `pos` lies strictly inside the ring of `pen`.
pub fn in_pen_interior(pos: Pos, pen: &PenBounds) -> (r: bool)
    ensures
        r == pen.interior(pos.x as int, pos.y as int),
{
    pos.x > pen.x0 && pos.x < pen.x1 && pos.y > pen.y0 && pos.y < pen.y1
}

/// Whether `pos` lies on the ring of `pen`.
pub fn is_pen_wall(pos: Pos, pen: &PenBounds) -> (r: bool)
    requires
        pen.x0 <= pen.x1,
        pen.y0 <= pen.y1,
    ensures
        r == pen.ring(pos.x as int, pos.y as int),
{
    (pos.x >= pen.x0 && pos.x <= pen.x1 && (pos.y == pen.y0 || pos.y == pen.y1)) || (pos.y
        >= pen.y0 && pos.y <= pen.y1 && (pos.x == pen.x0 || pos.x == pen.x1))
}

} // verus!
