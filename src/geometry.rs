//! Integer plane geometry: points and axis-aligned rectangles.
//!
//! Coordinates are `i32`; every derived quantity (centers, widths) is
//! computed in `i64`, so no operation here can overflow.
use vstd::prelude::*;

verus! {

/// A point (or displacement) in the plane.
#[derive(Debug, Clone, Copy, PartialEq, Eq, Structural)]
pub struct Vec2D {
    pub x: i32,
    pub y: i32,
}

impl Vec2D {
    pub fn new(x: i32, y: i32) -> (r: Self)
        ensures
            r.x == x,
            r.y == y,
    {
        Vec2D { x, y }
    }

    pub fn new_zero() -> (r: Self)
        ensures
            r.x == 0,
            r.y == 0,
    {
        Vec2D { x: 0, y: 0 }
    }

    pub fn new_one() -> (r: Self)
        ensures
            r.x == 1,
            r.y == 1,
    {
        Vec2D { x: 1, y: 1 }
    }

    /// Whether the point lies in the box with lower corner `pos` and side
    /// lengths `dim`, edges included.
    pub open spec fn in_bounds_spec(self, pos: Vec2D, dim: Vec2D) -> bool {
        pos.x <= self.x <= pos.x + dim.x && pos.y <= self.y <= pos.y + dim.y
    }

    pub fn is_in_bounds(&self, pos: Vec2D, dim: Vec2D) -> (r: bool)
        ensures
            r == self.in_bounds_spec(pos, dim),
    {
        let (x, y) = (self.x as i64, self.y as i64);
        x >= pos.x as i64 && x <= pos.x as i64 + dim.x as i64 && y >= pos.y as i64 && y
            <= pos.y as i64 + dim.y as i64
    }

    /// Quadrant of the point in the box with lower corner `pos` and side
    /// lengths `dim`, split at its exact midpoint and numbered as in
    /// `Rect::quadrant_spec`.
    pub open spec fn bounds_quadrant_spec(self, pos: Vec2D, dim: Vec2D) -> int {
        let hx = if 2 * self.x < 2 * pos.x + dim.x {
            0int
        } else {
            1int
        };
        let hy = if 2 * self.y <= 2 * pos.y + dim.y {
            0int
        } else {
            1int
        };
        2 - 2 * hy + hx
    }

    pub fn get_bounds_quadrant(&self, pos: Vec2D, dim: Vec2D) -> (r: usize)
        ensures
            r as int == self.bounds_quadrant_spec(pos, dim),
            r < 4,
    {
        let hx: usize = if 2 * (self.x as i64) < 2 * (pos.x as i64) + dim.x as i64 {
            0
        } else {
            1
        };
        let hy: usize = if 2 * (self.y as i64) <= 2 * (pos.y as i64) + dim.y as i64 {
            0
        } else {
            1
        };
        2 - 2 * hy + hx
    }

    /// Whether two boxes, each given by its lower corner and side lengths,
    /// overlap with positive area on both axes.
    pub open spec fn boxes_intersect_spec(pos_1: Vec2D, dim_1: Vec2D, pos_2: Vec2D, dim_2: Vec2D) -> bool {
        &&& pos_1.x + dim_1.x > pos_2.x
        &&& pos_1.x < pos_2.x + dim_2.x
        &&& pos_1.y + dim_1.y > pos_2.y
        &&& pos_1.y < pos_2.y + dim_2.y
    }

    pub fn intersects(pos_1: Vec2D, dim_1: Vec2D, pos_2: Vec2D, dim_2: Vec2D) -> (r: bool)
        ensures
            r == Self::boxes_intersect_spec(pos_1, dim_1, pos_2, dim_2),
    {
        let x_overlap = (pos_1.x as i64 + dim_1.x as i64 > pos_2.x as i64) && ((pos_1.x as i64)
            < pos_2.x as i64 + dim_2.x as i64);
        let y_overlap = (pos_1.y as i64 + dim_1.y as i64 > pos_2.y as i64) && ((pos_1.y as i64)
            < pos_2.y as i64 + dim_2.y as i64);
        x_overlap && y_overlap
    }
}

/// An axis-aligned rectangle given by its lower-left corner `bl` and its
/// upper-right corner `tr`. Rectangles built by `Rect::new` satisfy `wf`.
#[derive(Debug, Clone, Copy, PartialEq, Eq, Structural)]
pub struct Rect {
    pub bl: Vec2D,
    pub tr: Vec2D,
}

/// Half of the magnitude of a side length, rounded down.
pub open spec fn half_side(v: int) -> int {
    if v < 0 {
        (-v) / 2
    } else {
        v / 2
    }
}

pub open spec fn min_i(a: int, b: int) -> int {
    if a <= b {
        a
    } else {
        b
    }
}

pub open spec fn max_i(a: int, b: int) -> int {
    if a <= b {
        b
    } else {
        a
    }
}

impl Rect {
    /// The corners are ordered: `bl` is below and left of `tr`.
    pub open spec fn wf(self) -> bool {
        self.bl.x <= self.tr.x && self.bl.y <= self.tr.y
    }

    pub open spec fn width_spec(self) -> int {
        self.tr.x - self.bl.x
    }

    pub open spec fn height_spec(self) -> int {
        self.tr.y - self.bl.y
    }

    /// Center, rounded down on each axis.
    pub open spec fn cx(self) -> int {
        self.bl.x + (self.tr.x - self.bl.x) / 2
    }

    pub open spec fn cy(self) -> int {
        self.bl.y + (self.tr.y - self.bl.y) / 2
    }

    /// Containment, inclusive on all four edges.
    pub open spec fn contains_spec(self, p: Vec2D) -> bool {
        self.bl.x <= p.x <= self.tr.x && self.bl.y <= p.y <= self.tr.y
    }

    /// Overlap, where touching edges count as overlapping.
    pub open spec fn intersects_spec(self, o: Rect) -> bool {
        !(self.bl.x > o.tr.x || o.bl.x > self.tr.x || self.bl.y > o.tr.y || o.bl.y > self.tr.y)
    }

    /// `self` lies inside `o`.
    pub open spec fn within(self, o: Rect) -> bool {
        o.bl.x <= self.bl.x && self.tr.x <= o.tr.x && o.bl.y <= self.bl.y && self.tr.y <= o.tr.y
    }

    /// Quadrant of `p` relative to the center: upper-left 0, upper-right 1,
    /// lower-left 2, lower-right 3. A point on the horizontal center line
    /// counts as lower, one on the vertical center line as right.
    pub open spec fn quadrant_spec(self, p: Vec2D) -> int {
        let hx = if p.x < self.cx() {
            0int
        } else {
            1int
        };
        let hy = if p.y <= self.cy() {
            0int
        } else {
            1int
        };
        2 - 2 * hy + hx
    }

    pub open spec fn mk(blx: int, bly: int, trx: int, try_: int) -> Rect {
        Rect { bl: Vec2D { x: blx as i32, y: bly as i32 }, tr: Vec2D { x: trx as i32, y: try_ as i32 } }
    }

    /// The `i`-th quarter, numbered as the quadrants.
    pub open spec fn quarter_spec(self, i: int) -> Rect {
        if i == 0 {
            Rect::mk(self.bl.x as int, self.cy(), self.cx(), self.tr.y as int)
        } else if i == 1 {
            Rect::mk(self.cx(), self.cy(), self.tr.x as int, self.tr.y as int)
        } else if i == 2 {
            Rect::mk(self.bl.x as int, self.bl.y as int, self.cx(), self.cy())
        } else {
            Rect::mk(self.cx(), self.bl.y as int, self.tr.x as int, self.cy())
        }
    }

    /// Builds the rectangle spanned by two opposite corners given in any
    /// order.
    pub fn new(corner1: Vec2D, corner2: Vec2D) -> (r: Self)
        ensures
            r.wf(),
            r.bl.x == min_i(corner1.x as int, corner2.x as int),
            r.bl.y == min_i(corner1.y as int, corner2.y as int),
            r.tr.x == max_i(corner1.x as int, corner2.x as int),
            r.tr.y == max_i(corner1.y as int, corner2.y as int),
    {
        let (min_x, max_x) = if corner1.x <= corner2.x {
            (corner1.x, corner2.x)
        } else {
            (corner2.x, corner1.x)
        };
        let (min_y, max_y) = if corner1.y <= corner2.y {
            (corner1.y, corner2.y)
        } else {
            (corner2.y, corner1.y)
        };
        Rect { bl: Vec2D { x: min_x, y: min_y }, tr: Vec2D { x: max_x, y: max_y } }
    }

    /// Builds the rectangle with the given center and side lengths; the
    /// sign of a side length is ignored, and an odd one is rounded down to
    /// the even length below it.
    pub fn new_centered(center: Vec2D, side_lengths: Vec2D) -> (r: Self)
        requires
            i32::MIN <= center.x - half_side(side_lengths.x as int),
            center.x + half_side(side_lengths.x as int) <= i32::MAX,
            i32::MIN <= center.y - half_side(side_lengths.y as int),
            center.y + half_side(side_lengths.y as int) <= i32::MAX,
        ensures
            r.wf(),
            r.bl.x == center.x - half_side(side_lengths.x as int),
            r.tr.x == center.x + half_side(side_lengths.x as int),
            r.bl.y == center.y - half_side(side_lengths.y as int),
            r.tr.y == center.y + half_side(side_lengths.y as int),
    {
        let sx = side_lengths.x as i64;
        let sy = side_lengths.y as i64;
        let hx = (if sx < 0 { -sx } else { sx }) / 2;
        let hy = (if sy < 0 { -sy } else { sy }) / 2;
        let cx = center.x as i64;
        let cy = center.y as i64;
        Self::new(
            Vec2D::new((cx - hx) as i32, (cy - hy) as i32),
            Vec2D::new((cx + hx) as i32, (cy + hy) as i32),
        )
    }

    pub fn center(&self) -> (r: Vec2D)
        requires
            self.wf(),
        ensures
            r.x == self.cx(),
            r.y == self.cy(),
    {
        let cx = self.bl.x as i64 + (self.tr.x as i64 - self.bl.x as i64) / 2;
        let cy = self.bl.y as i64 + (self.tr.y as i64 - self.bl.y as i64) / 2;
        Vec2D { x: cx as i32, y: cy as i32 }
    }

    pub fn contains(&self, point: Vec2D) -> (r: bool)
        ensures
            r == self.contains_spec(point),
    {
        point.x >= self.bl.x && point.x <= self.tr.x && point.y >= self.bl.y && point.y <= self.tr.y
    }

    pub fn intersects(&self, other: Rect) -> (r: bool)
        ensures
            r == self.intersects_spec(other),
    {
        !(self.bl.x > other.tr.x || other.bl.x > self.tr.x || self.bl.y > other.tr.y || other.bl.y
            > self.tr.y)
    }

    pub fn get_quadrant(&self, point: Vec2D) -> (r: usize)
        requires
            self.wf(),
        ensures
            r as int == self.quadrant_spec(point),
            r < 4,
    {
        let center = self.center();
        let hx: usize = if point.x < center.x {
            0
        } else {
            1
        };
        let hy: usize = if point.y <= center.y {
            0
        } else {
            1
        };
        2 - 2 * hy + hx
    }

    pub fn get_width(&self) -> (r: i64)
        ensures
            r == self.width_spec(),
    {
        self.tr.x as i64 - self.bl.x as i64
    }

    pub fn get_height(&self) -> (r: i64)
        ensures
            r == self.height_spec(),
    {
        self.tr.y as i64 - self.bl.y as i64
    }

    /// The four quarters obtained by bisecting both axes at the center,
    /// indexed by quadrant number. Neighbouring quarters share their edges.
    pub fn quarter(&self) -> (r: [Rect; 4])
        requires
            self.wf(),
        ensures
            forall|i: int| 0 <= i < 4 ==> #[trigger] r[i] == self.quarter_spec(i),
    {
        let c = self.center();
        [
            Rect { bl: Vec2D { x: self.bl.x, y: c.y }, tr: Vec2D { x: c.x, y: self.tr.y } },
            Rect { bl: c, tr: self.tr },
            Rect { bl: self.bl, tr: c },
            Rect { bl: Vec2D { x: c.x, y: self.bl.y }, tr: Vec2D { x: self.tr.x, y: c.y } },
        ]
    }
}

/// Each quarter of a well-formed rectangle is well formed and lies inside
/// it; a point of the rectangle lies in the quarter named by its quadrant;
/// and quarters of a rectangle at least two units wide are strictly
/// narrower than it.
pub proof fn lemma_quarters(r: Rect, p: Vec2D)
    requires
        r.wf(),
    ensures
        forall|i: int| 0 <= i < 4 ==> (#[trigger] r.quarter_spec(i)).wf() && r.quarter_spec(i).within(r),
        forall|i: int| 0 <= i < 4 && r.width_spec() >= 2 ==> 0 <= (#[trigger] r.quarter_spec(i)).width_spec() < r.width_spec(),
        0 <= r.quadrant_spec(p) < 4,
        r.contains_spec(p) ==> r.quarter_spec(r.quadrant_spec(p)).contains_spec(p),
{
}

} // verus!
