//! Axis-aligned rectangles: the spatial extent of a tree node and the shape
//! of a rectangular query region.

use vstd::prelude::*;

use crate::point::{in_circle, squared_distance, Point};

verus! {

/// Why a request was rejected.
#[derive(Clone, Copy, PartialEq, Eq, Structural, Debug)]
pub enum QuadTreeError {
    /// A boundary was requested with `left > right` or `top > bottom`.
    MalformedBoundary,
    /// A point outside the root boundary was handed to `insert`.
    OutOfBoundsInsert,
}

/// The mathematical value of a boundary: a closed axis-aligned rectangle
/// `[left, right] x [top, bottom]`.
#[verifier::ext_equal]
pub struct Rect {
    pub left: int,
    pub top: int,
    pub right: int,
    pub bottom: int,
}

/// `v` clamped into the closed interval `[lo, hi]`.
pub open spec fn clamp(v: int, lo: int, hi: int) -> int {
    if v < lo {
        lo
    } else if v > hi {
        hi
    } else {
        v
    }
}

impl Rect {
    /// The rectangle is non-degenerate: both closed intervals are non-empty.
    pub open spec fn wf(self) -> bool {
        self.left <= self.right && self.top <= self.bottom
    }

    /// Closed containment: points exactly on an edge are inside.
    pub open spec fn contains(self, p: Point) -> bool {
        self.left <= p.x as int && p.x as int <= self.right && self.top <= p.y as int && p.y
            as int <= self.bottom
    }

    /// Closed overlap of two rectangles: touching edges count as overlap.
    pub open spec fn intersects(self, other: Rect) -> bool {
        self.left <= other.right && other.left <= self.right && self.top <= other.bottom
            && other.top <= self.bottom
    }

    /// The closed disk of radius `r` around `(cx, cy)` meets the rectangle:
    /// the nearest rectangle point to the centre lies within the disk.
    pub open spec fn overlaps_circle(self, cx: int, cy: int, r: int) -> bool {
        squared_distance(
            clamp(cx, self.left, self.right),
            clamp(cy, self.top, self.bottom),
            cx,
            cy,
        ) <= r * r
    }

    /// Horizontal midpoint, rounding towards `left`.
    pub open spec fn mid_x(self) -> int {
        self.left + (self.right - self.left) / 2
    }

    /// Vertical midpoint, rounding towards `top`.
    pub open spec fn mid_y(self) -> int {
        self.top + (self.bottom - self.top) / 2
    }

    /// The top-left quadrant after subdivision at the midpoint.
    pub open spec fn top_left_quad(self) -> Rect {
        Rect { left: self.left, top: self.top, right: self.mid_x(), bottom: self.mid_y() }
    }

    /// The top-right quadrant after subdivision at the midpoint.
    pub open spec fn top_right_quad(self) -> Rect {
        Rect { left: self.mid_x(), top: self.top, right: self.right, bottom: self.mid_y() }
    }

    /// The bottom-left quadrant after subdivision at the midpoint.
    pub open spec fn bottom_left_quad(self) -> Rect {
        Rect { left: self.left, top: self.mid_y(), right: self.mid_x(), bottom: self.bottom }
    }

    /// The bottom-right quadrant after subdivision at the midpoint.
    pub open spec fn bottom_right_quad(self) -> Rect {
        Rect { left: self.mid_x(), top: self.mid_y(), right: self.right, bottom: self.bottom }
    }
}

/// An axis-aligned rectangle held as four `i32` coordinates, plus a
/// transient marker recording whether the last radius lookup visited the
/// node owning this boundary. The marker is a visualization aid only; the
/// abstract value of a boundary, [`Rect`], does not include it.
#[derive(Clone, Copy, Debug)]
pub struct QuadTreeBoundary {
    left_x: i32,
    top_y: i32,
    right_x: i32,
    bottom_y: i32,
    been_searched: bool,
}

impl View for QuadTreeBoundary {
    type V = Rect;

    closed spec fn view(&self) -> Rect {
        Rect {
            left: self.left_x as int,
            top: self.top_y as int,
            right: self.right_x as int,
            bottom: self.bottom_y as int,
        }
    }
}

impl QuadTreeBoundary {
    /// Whether the last radius lookup with marking enabled visited this
    /// boundary's node.
    pub closed spec fn spec_searched(self) -> bool {
        self.been_searched
    }

    /// A boundary spanning `[left_x, right_x] x [top_y, bottom_y]`.
    pub fn new(left_x: i32, top_y: i32, right_x: i32, bottom_y: i32) -> (b: Self)
        requires
            left_x <= right_x,
            top_y <= bottom_y,
        ensures
            b@ == (Rect {
                left: left_x as int,
                top: top_y as int,
                right: right_x as int,
                bottom: bottom_y as int,
            }),
            b@.wf(),
            !b.spec_searched(),
    {
        Self { left_x, top_y, right_x, bottom_y, been_searched: false }
    }

    /// Checked construction: rejects a malformed rectangle instead of
    /// requiring the caller to have validated it.
    pub fn try_new(left_x: i32, top_y: i32, right_x: i32, bottom_y: i32) -> (res: Result<
        Self,
        QuadTreeError,
    >)
        ensures
            left_x <= right_x && top_y <= bottom_y <==> res is Ok,
            res matches Ok(b) ==> b@ == (Rect {
                left: left_x as int,
                top: top_y as int,
                right: right_x as int,
                bottom: bottom_y as int,
            }) && b@.wf() && !b.spec_searched(),
            res matches Err(e) ==> e == QuadTreeError::MalformedBoundary,
    {
        if left_x <= right_x && top_y <= bottom_y {
            Ok(Self::new(left_x, top_y, right_x, bottom_y))
        } else {
            Err(QuadTreeError::MalformedBoundary)
        }
    }

    /// Closed containment test; pure, its result is a function of the
    /// boundary and the point alone.
    pub fn contains(&self, point: &Point) -> (res: bool)
        ensures
            res == self@.contains(*point),
    {
        point.x >= self.left_x && point.x <= self.right_x && point.y >= self.top_y && point.y
            <= self.bottom_y
    }

    /// Closed rectangle-overlap test; pure, its result is a function of the
    /// two boundaries alone.
    pub fn intersects(&self, other: &Self) -> (res: bool)
        ensures
            res == self@.intersects(other@),
    {
        self.left_x <= other.right_x && other.left_x <= self.right_x && self.top_y
            <= other.bottom_y && other.top_y <= self.bottom_y
    }

    /// Closed disk-overlap test, via the squared distance from the centre to
    /// the nearest point of the rectangle.
    pub fn overlaps(&self, x: i32, y: i32, r: i32) -> (res: bool)
        ensures
            res == self@.overlaps_circle(x as int, y as int, r as int),
    {
        let nearest_x: i32 = if x < self.left_x {
            self.left_x
        } else if x > self.right_x {
            self.right_x
        } else {
            x
        };
        let nearest_y: i32 = if y < self.top_y {
            self.top_y
        } else if y > self.bottom_y {
            self.bottom_y
        } else {
            y
        };
        crate::point::point_in_circle(Point { x: nearest_x, y: nearest_y }, x, y, r)
    }

    /// Left edge.
    pub fn left(&self) -> (v: i32)
        ensures
            v as int == self@.left,
    {
        self.left_x
    }

    /// Top edge.
    pub fn top(&self) -> (v: i32)
        ensures
            v as int == self@.top,
    {
        self.top_y
    }

    /// Right edge.
    pub fn right(&self) -> (v: i32)
        ensures
            v as int == self@.right,
    {
        self.right_x
    }

    /// Bottom edge.
    pub fn bottom(&self) -> (v: i32)
        ensures
            v as int == self@.bottom,
    {
        self.bottom_y
    }

    /// Whether the last marking lookup visited this boundary's node.
    pub fn was_searched(&self) -> (v: bool)
        ensures
            v == self.spec_searched(),
    {
        self.been_searched
    }

    /// Overwrite the visited marker; every other field is untouched.
    pub(crate) fn set_searched(&mut self, v: bool)
        ensures
            final(self)@ == old(self)@,
            final(self).spec_searched() == v,
    {
        self.been_searched = v;
    }

    /// The centre of the rectangle, each axis rounding towards the low edge.
    pub fn center(&self) -> (c: (i32, i32))
        requires
            self@.wf(),
        ensures
            c.0 as int == self@.mid_x(),
            c.1 as int == self@.mid_y(),
    {
        let width: u64 = (self.right_x as i64 - self.left_x as i64) as u64;
        let height: u64 = (self.bottom_y as i64 - self.top_y as i64) as u64;
        let cx: i32 = (self.left_x as i64 + (width / 2) as i64) as i32;
        let cy: i32 = (self.top_y as i64 + (height / 2) as i64) as i32;
        proof {
            assert(width == self@.right - self@.left);
            assert(height == self@.bottom - self@.top);
            assert(self@.left + width / 2 <= self@.right);
            assert(self@.top + height / 2 <= self@.bottom);
        }
        (cx, cy)
    }
}

proof fn lemma_sq_le(a: int, b: int)
    requires
        0 <= a <= b,
    ensures
        a * a <= b * b,
{
    assert(a * a <= b * b) by (nonlinear_arith)
        requires
            0 <= a <= b,
    ;
}

/// Clamping the centre coordinate into the interval is no farther from the
/// centre than any point `w` of the interval.
proof fn lemma_clamp_not_farther(v: int, lo: int, hi: int, w: int)
    requires
        lo <= w <= hi,
    ensures
        (clamp(v, lo, hi) - v) * (clamp(v, lo, hi) - v) <= (w - v) * (w - v),
{
    let c = clamp(v, lo, hi);
    if v < lo {
        lemma_sq_le(c - v, w - v);
    } else if v > hi {
        assert((c - v) * (c - v) == (v - c) * (v - c)) by (nonlinear_arith);
        assert((w - v) * (w - v) == (v - w) * (v - w)) by (nonlinear_arith);
        lemma_sq_le(v - c, v - w);
    } else {
        assert((c - v) * (c - v) <= (w - v) * (w - v)) by (nonlinear_arith)
            requires
                c == v,
        ;
    }
}

/// The disk-overlap test is conservative: a rectangle containing a point of
/// the disk overlaps the disk. (Contrapositively, pruning a subtree whose
/// boundary misses the disk loses no query results.)
pub proof fn lemma_contained_point_in_circle_overlaps(rect: Rect, p: Point, cx: int, cy: int, r: int)
    requires
        rect.contains(p),
        in_circle(p, cx, cy, r),
    ensures
        rect.overlaps_circle(cx, cy, r),
{
    lemma_clamp_not_farther(cx, rect.left, rect.right, p.x as int);
    lemma_clamp_not_farther(cy, rect.top, rect.bottom, p.y as int);
}

/// Quadrant partition: the four quadrants of a valid rectangle exactly tile
/// it. Every contained point lies in at least one quadrant; two quadrants
/// share a point only on the dividing centre lines; each quadrant halves
/// the parent's width and height, exactly so when the side is even and
/// otherwise split as floor and ceiling of the half.
pub proof fn lemma_quadrant_partition(r: Rect)
    requires
        r.wf(),
    ensures
        r.top_left_quad().wf(),
        r.top_right_quad().wf(),
        r.bottom_left_quad().wf(),
        r.bottom_right_quad().wf(),
        forall|p: Point| #![auto]
            r.contains(p) <==> (r.top_left_quad().contains(p) || r.top_right_quad().contains(p)
                || r.bottom_left_quad().contains(p) || r.bottom_right_quad().contains(p)),
        forall|p: Point| #![auto]
            r.top_left_quad().contains(p) && r.top_right_quad().contains(p) ==> p.x as int
                == r.mid_x(),
        forall|p: Point| #![auto]
            r.bottom_left_quad().contains(p) && r.bottom_right_quad().contains(p) ==> p.x as int
                == r.mid_x(),
        forall|p: Point| #![auto]
            r.top_left_quad().contains(p) && r.bottom_left_quad().contains(p) ==> p.y as int
                == r.mid_y(),
        forall|p: Point| #![auto]
            r.top_right_quad().contains(p) && r.bottom_right_quad().contains(p) ==> p.y as int
                == r.mid_y(),
        forall|p: Point| #![auto]
            r.top_left_quad().contains(p) && r.bottom_right_quad().contains(p) ==> p.x as int
                == r.mid_x() && p.y as int == r.mid_y(),
        forall|p: Point| #![auto]
            r.top_right_quad().contains(p) && r.bottom_left_quad().contains(p) ==> p.x as int
                == r.mid_x() && p.y as int == r.mid_y(),
        r.top_left_quad().right - r.top_left_quad().left == (r.right - r.left) / 2,
        r.top_left_quad().bottom - r.top_left_quad().top == (r.bottom - r.top) / 2,
        r.top_right_quad().right - r.top_right_quad().left == (r.right - r.left) - (r.right
            - r.left) / 2,
        r.bottom_left_quad().bottom - r.bottom_left_quad().top == (r.bottom - r.top) - (r.bottom
            - r.top) / 2,
        (r.right - r.left) % 2 == 0 ==> r.top_right_quad().right - r.top_right_quad().left == (
        r.right - r.left) / 2,
        (r.bottom - r.top) % 2 == 0 ==> r.bottom_left_quad().bottom - r.bottom_left_quad().top == (
        r.bottom - r.top) / 2,
{
    assert(r.left <= r.mid_x() <= r.right);
    assert(r.top <= r.mid_y() <= r.bottom);
}

} // verus!
