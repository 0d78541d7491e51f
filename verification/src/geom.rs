//! Plane geometry over fixed-point world coordinates.
//!
//! Coordinates are `i64` values in caller-chosen units. Caller-supplied
//! coordinates are bounded by [`MAX_COORD`]; every value the engines derive
//! from them stays within [`COORD_LIMIT`], which leaves enough headroom for
//! the squared-distance arithmetic below to fit in `i64`.

use vstd::prelude::*;

verus! {

/// Largest magnitude of any caller-supplied coordinate, radius or half-extent.
pub const MAX_COORD: i64 = 0x100_0000;

/// Headroom bound on every coordinate the geometry functions accept; engine
/// computations keep all values well inside it.
pub const COORD_LIMIT: i64 = 0x800_0000;

/// `v` lies within `[-b, b]`.
pub open spec fn bounded(v: int, b: int) -> bool {
    -b <= v <= b
}

/// A position or extent in the plane.
#[derive(Clone, Copy, Debug, PartialEq, Eq, Structural)]
pub struct Vec2 {
    pub x: i64,
    pub y: i64,
}

/// Both components of `v` lie within `[-b, b]`.
pub open spec fn vec2_bounded(v: Vec2, b: int) -> bool {
    bounded(v.x as int, b) && bounded(v.y as int, b)
}

impl Vec2 {
    pub fn new(x: i64, y: i64) -> (r: Vec2)
        ensures
            r == (Vec2 { x, y }),
    {
        Vec2 { x, y }
    }
}

/// An axis-aligned rectangle in world coordinates, `left <= right` and
/// `bottom <= top`. It serves both as the viewport and as an entity's
/// bounding box.
#[derive(Clone, Copy, Debug, PartialEq, Eq, Structural)]
pub struct Area {
    pub left: i64,
    pub right: i64,
    pub top: i64,
    pub bottom: i64,
}

/// Every edge of `a` lies within `[-b, b]`.
pub open spec fn area_bounded(a: Area, b: int) -> bool {
    &&& bounded(a.left as int, b)
    &&& bounded(a.right as int, b)
    &&& bounded(a.top as int, b)
    &&& bounded(a.bottom as int, b)
}

/// A well-formed area: ordered edges within the caller bound.
pub open spec fn area_wf(a: Area) -> bool {
    &&& area_bounded(a, MAX_COORD as int)
    &&& a.left <= a.right
    &&& a.bottom <= a.top
}

/// A viewport additionally has positive width and height.
pub open spec fn viewport_wf(a: Area) -> bool {
    &&& area_bounded(a, MAX_COORD as int)
    &&& a.left < a.right
    &&& a.bottom < a.top
}

/// `inner` lies strictly inside `outer` (every edge strictly beyond).
pub open spec fn spec_inside(inner: Area, outer: Area) -> bool {
    &&& outer.right > inner.right
    &&& outer.left < inner.left
    &&& outer.top > inner.top
    &&& outer.bottom < inner.bottom
}

/// `a` and `rect` are disjoint; areas that merely touch along an edge
/// count as outside.
pub open spec fn spec_outside(a: Area, rect: Area) -> bool {
    ||| a.bottom > rect.top
    ||| a.top < rect.bottom
    ||| a.right < rect.left
    ||| a.left > rect.right
}

/// `a` and `rect` share at least a point or an edge.
pub open spec fn spec_overlap(a: Area, rect: Area) -> bool {
    !spec_outside(a, rect)
}

/// Four times the squared distance from `p` to the nearest point of `a`
/// (zero when `p` lies in `a`). Doubling every length before squaring keeps
/// the arithmetic integral without dividing the center coordinates by two.
pub open spec fn spec_dist2_scaled(a: Area, p: Vec2) -> int {
    let dx = dist_component(2 * p.x, a.left + a.right, a.right - a.left);
    let dy = dist_component(2 * p.y, a.bottom + a.top, a.top - a.bottom);
    dx * dx + dy * dy
}

/// Distance along one axis between a doubled coordinate and an interval
/// given by its doubled center and its width, floored at zero.
pub open spec fn dist_component(doubled: int, center2: int, width: int) -> int {
    let d = abs_int(doubled - center2) - width;
    if d > 0 {
        d
    } else {
        0
    }
}

pub open spec fn abs_int(v: int) -> int {
    if v < 0 {
        -v
    } else {
        v
    }
}

impl Area {
    /// The axis-aligned box with the given center and half-extent.
    pub fn from_center_half(center: Vec2, half: Vec2) -> (r: Area)
        requires
            vec2_bounded(center, COORD_LIMIT as int),
            vec2_bounded(half, COORD_LIMIT as int),
        ensures
            r.left == center.x - half.x,
            r.right == center.x + half.x,
            r.top == center.y + half.y,
            r.bottom == center.y - half.y,
    {
        Area {
            left: center.x - half.x,
            right: center.x + half.x,
            top: center.y + half.y,
            bottom: center.y - half.y,
        }
    }

    /// Whether `self` lies strictly inside `rect`.
    pub fn inside(&self, rect: &Area) -> (r: bool)
        ensures
            r == spec_inside(*self, *rect),
    {
        rect.right > self.right && rect.left < self.left && rect.top > self.top
            && rect.bottom < self.bottom
    }

    /// Whether `self` and `rect` are disjoint (touching edges count as
    /// outside).
    pub fn outside(&self, rect: &Area) -> (r: bool)
        ensures
            r == spec_outside(*self, *rect),
    {
        self.bottom > rect.top || self.top < rect.bottom || self.right < rect.left
            || self.left > rect.right
    }

    /// Whether `self` and `rect` share at least a point or an edge.
    pub fn overlap(&self, rect: &Area) -> (r: bool)
        ensures
            r == spec_overlap(*self, *rect),
    {
        !self.outside(rect)
    }

    /// Four times the squared distance from `p` to the nearest point of
    /// `self`.
    pub fn dist2_scaled(&self, p: Vec2) -> (r: i64)
        requires
            area_bounded(*self, MAX_COORD as int),
            self.left <= self.right,
            self.bottom <= self.top,
            vec2_bounded(p, COORD_LIMIT as int),
        ensures
            r as int == spec_dist2_scaled(*self, p),
    {
        let dx = component_gap(2 * p.x, self.left + self.right, self.right - self.left);
        let dy = component_gap(2 * p.y, self.bottom + self.top, self.top - self.bottom);
        proof {
            lemma_square_bound(dx as int, 0x1400_0000);
            lemma_square_bound(dy as int, 0x1400_0000);
            assert(0x1400_0000int * 0x1400_0000int == 0x190_0000_0000_0000int) by (nonlinear_arith);
        }
        dx * dx + dy * dy
    }
}

/// A value bounded in magnitude has a bounded square.
pub proof fn lemma_square_bound(v: int, b: int)
    requires
        -b <= v <= b,
        0 <= b,
    ensures
        0 <= v * v <= b * b,
{
    assert(0 <= v * v <= b * b) by (nonlinear_arith)
        requires
            -b <= v <= b,
            0 <= b,
    ;
}

/// Executable counterpart of [`dist_component`].
fn component_gap(doubled: i64, center2: i64, width: i64) -> (r: i64)
    requires
        bounded(doubled as int, 2 * COORD_LIMIT as int),
        bounded(center2 as int, 2 * MAX_COORD as int),
        0 <= width <= 2 * MAX_COORD,
    ensures
        r as int == dist_component(doubled as int, center2 as int, width as int),
        0 <= r <= 2 * COORD_LIMIT + 4 * MAX_COORD,
{
    let diff = doubled - center2;
    let a = if diff < 0 {
        -diff
    } else {
        diff
    };
    let d = a - width;
    if d > 0 {
        d
    } else {
        0
    }
}

} // verus!
