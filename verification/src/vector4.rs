//! Four-lane coordinate vectors.
//!
//! Coordinates are integer lanes (x, y, z, t).  Integer lanes give every
//! lane a genuine total order, so the comparisons the spatial index relies
//! on are always consistent; there is no invalid coordinate value that
//! could break the admissibility of the pruning bound.  Squared distances
//! are computed exactly in `i128`, which cannot overflow for any pair of
//! `i32` lane values.

use vstd::prelude::*;

verus! {

/// A value with four coordinate lanes.  Equality is lane-wise: two vectors
/// are equal exactly when all four lanes compare equal.
#[derive(Clone, Copy, Debug, PartialEq, Eq, Structural)]
pub struct Vector4 {
    pub x: i32,
    pub y: i32,
    pub z: i32,
    pub t: i32,
}

/// The square of an integer.
pub open spec fn sq(n: int) -> int {
    n * n
}

/// The smaller of two lane values.
pub open spec fn lane_min(a: i32, b: i32) -> i32 {
    if a <= b {
        a
    } else {
        b
    }
}

/// The larger of two lane values.
pub open spec fn lane_max(a: i32, b: i32) -> i32 {
    if a >= b {
        a
    } else {
        b
    }
}

/// `q` clamped into the interval `[lo, hi]`.
pub open spec fn clamp_lane(q: i32, lo: i32, hi: i32) -> i32 {
    if q < lo {
        lo
    } else if q > hi {
        hi
    } else {
        q
    }
}

/// Elementwise order: every lane of `a` is at most the matching lane of `b`.
pub open spec fn lanes_le(a: Vector4, b: Vector4) -> bool {
    &&& a.x <= b.x
    &&& a.y <= b.y
    &&& a.z <= b.z
    &&& a.t <= b.t
}

/// `p` lies within the axis-aligned box `[mins, maxs]`, elementwise.
pub open spec fn in_box(p: Vector4, mins: Vector4, maxs: Vector4) -> bool {
    &&& mins.x <= p.x <= maxs.x
    &&& mins.y <= p.y <= maxs.y
    &&& mins.z <= p.z <= maxs.z
    &&& mins.t <= p.t <= maxs.t
}

/// The exact squared Euclidean distance between two vectors.
pub open spec fn dist_sq(a: Vector4, b: Vector4) -> int {
    sq(a.x - b.x) + sq(a.y - b.y) + sq(a.z - b.z) + sq(a.t - b.t)
}

/// The sum of the elementwise products of two vectors.
pub open spec fn dot_sum(a: Vector4, b: Vector4) -> int {
    a.x * b.x + a.y * b.y + a.z * b.z + a.t * b.t
}

/// `p` clamped elementwise into the box `[mins, maxs]`.
pub open spec fn clamp_to_box(p: Vector4, mins: Vector4, maxs: Vector4) -> Vector4 {
    Vector4 {
        x: clamp_lane(p.x, mins.x, maxs.x),
        y: clamp_lane(p.y, mins.y, maxs.y),
        z: clamp_lane(p.z, mins.z, maxs.z),
        t: clamp_lane(p.t, mins.t, maxs.t),
    }
}

/// The squared distance from `p` to the nearest point of the box
/// `[mins, maxs]`: the squared distance from `p` to its elementwise clamp
/// into the box.  Zero exactly when `p` lies inside the box.
pub open spec fn box_dist_sq(p: Vector4, mins: Vector4, maxs: Vector4) -> int {
    dist_sq(p, clamp_to_box(p, mins, maxs))
}

/// Products of values bounded by `m` in magnitude are bounded by `m * m`.
proof fn lemma_mul_bound(a: int, b: int, m: int)
    by (nonlinear_arith)
    requires
        0 <= m,
        -m <= a <= m,
        -m <= b <= m,
    ensures
        -(m * m) <= a * b <= m * m,
{
}

/// A square is never negative, and is zero exactly for zero.
proof fn lemma_sq_basics(a: int)
    by (nonlinear_arith)
    ensures
        a * a >= 0,
        (a * a == 0) <==> (a == 0),
{
}

/// Squares respect magnitude: if `a` lies within `[-b, b]` or within
/// `[b, -b]`, its square is at most the square of `b`.
proof fn lemma_sq_mono_abs(a: int, b: int)
    by (nonlinear_arith)
    requires
        (-b <= a <= b) || (b <= a <= -b),
    ensures
        a * a <= b * b,
{
}

/// The clamp of `q` into `[lo, hi]` is at least as close to `q` as any
/// point of `[lo, hi]` is: the one-dimensional admissibility fact.
proof fn lemma_clamp_nearest(q: i32, lo: i32, hi: i32, x: i32)
    requires
        lo <= hi,
        lo <= x <= hi,
    ensures
        sq(q - clamp_lane(q, lo, hi)) <= sq(q - x),
{
    let c = clamp_lane(q, lo, hi);
    if q < lo || q > hi {
        lemma_sq_mono_abs(q - c, q - x);
    } else {
        lemma_sq_basics(q - x);
        assert(sq(q - c) == 0) by {
            lemma_sq_basics(q - c);
        }
    }
}

/// The squared distance between two vectors is never negative, and is zero
/// exactly when the vectors are equal.
pub proof fn lemma_dist_sq_zero_iff_eq(a: Vector4, b: Vector4)
    ensures
        dist_sq(a, b) >= 0,
        (dist_sq(a, b) == 0) <==> (a == b),
{
    lemma_sq_basics(a.x - b.x);
    lemma_sq_basics(a.y - b.y);
    lemma_sq_basics(a.z - b.z);
    lemma_sq_basics(a.t - b.t);
}

/// The box distance is zero exactly when the point lies inside the box.
pub proof fn lemma_box_dist_sq_zero_iff_inside(p: Vector4, mins: Vector4, maxs: Vector4)
    requires
        lanes_le(mins, maxs),
    ensures
        box_dist_sq(p, mins, maxs) >= 0,
        (box_dist_sq(p, mins, maxs) == 0) <==> in_box(p, mins, maxs),
{
    lemma_dist_sq_zero_iff_eq(p, clamp_to_box(p, mins, maxs));
}

/// Admissibility: the box distance never exceeds the squared distance from
/// `q` to any point `p` inside the box, so pruning a subtree whose box
/// distance is already too large can never discard a viable candidate.
pub proof fn lemma_box_dist_sq_admissible(q: Vector4, p: Vector4, mins: Vector4, maxs: Vector4)
    requires
        lanes_le(mins, maxs),
        in_box(p, mins, maxs),
    ensures
        box_dist_sq(q, mins, maxs) <= dist_sq(q, p),
{
    lemma_clamp_nearest(q.x, mins.x, maxs.x, p.x);
    lemma_clamp_nearest(q.y, mins.y, maxs.y, p.y);
    lemma_clamp_nearest(q.z, mins.z, maxs.z, p.z);
    lemma_clamp_nearest(q.t, mins.t, maxs.t, p.t);
}

impl Vector4 {
    /// Builds a vector from its four lanes.
    pub fn new(x: i32, y: i32, z: i32, t: i32) -> (r: Vector4)
        ensures
            r == (Vector4 { x, y, z, t }),
    {
        Vector4 { x, y, z, t }
    }

    /// The first lane.
    pub fn x(self) -> (r: i32)
        ensures
            r == self.x,
    {
        self.x
    }

    /// The second lane.
    pub fn y(self) -> (r: i32)
        ensures
            r == self.y,
    {
        self.y
    }

    /// The third lane.
    pub fn z(self) -> (r: i32)
        ensures
            r == self.z,
    {
        self.z
    }

    /// The fourth lane.
    pub fn t(self) -> (r: i32)
        ensures
            r == self.t,
    {
        self.t
    }

    /// The lane selected by `axis`: 0 is x, 1 is y, 2 is z, 3 is t.
    pub open spec fn lane(self, axis: int) -> int {
        if axis == 0 {
            self.x as int
        } else if axis == 1 {
            self.y as int
        } else if axis == 2 {
            self.z as int
        } else {
            self.t as int
        }
    }

    /// The elementwise minimum of two vectors.
    pub fn min(self, other: Vector4) -> (r: Vector4)
        ensures
            r == (Vector4 {
                x: lane_min(self.x, other.x),
                y: lane_min(self.y, other.y),
                z: lane_min(self.z, other.z),
                t: lane_min(self.t, other.t),
            }),
    {
        Vector4 {
            x: if self.x <= other.x {
                self.x
            } else {
                other.x
            },
            y: if self.y <= other.y {
                self.y
            } else {
                other.y
            },
            z: if self.z <= other.z {
                self.z
            } else {
                other.z
            },
            t: if self.t <= other.t {
                self.t
            } else {
                other.t
            },
        }
    }

    /// The elementwise maximum of two vectors.
    pub fn max(self, other: Vector4) -> (r: Vector4)
        ensures
            r == (Vector4 {
                x: lane_max(self.x, other.x),
                y: lane_max(self.y, other.y),
                z: lane_max(self.z, other.z),
                t: lane_max(self.t, other.t),
            }),
    {
        Vector4 {
            x: if self.x >= other.x {
                self.x
            } else {
                other.x
            },
            y: if self.y >= other.y {
                self.y
            } else {
                other.y
            },
            z: if self.z >= other.z {
                self.z
            } else {
                other.z
            },
            t: if self.t >= other.t {
                self.t
            } else {
                other.t
            },
        }
    }

    /// The dot product: the sum of the elementwise products.
    pub fn dot(self, other: Vector4) -> (r: i128)
        ensures
            r == dot_sum(self, other),
    {
        proof {
            lemma_mul_bound(self.x as int, other.x as int, 0x8000_0000);
            lemma_mul_bound(self.y as int, other.y as int, 0x8000_0000);
            lemma_mul_bound(self.z as int, other.z as int, 0x8000_0000);
            lemma_mul_bound(self.t as int, other.t as int, 0x8000_0000);
        }
        (self.x as i128) * (other.x as i128) + (self.y as i128) * (other.y as i128) + (self.z
            as i128) * (other.z as i128) + (self.t as i128) * (other.t as i128)
    }

    /// The squared magnitude: the dot product of the vector with itself.
    pub fn magnitude_squared(self) -> (r: i128)
        ensures
            r == dot_sum(self, self),
    {
        self.dot(self)
    }

    /// The exact squared Euclidean distance between two vectors.
    pub fn distance_squared(self, other: Vector4) -> (r: i128)
        ensures
            r == dist_sq(self, other),
            r >= 0,
    {
        let dx = (self.x as i64) - (other.x as i64);
        let dy = (self.y as i64) - (other.y as i64);
        let dz = (self.z as i64) - (other.z as i64);
        let dt = (self.t as i64) - (other.t as i64);
        proof {
            lemma_mul_bound(dx as int, dx as int, 0x1_0000_0000);
            lemma_mul_bound(dy as int, dy as int, 0x1_0000_0000);
            lemma_mul_bound(dz as int, dz as int, 0x1_0000_0000);
            lemma_mul_bound(dt as int, dt as int, 0x1_0000_0000);
            lemma_dist_sq_zero_iff_eq(self, other);
        }
        (dx as i128) * (dx as i128) + (dy as i128) * (dy as i128) + (dz as i128) * (dz as i128) + (
        dt as i128) * (dt as i128)
    }

    /// The squared distance from `self` to the nearest point of the
    /// axis-aligned box `[mins, maxs]`: clamp the point into the box, then
    /// measure the squared distance to the clamp.  The box corners must be
    /// in elementwise order; violating that is a caller error.
    pub fn distance_squared_to_bounding_box(self, mins: Vector4, maxs: Vector4) -> (r: i128)
        requires
            lanes_le(mins, maxs),
        ensures
            r == box_dist_sq(self, mins, maxs),
            r == dist_sq(self, clamp_to_box(self, mins, maxs)),
            r >= 0,
    {
        let clamped = Vector4::min(maxs, Vector4::max(mins, self));
        proof {
            assert(clamped == clamp_to_box(self, mins, maxs));
        }
        self.distance_squared(clamped)
    }
}

} // verus!
