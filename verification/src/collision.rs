//! Boxes, segments, outlines and the spatial grid.

use std::collections::HashMap;
use vstd::prelude::*;
use crate::fixed::{abs, clamp_i32, fx_add, lemma_quot_bounds, quot, quot_wide, saturate};
use crate::physics::{normalize_spec, normalize_wide, Vec2};

verus! {

/// A cross product below this magnitude, in squared raw units, counts as
/// zero: the ray and the segment are taken to be parallel.
pub const PARALLEL_LIMIT: i128 = 100;

/// How far past the right edge of the bounds the test ray ends: one world
/// unit.
pub const RAY_MARGIN: i32 = 1000;

/// An axis-aligned box, edges included.
#[derive(Clone, Copy, Debug)]
pub struct AABB {
    pub min: Vec2,
    pub max: Vec2,
}

impl AABB {
    pub open spec fn contains_spec(self, point: Vec2) -> bool {
        &&& self.min.x <= point.x <= self.max.x
        &&& self.min.y <= point.y <= self.max.y
    }

    pub open spec fn intersects_spec(self, other: AABB) -> bool {
        &&& self.min.x <= other.max.x
        &&& self.max.x >= other.min.x
        &&& self.min.y <= other.max.y
        &&& self.max.y >= other.min.y
    }

    pub fn new(min: Vec2, max: Vec2) -> (r: AABB)
        ensures
            r == (AABB { min, max }),
    {
        AABB { min, max }
    }

    /// Whether `point` lies in the box or on its edge.
    pub fn contains(&self, point: Vec2) -> (r: bool)
        ensures
            r == self.contains_spec(point),
    {
        point.x >= self.min.x && point.x <= self.max.x && point.y >= self.min.y && point.y
            <= self.max.y
    }

    /// Whether the two boxes share a point.
    pub fn intersects(&self, other: &AABB) -> (r: bool)
        ensures
            r == self.intersects_spec(*other),
    {
        self.min.x <= other.max.x && self.max.x >= other.min.x && self.min.y <= other.max.y
            && self.max.y >= other.min.y
    }
}

/// A segment of an outline with its unit normal.
#[derive(Clone, Copy, Debug)]
pub struct LineSegment {
    pub start: Vec2,
    pub end: Vec2,
    pub normal: Vec2,
}

/// `v` held between `low` and `high`.
pub open spec fn clamp_between(v: int, low: int, high: int) -> int {
    if v < low {
        low
    } else if v > high {
        high
    } else {
        v
    }
}

impl LineSegment {
    /// The segment from `start` to `end` with its normal on the side
    /// asked for: the direction `(dx, dy)` turned a quarter turn, to
    /// `(dy, -dx)` where `flipped` and to `(-dy, dx)` where not, at unit
    /// length; zero where the ends meet.
    pub open spec fn facing_spec(start: Vec2, end: Vec2, flipped: bool) -> LineSegment {
        let dx = end.x - start.x;
        let dy = end.y - start.y;
        LineSegment {
            start,
            end,
            normal: if flipped {
                normalize_spec(dy, -dx)
            } else {
                normalize_spec(-dy, dx)
            },
        }
    }

    /// The segment from `start` to `end` on its own, with the normal
    /// `(-dy, dx)` at unit length.
    pub open spec fn new_spec(start: Vec2, end: Vec2) -> LineSegment {
        LineSegment::facing_spec(start, end, false)
    }

    /// The dot product of `point - start` with `end - start`.
    pub open spec fn along_spec(self, point: Vec2) -> int {
        let px = point.x - self.start.x;
        let py = point.y - self.start.y;
        px * (self.end.x - self.start.x) + py * (self.end.y - self.start.y)
    }

    /// The squared length of the segment.
    pub open spec fn span_spec(self) -> int {
        let sx = self.end.x - self.start.x;
        let sy = self.end.y - self.start.y;
        sx * sx + sy * sy
    }

    /// The point of the segment nearest to `point`: `start` moved along the
    /// segment by the share `along / span`, held between 0 and 1. Where the
    /// ends meet it is `start`.
    pub open spec fn closest_point_spec(self, point: Vec2) -> Vec2 {
        let span = self.span_spec();
        if span == 0 {
            self.start
        } else {
            let share = clamp_between(self.along_spec(point), 0, span);
            Vec2 {
                x: clamp_i32(self.start.x + quot((self.end.x - self.start.x) * share, span)) as i32,
                y: clamp_i32(self.start.y + quot((self.end.y - self.start.y) * share, span)) as i32,
            }
        }
    }

    pub fn new(start: Vec2, end: Vec2) -> (r: LineSegment)
        ensures
            r == LineSegment::new_spec(start, end),
    {
        LineSegment::facing(start, end, false)
    }

    /// The segment from `start` to `end` with its normal on the side asked
    /// for.
    pub fn facing(start: Vec2, end: Vec2, flipped: bool) -> (r: LineSegment)
        ensures
            r == LineSegment::facing_spec(start, end, flipped),
    {
        let dx: i64 = end.x as i64 - start.x as i64;
        let dy: i64 = end.y as i64 - start.y as i64;
        let normal = if flipped {
            normalize_wide(dy, -dx)
        } else {
            normalize_wide(-dy, dx)
        };
        LineSegment { start, end, normal }
    }

    /// The point of the segment nearest to `point`.
    pub fn closest_point(&self, point: Vec2) -> (r: Vec2)
        ensures
            r == self.closest_point_spec(point),
    {
        let sx: i128 = self.end.x as i128 - self.start.x as i128;
        let sy: i128 = self.end.y as i128 - self.start.y as i128;
        let px: i128 = point.x as i128 - self.start.x as i128;
        let py: i128 = point.y as i128 - self.start.y as i128;
        proof {
            lemma_product_bound(px as int, sx as int, 0x1_0000_0000, 0x1_0000_0000);
            lemma_product_bound(py as int, sy as int, 0x1_0000_0000, 0x1_0000_0000);
            lemma_product_bound(sx as int, sx as int, 0x1_0000_0000, 0x1_0000_0000);
            lemma_product_bound(sy as int, sy as int, 0x1_0000_0000, 0x1_0000_0000);
            assert(sx * sx >= 0 && sy * sy >= 0) by (nonlinear_arith);
        }
        let along: i128 = px * sx + py * sy;
        let span: i128 = sx * sx + sy * sy;
        if span == 0 {
            return self.start;
        }
        let share: i128 = if along < 0 {
            0
        } else if along > span {
            span
        } else {
            along
        };
        proof {
            lemma_product_bound(sx as int, share as int, 0x1_0000_0000, 0x2_0000_0000_0000_0000);
            lemma_product_bound(sy as int, share as int, 0x1_0000_0000, 0x2_0000_0000_0000_0000);
        }
        let mx = quot_wide(sx * share, span);
        let my = quot_wide(sy * share, span);
        proof {
            lemma_quot_bounds(sx * share, span as int);
            lemma_quot_bounds(sy * share, span as int);
        }
        Vec2 { x: saturate(self.start.x as i128 + mx), y: saturate(self.start.y as i128 + my) }
    }

    /// The distance from `point` to the segment.
    pub fn distance_to(&self, point: Vec2) -> (r: i32)
        ensures
            r == point.distance_spec(self.closest_point_spec(point)),
    {
        let closest = self.closest_point(point);
        point.distance(closest)
    }
}

/// A product is bounded by the product of the bounds of its factors.
pub(crate) proof fn lemma_product_bound(a: int, b: int, bound_a: int, bound_b: int)
    requires
        -bound_a <= a <= bound_a,
        -bound_b <= b <= bound_b,
    ensures
        -(bound_a * bound_b) <= a * b <= bound_a * bound_b,
{
    assert(-(bound_a * bound_b) <= a * b <= bound_a * bound_b) by (nonlinear_arith)
        requires
            -bound_a <= a <= bound_a,
            -bound_b <= b <= bound_b,
    ;
}

/// Whether `num / den` lies between 0 and 1, ends included, for a `den`
/// other than 0.
pub open spec fn in_unit(num: int, den: int) -> bool {
    if den > 0 {
        0 <= num <= den
    } else {
        den <= num <= 0
    }
}

/// Whether the ray from `ray_start` to `ray_end` meets the segment from
/// `seg_start` to `seg_end`. With `r` the ray, `s` the segment and `q` the
/// vector from the ray's start to the segment's, they meet where
/// `(q x s) / (r x s)` and `(q x r) / (r x s)` both lie between 0 and 1. A
/// pair whose cross product `r x s` is below `PARALLEL_LIMIT` in magnitude
/// never meets.
pub open spec fn ray_hits_spec(ray_start: Vec2, ray_end: Vec2, seg_start: Vec2, seg_end: Vec2) -> bool {
    let rx = ray_end.x - ray_start.x;
    let ry = ray_end.y - ray_start.y;
    let sx = seg_end.x - seg_start.x;
    let sy = seg_end.y - seg_start.y;
    let qx = seg_start.x - ray_start.x;
    let qy = seg_start.y - ray_start.y;
    let r_cross_s = rx * sy - ry * sx;
    &&& abs(r_cross_s) >= PARALLEL_LIMIT
    &&& in_unit(qx * sy - qy * sx, r_cross_s)
    &&& in_unit(qx * ry - qy * rx, r_cross_s)
}

/// The number of `segments` that the ray from `from` to `to` meets.
pub open spec fn crossings_spec(segments: Seq<LineSegment>, from: Vec2, to: Vec2) -> nat
    decreases segments.len(),
{
    if segments.len() == 0 {
        0
    } else {
        let rest = crossings_spec(segments.drop_last(), from, to);
        if ray_hits_spec(from, to, segments.last().start, segments.last().end) {
            rest + 1
        } else {
            rest
        }
    }
}

/// The sum, over the first `count` edges of the closed polygon through
/// `points`, of `x_i * y_j - x_j * y_i`, `j` being the point after `i`.
pub open spec fn cross_sum_spec(points: Seq<Vec2>, count: nat) -> int
    decreases count,
{
    if count == 0 {
        0
    } else {
        let i = count - 1;
        let j = (i + 1) % (points.len() as int);
        cross_sum_spec(points, (count - 1) as nat) + (points[i].x * points[j].y - points[j].x
            * points[i].y)
    }
}

/// Twice the area that the closed polygon through `points` encloses, with
/// a sign: positive where the interior lies to the left of each edge.
pub open spec fn twice_area_spec(points: Seq<Vec2>) -> int {
    cross_sum_spec(points, points.len())
}

/// The corner of least coordinates among `points`, which are not empty.
pub open spec fn low_corner_spec(points: Seq<Vec2>) -> Vec2
    decreases points.len(),
{
    if points.len() <= 1 {
        points[0]
    } else {
        low_corner_spec(points.drop_last()).min_spec(points.last())
    }
}

/// The corner of greatest coordinates among `points`, which are not empty.
pub open spec fn high_corner_spec(points: Seq<Vec2>) -> Vec2
    decreases points.len(),
{
    if points.len() <= 1 {
        points[0]
    } else {
        high_corner_spec(points.drop_last()).max_spec(points.last())
    }
}

/// The sum of the `x` of the segments' starts.
pub open spec fn sum_start_x(segments: Seq<LineSegment>) -> int
    decreases segments.len(),
{
    if segments.len() == 0 {
        0
    } else {
        sum_start_x(segments.drop_last()) + segments.last().start.x
    }
}

/// The sum of the `y` of the segments' starts.
pub open spec fn sum_start_y(segments: Seq<LineSegment>) -> int
    decreases segments.len(),
{
    if segments.len() == 0 {
        0
    } else {
        sum_start_y(segments.drop_last()) + segments.last().start.y
    }
}

/// The bounds of a point set hold each of its points.
pub proof fn lemma_corners_enclose(points: Seq<Vec2>, i: int)
    requires
        0 <= i < points.len(),
    ensures
        (AABB { min: low_corner_spec(points), max: high_corner_spec(points) }).contains_spec(points[i]),
    decreases points.len(),
{
    if points.len() > 1 {
        if i < points.len() - 1 {
            lemma_corners_enclose(points.drop_last(), i);
        } else {
            lemma_corners_enclose(points.drop_last(), 0);
        }
    }
}

/// A closed polygon: one segment from each point to the next and from the
/// last back to the first, each with its outward normal, and the box around
/// the points.
#[derive(Clone, Debug)]
pub struct Outline {
    pub segments: Vec<LineSegment>,
    pub bounds: AABB,
    /// The outline's own motion; always zero as built.
    pub velocity: Vec2,
}

impl Outline {
    /// Whether the outline is the closed polygon through `points`, every
    /// normal pointing away from the interior: to the right of its edge
    /// where the interior lies to the left, which is where the signed area
    /// is positive, and to the left where not.
    pub open spec fn built_from(self, points: Seq<Vec2>) -> bool {
        &&& self.segments@.len() == points.len()
        &&& forall|i: int|
            0 <= i < points.len() ==> #[trigger] self.segments@[i] == LineSegment::facing_spec(
                points[i],
                points[(i + 1) % (points.len() as int)],
                twice_area_spec(points) > 0,
            )
        &&& self.velocity == Vec2::zero_spec()
        &&& self.bounds == if points.len() == 0 {
            AABB { min: Vec2::zero_spec(), max: Vec2::zero_spec() }
        } else {
            AABB { min: low_corner_spec(points), max: high_corner_spec(points) }
        }
    }

    /// Where the test ray from `point` ends: level with the point, past the
    /// right edge of the bounds.
    pub open spec fn ray_end_spec(self, point: Vec2) -> Vec2 {
        Vec2 { x: clamp_i32(self.bounds.max.x + RAY_MARGIN) as i32, y: point.y }
    }

    /// Inside means inside the bounds and an odd number of crossings of the
    /// ray to the right.
    pub open spec fn contains_spec(self, point: Vec2) -> bool {
        &&& self.bounds.contains_spec(point)
        &&& crossings_spec(self.segments@, point, self.ray_end_spec(point)) % 2 == 1
    }

    /// The mean of the segments' starts, its fraction dropped; zero for an
    /// outline without segments. This is not the centre of area.
    pub open spec fn centroid_spec(self) -> Vec2 {
        if self.segments@.len() == 0 {
            Vec2::zero_spec()
        } else {
            Vec2 {
                x: clamp_i32(quot(sum_start_x(self.segments@), self.segments@.len() as int)) as i32,
                y: clamp_i32(quot(sum_start_y(self.segments@), self.segments@.len() as int)) as i32,
            }
        }
    }

    /// Builds the closed polygon through `points`, the normals pointing
    /// away from what it encloses. No points give an outline without
    /// segments, with bounds of zero size at the origin.
    pub fn from_points(points: Vec<Vec2>) -> (r: Outline)
        ensures
            r.built_from(points@),
    {
        let n = points.len();
        if n == 0 {
            return Outline {
                segments: Vec::new(),
                bounds: AABB::new(Vec2::zero(), Vec2::zero()),
                velocity: Vec2::zero(),
            };
        }
        let flipped = Self::twice_area(&points) > 0;
        let mut segments: Vec<LineSegment> = Vec::new();
        let mut min = points[0];
        let mut max = points[0];
        let mut i: usize = 0;
        while i < n
            invariant
                n == points.len(),
                n > 0,
                i <= n,
                flipped == (twice_area_spec(points@) > 0),
                segments@.len() == i,
                forall|k: int|
                    0 <= k < i ==> #[trigger] segments@[k] == LineSegment::facing_spec(
                        points@[k],
                        points@[(k + 1) % (n as int)],
                        flipped,
                    ),
                i == 0 ==> min == points@[0] && max == points@[0],
                i > 0 ==> min == low_corner_spec(points@.take(i as int)),
                i > 0 ==> max == high_corner_spec(points@.take(i as int)),
            decreases n - i,
        {
            let next_i = if i + 1 == n {
                0
            } else {
                i + 1
            };
            proof {
                if i + 1 == n {
                    vstd::arithmetic::div_mod::lemma_mod_self_0(n as int);
                } else {
                    vstd::arithmetic::div_mod::lemma_small_mod((i + 1) as nat, n as nat);
                }
                assert(points@.take(i + 1).drop_last() == points@.take(i as int));
            }
            segments.push(LineSegment::facing(points[i], points[next_i], flipped));
            min = min.min(points[i]);
            max = max.max(points[i]);
            i += 1;
        }
        proof {
            assert(points@.take(n as int) == points@);
        }
        Outline { segments, bounds: AABB::new(min, max), velocity: Vec2::zero() }
    }

    /// Twice the signed area of the closed polygon through `points`.
    pub fn twice_area(points: &Vec<Vec2>) -> (r: i128)
        ensures
            r == twice_area_spec(points@),
    {
        let n = points.len();
        let mut sum: i128 = 0;
        let mut i: usize = 0;
        while i < n
            invariant
                n == points.len(),
                i <= n,
                sum == cross_sum_spec(points@, i as nat),
                -0x8000_0000_0000_0000 * i <= sum <= 0x8000_0000_0000_0000 * i,
            decreases n - i,
        {
            let next_i = if i + 1 == n {
                0
            } else {
                i + 1
            };
            proof {
                if i + 1 == n {
                    vstd::arithmetic::div_mod::lemma_mod_self_0(n as int);
                } else {
                    vstd::arithmetic::div_mod::lemma_small_mod((i + 1) as nat, n as nat);
                }
                lemma_product_bound(
                    points@[i as int].x as int,
                    points@[next_i as int].y as int,
                    0x8000_0000,
                    0x8000_0000,
                );
                lemma_product_bound(
                    points@[next_i as int].x as int,
                    points@[i as int].y as int,
                    0x8000_0000,
                    0x8000_0000,
                );
            }
            let a = &points[i];
            let b = &points[next_i];
            sum = sum + ((a.x as i128) * (b.y as i128) - (b.x as i128) * (a.y as i128));
            i += 1;
        }
        sum
    }

    /// Whether `point` lies inside the outline.
    pub fn contains(&self, point: Vec2) -> (r: bool)
        ensures
            r == self.contains_spec(point),
    {
        if !self.bounds.contains(point) {
            return false;
        }
        let ray_end = Vec2::new(fx_add(self.bounds.max.x, RAY_MARGIN), point.y);
        let mut odd = false;
        let mut i: usize = 0;
        while i < self.segments.len()
            invariant
                i <= self.segments.len(),
                ray_end == self.ray_end_spec(point),
                odd == (crossings_spec(self.segments@.take(i as int), point, ray_end) % 2 == 1),
            decreases self.segments.len() - i,
        {
            proof {
                assert(self.segments@.take(i + 1).drop_last() == self.segments@.take(i as int));
            }
            let segment = &self.segments[i];
            if Self::ray_intersects_segment(point, ray_end, segment.start, segment.end) {
                odd = !odd;
            }
            i += 1;
        }
        proof {
            assert(self.segments@.take(i as int) == self.segments@);
        }
        odd
    }

    /// Whether the ray from `ray_start` to `ray_end` meets the segment from
    /// `seg_start` to `seg_end`.
    pub fn ray_intersects_segment(ray_start: Vec2, ray_end: Vec2, seg_start: Vec2, seg_end: Vec2) -> (r: bool)
        ensures
            r == ray_hits_spec(ray_start, ray_end, seg_start, seg_end),
    {
        let rx: i128 = ray_end.x as i128 - ray_start.x as i128;
        let ry: i128 = ray_end.y as i128 - ray_start.y as i128;
        let sx: i128 = seg_end.x as i128 - seg_start.x as i128;
        let sy: i128 = seg_end.y as i128 - seg_start.y as i128;
        let qx: i128 = seg_start.x as i128 - ray_start.x as i128;
        let qy: i128 = seg_start.y as i128 - ray_start.y as i128;
        proof {
            lemma_product_bound(rx as int, sy as int, 0x1_0000_0000, 0x1_0000_0000);
            lemma_product_bound(ry as int, sx as int, 0x1_0000_0000, 0x1_0000_0000);
            lemma_product_bound(qx as int, sy as int, 0x1_0000_0000, 0x1_0000_0000);
            lemma_product_bound(qy as int, sx as int, 0x1_0000_0000, 0x1_0000_0000);
            lemma_product_bound(qx as int, ry as int, 0x1_0000_0000, 0x1_0000_0000);
            lemma_product_bound(qy as int, rx as int, 0x1_0000_0000, 0x1_0000_0000);
        }
        let r_cross_s: i128 = rx * sy - ry * sx;
        let q_cross_s: i128 = qx * sy - qy * sx;
        let q_cross_r: i128 = qx * ry - qy * rx;
        if r_cross_s > -PARALLEL_LIMIT && r_cross_s < PARALLEL_LIMIT {
            return false;
        }
        if r_cross_s > 0 {
            0 <= q_cross_s && q_cross_s <= r_cross_s && 0 <= q_cross_r && q_cross_r <= r_cross_s
        } else {
            r_cross_s <= q_cross_s && q_cross_s <= 0 && r_cross_s <= q_cross_r && q_cross_r <= 0
        }
    }

    /// The mean of the segments' starts.
    pub fn centroid(&self) -> (r: Vec2)
        ensures
            r == self.centroid_spec(),
    {
        let n = self.segments.len();
        if n == 0 {
            return Vec2::zero();
        }
        let mut sum_x: i128 = 0;
        let mut sum_y: i128 = 0;
        let mut i: usize = 0;
        while i < n
            invariant
                n == self.segments.len(),
                i <= n,
                sum_x == sum_start_x(self.segments@.take(i as int)),
                sum_y == sum_start_y(self.segments@.take(i as int)),
                -0x8000_0000 * i <= sum_x <= 0x8000_0000 * i,
                -0x8000_0000 * i <= sum_y <= 0x8000_0000 * i,
            decreases n - i,
        {
            proof {
                assert(self.segments@.take(i + 1).drop_last() == self.segments@.take(i as int));
            }
            sum_x = sum_x + self.segments[i].start.x as i128;
            sum_y = sum_y + self.segments[i].start.y as i128;
            i += 1;
        }
        proof {
            assert(self.segments@.take(i as int) == self.segments@);
        }
        Vec2 {
            x: saturate(quot_wide(sum_x, n as i128)),
            y: saturate(quot_wide(sum_y, n as i128)),
        }
    }
}

/// The cell coordinate of `v` along one axis: `v / cell_size` rounded down.
pub open spec fn cell_coord_spec(v: int, cell_size: int) -> int {
    v / cell_size
}

/// The number of cells that `radius` spans: `radius / cell_size` rounded up.
pub open spec fn cell_reach_spec(radius: int, cell_size: int) -> int {
    -((-radius) / cell_size)
}

/// Whether `(cx, cy)` is a cell that a position can fall into.
pub open spec fn is_cell(cx: int, cy: int) -> bool {
    &&& i32::MIN <= cx <= i32::MAX
    &&& i32::MIN <= cy <= i32::MAX
}

/// The map key of a cell: both coordinates, shifted to be non-negative,
/// side by side in one word.
pub open spec fn key_spec(cx: int, cy: int) -> int {
    (cx + 0x8000_0000) * 0x1_0000_0000 + (cy + 0x8000_0000)
}

/// `position` is at most `radius` away from `query`.
pub open spec fn within_spec(position: Vec2, query: Vec2, radius: int) -> bool {
    &&& radius >= 0
    &&& {
        let dx = position.x - query.x;
        let dy = position.y - query.y;
        dx * dx + dy * dy <= radius * radius
    }
}

/// `v / d` rounded down, for a positive `d`.
fn floor_div(v: i64, d: i64) -> (r: i64)
    requires
        d > 0,
        -0x1_0000_0000 <= v <= 0x1_0000_0000,
        d <= 0x1_0000_0000,
    ensures
        r == v as int / d as int,
        -0x1_0000_0000 <= r <= 0x1_0000_0000,
{
    if v >= 0 {
        proof {
            vstd::arithmetic::div_mod::lemma_div_pos_is_pos(v as int, d as int);
            vstd::arithmetic::div_mod::lemma_div_nonincreasing(v as int, d as int);
        }
        v / d
    } else {
        let up: i64 = -v;
        let q0: i64 = up / d;
        let r0: i64 = up % d;
        proof {
            vstd::arithmetic::div_mod::lemma_div_pos_is_pos(up as int, d as int);
            vstd::arithmetic::div_mod::lemma_div_nonincreasing(up as int, d as int);
            vstd::arithmetic::div_mod::lemma_fundamental_div_mod(up as int, d as int);
            vstd::arithmetic::div_mod::lemma_mod_bound(up as int, d as int);
        }
        if r0 == 0 {
            proof {
                assert(v == (-q0) * d + 0) by (nonlinear_arith)
                    requires
                        -v == d * q0 + 0,
                ;
                vstd::arithmetic::div_mod::lemma_fundamental_div_mod_converse(
                    v as int,
                    d as int,
                    -q0 as int,
                    0,
                );
            }
            -q0
        } else {
            proof {
                assert(v == (-q0 - 1) * d + (d - r0)) by (nonlinear_arith)
                    requires
                        -v == d * q0 + r0,
                ;
                assert(d * q0 >= q0) by (nonlinear_arith)
                    requires
                        d >= 1,
                        q0 >= 0,
                ;
                vstd::arithmetic::div_mod::lemma_fundamental_div_mod_converse(
                    v as int,
                    d as int,
                    -q0 - 1,
                    d - r0,
                );
            }
            -q0 - 1
        }
    }
}

/// A uniform grid of square cells, each with the indices put into it, in
/// the order in which they came. The indices point into a collection that
/// the grid does not own: after that collection changes, clear the grid and
/// fill it again before the next query.
pub struct SpatialGrid {
    cell_size: i32,
    cells: HashMap<u64, Vec<usize>>,
    width: i32,
    height: i32,
}

impl SpatialGrid {
    /// The side of a cell is positive.
    #[verifier::type_invariant]
    pub open spec fn wf(self) -> bool {
        self.cell_size_spec() > 0
    }

    /// The side of a cell.
    pub closed spec fn cell_size_spec(self) -> int {
        self.cell_size as int
    }

    /// Width and height as given when the grid was made.
    pub closed spec fn extent_spec(self) -> (int, int) {
        (self.width as int, self.height as int)
    }

    /// The indices in the cell `(cx, cy)`, in the order of their insertion.
    pub closed spec fn bucket(self, cx: int, cy: int) -> Seq<usize> {
        if is_cell(cx, cy) && self.cells@.contains_key(key_spec(cx, cy) as u64) {
            self.cells@[key_spec(cx, cy) as u64]@
        } else {
            Seq::empty()
        }
    }

    /// The cell that `position` falls into.
    pub open spec fn cell_of_spec(self, position: Vec2) -> (int, int) {
        (
            cell_coord_spec(position.x as int, self.cell_size_spec()),
            cell_coord_spec(position.y as int, self.cell_size_spec()),
        )
    }

    /// The cell of `position` holds `index`: at some time `index` was put
    /// in at a position of the same cell, and the grid was not cleared
    /// since.
    pub open spec fn holds(self, index: usize, position: Vec2) -> bool {
        self.bucket(self.cell_of_spec(position).0, self.cell_of_spec(position).1).contains(index)
    }

    /// The buckets of the `count` cells from `(left, cy)` to the right, one
    /// after the other.
    pub open spec fn row_spec(self, left: int, cy: int, count: nat) -> Seq<usize>
        decreases count,
    {
        if count == 0 {
            Seq::empty()
        } else {
            self.row_spec(left, cy, (count - 1) as nat) + self.bucket(left + count - 1, cy)
        }
    }

    /// The rows of `width` cells from `(left, top)` on, `rows` of them, one
    /// after the other.
    pub open spec fn block_spec(self, left: int, top: int, width: nat, rows: nat) -> Seq<usize>
        decreases rows,
    {
        if rows == 0 {
            Seq::empty()
        } else {
            self.block_spec(left, top, width, (rows - 1) as nat) + self.row_spec(
                left,
                top + rows - 1,
                width,
            )
        }
    }

    /// What a query around `position` returns: the buckets of the square
    /// of cells that reaches `radius`, rounded up to whole cells, to each
    /// side of the cell of `position`; row by row from the least `y`, each
    /// row from the least `x`. A radius of zero, or a negative one short of
    /// a whole cell, reaches the cell of `position` alone; a negative
    /// radius of a whole cell or more gives nothing.
    pub open spec fn nearby_spec(self, position: Vec2, radius: int) -> Seq<usize> {
        let reach = cell_reach_spec(radius, self.cell_size_spec());
        let (cx, cy) = self.cell_of_spec(position);
        if reach < 0 {
            Seq::empty()
        } else {
            self.block_spec(cx - reach, cy - reach, (2 * reach + 1) as nat, (2 * reach + 1) as nat)
        }
    }

    /// An empty grid of cells of side `cell_size`. A side below the
    /// smallest unit counts as the smallest unit.
    pub fn new(width: i32, height: i32, cell_size: i32) -> (r: SpatialGrid)
        ensures
            r.wf(),
            r.cell_size_spec() == if cell_size < 1 {
                1
            } else {
                cell_size as int
            },
            r.extent_spec() == (width as int, height as int),
            forall|cx: int, cy: int| #[trigger] r.bucket(cx, cy) == Seq::<usize>::empty(),
    {
        let side: i32 = if cell_size < 1 {
            1
        } else {
            cell_size
        };
        SpatialGrid { cell_size: side, cells: HashMap::new(), width, height }
    }

    /// Empties every cell.
    pub fn clear(&mut self)
        ensures
            final(self).wf(),
            final(self).cell_size_spec() == old(self).cell_size_spec(),
            final(self).extent_spec() == old(self).extent_spec(),
            forall|cx: int, cy: int| #[trigger] final(self).bucket(cx, cy) == Seq::<usize>::empty(),
    {
        proof {
            use_type_invariant(&*self);
        }
        // The map is taken out, emptied and put back, so that it keeps what
        // it has allocated.
        let mut cells: HashMap<u64, Vec<usize>> = HashMap::new();
        std::mem::swap(&mut self.cells, &mut cells);
        cells.clear();
        std::mem::swap(&mut self.cells, &mut cells);
    }

    /// Puts `particle_idx` last into the cell of `position`.
    pub fn insert(&mut self, particle_idx: usize, position: Vec2)
        ensures
            final(self).wf(),
            final(self).cell_size_spec() == old(self).cell_size_spec(),
            final(self).extent_spec() == old(self).extent_spec(),
            forall|cx: int, cy: int|
                #[trigger] final(self).bucket(cx, cy) == if (cx, cy) == old(self).cell_of_spec(position) {
                    old(self).bucket(cx, cy).push(particle_idx)
                } else {
                    old(self).bucket(cx, cy)
                },
            final(self).holds(particle_idx, position),
            forall|index: usize, at: Vec2| #[trigger] old(self).holds(index, at) ==> final(self).holds(index, at),
    {
        broadcast use vstd::std_specs::hash::group_hash_axioms;

        proof {
            use_type_invariant(&*self);
        }
        let cell = self.get_cell(position);
        let key = Self::key_of(cell.0, cell.1);
        let mut cells: HashMap<u64, Vec<usize>> = HashMap::new();
        std::mem::swap(&mut self.cells, &mut cells);
        let mut indices: Vec<usize> = match cells.remove(&key) {
            Some(found) => found,
            None => Vec::new(),
        };
        indices.push(particle_idx);
        cells.insert(key, indices);
        std::mem::swap(&mut self.cells, &mut cells);
        proof {
            assert forall|cx: int, cy: int|
                #[trigger] self.bucket(cx, cy) == if (cx, cy) == old(self).cell_of_spec(position) {
                    old(self).bucket(cx, cy).push(particle_idx)
                } else {
                    old(self).bucket(cx, cy)
                } by {
                if is_cell(cx, cy) && (cx, cy) != (cell.0 as int, cell.1 as int) {
                    assert(key_spec(cx, cy) != key_spec(cell.0 as int, cell.1 as int));
                }
            }
            let before = old(self).bucket(cell.0 as int, cell.1 as int);
            assert(before.push(particle_idx)[before.len() as int] == particle_idx);
            assert forall|index: usize, at: Vec2| #[trigger] old(self).holds(index, at) implies self.holds(index, at) by {
                let (ax, ay) = old(self).cell_of_spec(at);
                let was = old(self).bucket(ax, ay);
                let i = choose|i: int| 0 <= i < was.len() && was[i] == index;
                assert(self.bucket(ax, ay)[i] == index);
            }
        }
    }

    /// The indices in the cells near `position`. This is a coarse search:
    /// it returns every index within `radius` and others from the same
    /// cells, so the caller still has to measure. It visits every cell of
    /// the square, so its cost grows with the square of `radius / cell_size`.
    pub fn query_nearby(&self, position: Vec2, radius: i32) -> (r: Vec<usize>)
        ensures
            self.wf(),
            r@ == self.nearby_spec(position, radius as int),
    {
        proof {
            use_type_invariant(self);
        }
        let reach: i64 = -floor_div(-(radius as i64), self.cell_size as i64);
        let center = self.get_cell(position);
        let mut result: Vec<usize> = Vec::new();
        if reach < 0 {
            return result;
        }
        let side: i64 = 2 * reach + 1;
        let left: i64 = center.0 as i64 - reach;
        let top: i64 = center.1 as i64 - reach;
        let mut row: i64 = 0;
        while row < side
            invariant
                0 <= row <= side <= 0x2_0000_0001,
                -0x2_0000_0000 <= left <= 0x2_0000_0000,
                -0x2_0000_0000 <= top <= 0x2_0000_0000,
                result@ == self.block_spec(left as int, top as int, side as nat, row as nat),
            decreases side - row,
        {
            let ghost above = result@;
            let mut col: i64 = 0;
            while col < side
                invariant
                    0 <= col <= side <= 0x2_0000_0001,
                    0 <= row < side,
                    -0x2_0000_0000 <= left <= 0x2_0000_0000,
                    -0x2_0000_0000 <= top <= 0x2_0000_0000,
                    result@ == above + self.row_spec(left as int, top + row, col as nat),
                decreases side - col,
            {
                self.append_bucket(left + col, top + row, &mut result);
                proof {
                    assert(result@ == above + self.row_spec(left as int, top + row, (col + 1) as nat));
                }
                col += 1;
            }
            row += 1;
        }
        result
    }

    fn get_cell(&self, position: Vec2) -> (r: (i32, i32))
        ensures
            (r.0 as int, r.1 as int) == self.cell_of_spec(position),
    {
        proof {
            use_type_invariant(self);
            vstd::arithmetic::div_mod::lemma_div_nonincreasing(
                abs(position.x as int),
                self.cell_size as int,
            );
            vstd::arithmetic::div_mod::lemma_div_nonincreasing(
                abs(position.y as int),
                self.cell_size as int,
            );
            lemma_floor_stays(position.x as int, self.cell_size as int);
            lemma_floor_stays(position.y as int, self.cell_size as int);
        }
        (
            floor_div(position.x as i64, self.cell_size as i64) as i32,
            floor_div(position.y as i64, self.cell_size as i64) as i32,
        )
    }

    fn key_of(cx: i32, cy: i32) -> (r: u64)
        ensures
            r == key_spec(cx as int, cy as int),
    {
        ((cx as i64 + 0x8000_0000) as u64) * 0x1_0000_0000 + ((cy as i64 + 0x8000_0000) as u64)
    }

    fn append_bucket(&self, cx: i64, cy: i64, out: &mut Vec<usize>)
        ensures
            final(out)@ == old(out)@ + self.bucket(cx as int, cy as int),
    {
        broadcast use vstd::std_specs::hash::group_hash_axioms;

        if cx < i32::MIN as i64 || cx > i32::MAX as i64 || cy < i32::MIN as i64 || cy
            > i32::MAX as i64 {
            assert(out@ == old(out)@ + Seq::<usize>::empty());
            return ;
        }
        let key = Self::key_of(cx as i32, cy as i32);
        match self.cells.get(&key) {
            Some(indices) => {
                let mut i: usize = 0;
                while i < indices.len()
                    invariant
                        i <= indices.len(),
                        out@ == old(out)@ + indices@.take(i as int),
                    decreases indices.len() - i,
                {
                    out.push(indices[i]);
                    proof {
                        assert(indices@.take(i + 1) == indices@.take(i as int).push(indices@[i as int]));
                    }
                    i += 1;
                }
                proof {
                    assert(indices@.take(i as int) == indices@);
                }
            },
            None => {
                assert(out@ == old(out)@ + Seq::<usize>::empty());
            },
        }
    }
}

/// Rounding a coordinate down to a cell keeps it inside the `i32` range.
proof fn lemma_floor_stays(v: int, d: int)
    requires
        d > 0,
        i32::MIN <= v <= i32::MAX,
    ensures
        i32::MIN <= v / d <= i32::MAX,
{
    vstd::arithmetic::div_mod::lemma_fundamental_div_mod(v, d);
    vstd::arithmetic::div_mod::lemma_mod_bound(v, d);
    let q = v / d;
    assert(i32::MIN <= q <= i32::MAX) by (nonlinear_arith)
        requires
            v == d * q + v % d,
            0 <= v % d < d,
            d > 0,
            -0x8000_0000 <= v <= 0x7fff_ffff,
    ;
}

/// What either part holds, the whole holds.
proof fn lemma_concat_holds(a: Seq<usize>, b: Seq<usize>, x: usize)
    requires
        a.contains(x) || b.contains(x),
    ensures
        (a + b).contains(x),
{
    if a.contains(x) {
        let i = choose|i: int| 0 <= i < a.len() && a[i] == x;
        assert((a + b)[i] == x);
    } else {
        let i = choose|i: int| 0 <= i < b.len() && b[i] == x;
        assert((a + b)[a.len() + i] == x);
    }
}

/// Coordinates at most `r` apart fall into cells at most the reach of `r`
/// apart.
pub proof fn lemma_cells_within_reach(a: int, b: int, r: int, cell_size: int)
    requires
        cell_size > 0,
        -r <= a - b <= r,
    ensures
        -cell_reach_spec(r, cell_size) <= cell_coord_spec(a, cell_size) - cell_coord_spec(
            b,
            cell_size,
        ) <= cell_reach_spec(r, cell_size),
{
    let k = cell_reach_spec(r, cell_size);
    vstd::arithmetic::div_mod::lemma_fundamental_div_mod(-r, cell_size);
    vstd::arithmetic::div_mod::lemma_mod_bound(-r, cell_size);
    assert(r <= k * cell_size) by (nonlinear_arith)
        requires
            -r == cell_size * ((-r) / cell_size) + (-r) % cell_size,
            0 <= (-r) % cell_size,
            k == -((-r) / cell_size),
    ;
    vstd::arithmetic::div_mod::lemma_hoist_over_denominator(b, k, cell_size as nat);
    vstd::arithmetic::div_mod::lemma_div_is_ordered(a, b + k * cell_size, cell_size);
    vstd::arithmetic::div_mod::lemma_hoist_over_denominator(a, k, cell_size as nat);
    vstd::arithmetic::div_mod::lemma_div_is_ordered(b, a + k * cell_size, cell_size);
}

/// Points within a distance are within it along each axis.
pub proof fn lemma_within_per_axis(position: Vec2, query: Vec2, radius: int)
    requires
        within_spec(position, query, radius),
    ensures
        -radius <= position.x - query.x <= radius,
        -radius <= position.y - query.y <= radius,
{
    let dx = position.x - query.x;
    let dy = position.y - query.y;
    assert(-radius <= dx <= radius && -radius <= dy <= radius) by (nonlinear_arith)
        requires
            radius >= 0,
            dx * dx + dy * dy <= radius * radius,
    {
        assert(dx * dx >= 0 && dy * dy >= 0);
        if dx > radius {
            assert(dx * dx > radius * radius);
        }
        if dx < -radius {
            assert(dx * dx > radius * radius);
        }
        if dy > radius {
            assert(dy * dy > radius * radius);
        }
        if dy < -radius {
            assert(dy * dy > radius * radius);
        }
    }
}

impl SpatialGrid {
    /// A row holds what each of its cells holds.
    pub proof fn lemma_row_holds(self, left: int, cy: int, count: nat, j: int, index: usize)
        requires
            0 <= j < count,
            self.bucket(left + j, cy).contains(index),
        ensures
            self.row_spec(left, cy, count).contains(index),
        decreases count,
    {
        if j < count - 1 {
            self.lemma_row_holds(left, cy, (count - 1) as nat, j, index);
        }
        lemma_concat_holds(
            self.row_spec(left, cy, (count - 1) as nat),
            self.bucket(left + count - 1, cy),
            index,
        );
    }

    /// A block holds what each of its cells holds.
    pub proof fn lemma_block_holds(
        self,
        left: int,
        top: int,
        width: nat,
        rows: nat,
        i: int,
        j: int,
        index: usize,
    )
        requires
            0 <= i < rows,
            0 <= j < width,
            self.bucket(left + j, top + i).contains(index),
        ensures
            self.block_spec(left, top, width, rows).contains(index),
        decreases rows,
    {
        if i < rows - 1 {
            self.lemma_block_holds(left, top, width, (rows - 1) as nat, i, j, index);
        } else {
            self.lemma_row_holds(left, top + i, width, j, index);
        }
        lemma_concat_holds(
            self.block_spec(left, top, width, (rows - 1) as nat),
            self.row_spec(left, top + rows - 1, width),
            index,
        );
    }

    /// A query misses nothing: an index put in at `position` is among the
    /// results of every query whose centre is at most `radius` away from
    /// `position`. What a query returns beyond that, the caller has to sort
    /// out by measuring.
    pub proof fn lemma_query_finds(self, index: usize, position: Vec2, query: Vec2, radius: int)
        requires
            self.wf(),
            self.holds(index, position),
            within_spec(position, query, radius),
        ensures
            self.nearby_spec(query, radius).contains(index),
    {
        let size = self.cell_size_spec();
        let reach = cell_reach_spec(radius, size);
        let (px, py) = self.cell_of_spec(position);
        let (qx, qy) = self.cell_of_spec(query);
        lemma_within_per_axis(position, query, radius);
        lemma_cells_within_reach(position.x as int, query.x as int, radius, size);
        lemma_cells_within_reach(position.y as int, query.y as int, radius, size);
        self.lemma_block_holds(
            qx - reach,
            qy - reach,
            (2 * reach + 1) as nat,
            (2 * reach + 1) as nat,
            py - qy + reach,
            px - qx + reach,
            index,
        );
    }
}

} // verus!
