//! Vectors and force fields.

use vstd::prelude::*;
use crate::fixed::{
    abs, clamp_i32, cos_milli, cos_spec, div_spec, fx_add, fx_div, fx_mul, fx_sub, isqrt,
    lemma_quot_bounds, lemma_sqrt_is, lemma_unit_length, mul_spec, norm_spec, quot, quot_wide,
    saturate, sin_milli, sin_spec, sqrt_spec, unit_spec, wide_mul,
};

pub mod utils;

verus! {

/// A 2D vector of fixed-point components.
#[derive(Clone, Copy, Debug, PartialEq, Eq, Structural)]
pub struct Vec2 {
    pub x: i32,
    pub y: i32,
}

/// The unit vector along `(x, y)`, or zero for the zero vector. Each
/// component is `c / len` in thousandths, its fraction dropped, where `len`
/// is the length of `(x, y)` to the thousandth of a raw unit.
pub open spec fn normalize_spec(x: int, y: int) -> Vec2 {
    Vec2 {
        x: unit_spec(x, norm_spec(x, y)) as i32,
        y: unit_spec(y, norm_spec(x, y)) as i32,
    }
}

/// A normalized vector is zero or of unit length: its components lie
/// between -1000 and 1000, and unless the vector was zero the sum of their
/// squares lies within about two thousandths, in the length, of 1000
/// squared.
pub proof fn lemma_normalize_unit(x: int, y: int)
    ensures
        -1000 <= normalize_spec(x, y).x <= 1000,
        -1000 <= normalize_spec(x, y).y <= 1000,
        x == 0 && y == 0 ==> normalize_spec(x, y) == Vec2::zero_spec(),
        x != 0 || y != 0 ==> 995_998 <= normalize_spec(x, y).length_squared_wide_spec() <= 1_002_000,
{
    lemma_unit_length(x, y);
    if x == 0 && y == 0 {
        assert(x * x + y * y == 0) by (nonlinear_arith)
            requires
                x == 0,
                y == 0,
        ;
        lemma_sqrt_is(0, 0);
    }
}

/// Normalizes a vector given by wide components.
pub(crate) fn normalize_wide(x: i64, y: i64) -> (r: Vec2)
    requires
        -0x1_0000_0000 <= x <= 0x1_0000_0000,
        -0x1_0000_0000 <= y <= 0x1_0000_0000,
    ensures
        r == normalize_spec(x as int, y as int),
        -1000 <= r.x <= 1000,
        -1000 <= r.y <= 1000,
{
    assert(0 <= x * x <= 0x1_0000_0000_0000_0000) by (nonlinear_arith)
        requires
            -0x1_0000_0000 <= x <= 0x1_0000_0000,
    ;
    assert(0 <= y * y <= 0x1_0000_0000_0000_0000) by (nonlinear_arith)
        requires
            -0x1_0000_0000 <= y <= 0x1_0000_0000,
    ;
    let n: u128 = 1_000_000 * (((x as i128) * (x as i128) + (y as i128) * (y as i128)) as u128);
    let len = isqrt(n);
    proof {
        lemma_unit_length(x as int, y as int);
        assert(len < 0x1_0000_0000_0000) by (nonlinear_arith)
            requires
                len * len <= n,
                n <= 1_000_000 * 0x2_0000_0000_0000_0000,
                len >= 0,
        ;
    }
    if len == 0 {
        Vec2 { x: 0, y: 0 }
    } else {
        let nx = quot_wide(x as i128 * 1_000_000, len as i128);
        let ny = quot_wide(y as i128 * 1_000_000, len as i128);
        Vec2 { x: nx as i32, y: ny as i32 }
    }
}

impl Vec2 {
    pub open spec fn zero_spec() -> Vec2 {
        Vec2 { x: 0, y: 0 }
    }

    pub open spec fn add_spec(self, other: Vec2) -> Vec2 {
        Vec2 { x: clamp_i32(self.x + other.x) as i32, y: clamp_i32(self.y + other.y) as i32 }
    }

    pub open spec fn sub_spec(self, other: Vec2) -> Vec2 {
        Vec2 { x: clamp_i32(self.x - other.x) as i32, y: clamp_i32(self.y - other.y) as i32 }
    }

    pub open spec fn scale_spec(self, k: int) -> Vec2 {
        Vec2 { x: mul_spec(self.x as int, k) as i32, y: mul_spec(self.y as int, k) as i32 }
    }

    pub open spec fn div_spec(self, k: int) -> Vec2 {
        Vec2 { x: div_spec(self.x as int, k) as i32, y: div_spec(self.y as int, k) as i32 }
    }

    /// The exact dot product, in squared raw units.
    pub open spec fn dot_wide_spec(self, other: Vec2) -> int {
        self.x * other.x + self.y * other.y
    }

    /// The exact squared length, in squared raw units.
    pub open spec fn length_squared_wide_spec(self) -> int {
        self.x * self.x + self.y * self.y
    }

    /// The length in raw units, rounded down, saturating.
    pub open spec fn length_spec(self) -> int {
        clamp_i32(sqrt_spec(self.length_squared_wide_spec()))
    }

    pub open spec fn normalize_or_zero_spec(self) -> Vec2 {
        normalize_spec(self.x as int, self.y as int)
    }

    pub open spec fn min_spec(self, other: Vec2) -> Vec2 {
        Vec2 {
            x: if self.x <= other.x { self.x } else { other.x },
            y: if self.y <= other.y { self.y } else { other.y },
        }
    }

    pub open spec fn max_spec(self, other: Vec2) -> Vec2 {
        Vec2 {
            x: if self.x >= other.x { self.x } else { other.x },
            y: if self.y >= other.y { self.y } else { other.y },
        }
    }

    /// The distance to `other`, from the exact difference.
    pub open spec fn distance_spec(self, other: Vec2) -> int {
        let dx = self.x - other.x;
        let dy = self.y - other.y;
        clamp_i32(sqrt_spec(dx * dx + dy * dy))
    }

    pub fn new(x: i32, y: i32) -> (r: Vec2)
        ensures
            r == (Vec2 { x, y }),
    {
        Vec2 { x, y }
    }

    pub fn zero() -> (r: Vec2)
        ensures
            r == Vec2::zero_spec(),
    {
        Vec2 { x: 0, y: 0 }
    }

    /// Component-wise saturating sum.
    pub fn add(self, other: Vec2) -> (r: Vec2)
        ensures
            r == self.add_spec(other),
    {
        Vec2 { x: fx_add(self.x, other.x), y: fx_add(self.y, other.y) }
    }

    /// Component-wise saturating difference.
    pub fn sub(self, other: Vec2) -> (r: Vec2)
        ensures
            r == self.sub_spec(other),
    {
        Vec2 { x: fx_sub(self.x, other.x), y: fx_sub(self.y, other.y) }
    }

    /// The vector times a fixed-point scalar.
    pub fn scale(self, k: i32) -> (r: Vec2)
        ensures
            r == self.scale_spec(k as int),
    {
        Vec2 { x: fx_mul(self.x, k), y: fx_mul(self.y, k) }
    }

    /// The vector divided by a fixed-point scalar.
    pub fn div(self, k: i32) -> (r: Vec2)
        ensures
            r == self.div_spec(k as int),
    {
        Vec2 { x: fx_div(self.x, k), y: fx_div(self.y, k) }
    }

    /// The exact dot product, in squared raw units.
    pub fn dot_wide(self, other: Vec2) -> (r: i128)
        ensures
            r == self.dot_wide_spec(other),
            -0x8000_0000_0000_0000 <= r <= 0x8000_0000_0000_0000,
    {
        wide_mul(self.x, other.x) + wide_mul(self.y, other.y)
    }

    /// The exact squared length, in squared raw units.
    pub fn length_squared_wide(self) -> (r: i128)
        ensures
            r == self.length_squared_wide_spec(),
            0 <= r <= 0x8000_0000_0000_0000,
    {
        assert(self.x * self.x >= 0 && self.y * self.y >= 0) by (nonlinear_arith);
        wide_mul(self.x, self.x) + wide_mul(self.y, self.y)
    }

    /// The dot product as a fixed-point scalar.
    pub fn dot(self, other: Vec2) -> (r: i32)
        ensures
            r == clamp_i32(quot(self.dot_wide_spec(other), 1000)),
    {
        saturate(quot_wide(self.dot_wide(other), 1000))
    }

    /// The squared length as a fixed-point scalar.
    pub fn length_squared(self) -> (r: i32)
        ensures
            r == clamp_i32(quot(self.length_squared_wide_spec(), 1000)),
    {
        saturate(quot_wide(self.length_squared_wide(), 1000))
    }

    /// The length, rounded down.
    pub fn length(self) -> (r: i32)
        ensures
            r == self.length_spec(),
            r >= 0,
    {
        let n = self.length_squared_wide();
        saturate(isqrt(n as u128) as i128)
    }

    /// The unit vector of the same direction; zero for the zero vector.
    pub fn normalize_or_zero(self) -> (r: Vec2)
        ensures
            r == self.normalize_or_zero_spec(),
            -1000 <= r.x <= 1000,
            -1000 <= r.y <= 1000,
    {
        normalize_wide(self.x as i64, self.y as i64)
    }

    pub fn min(self, other: Vec2) -> (r: Vec2)
        ensures
            r == self.min_spec(other),
    {
        Vec2 {
            x: if self.x <= other.x { self.x } else { other.x },
            y: if self.y <= other.y { self.y } else { other.y },
        }
    }

    pub fn max(self, other: Vec2) -> (r: Vec2)
        ensures
            r == self.max_spec(other),
    {
        Vec2 {
            x: if self.x >= other.x { self.x } else { other.x },
            y: if self.y >= other.y { self.y } else { other.y },
        }
    }

    /// The distance to `other`, rounded down.
    pub fn distance(self, other: Vec2) -> (r: i32)
        ensures
            r == self.distance_spec(other),
            r >= 0,
    {
        let dx: i64 = self.x as i64 - other.x as i64;
        let dy: i64 = self.y as i64 - other.y as i64;
        assert(0 <= dx * dx <= 0x1_0000_0000_0000_0000) by (nonlinear_arith)
            requires
                -0x1_0000_0000 <= dx <= 0x1_0000_0000,
        ;
        assert(0 <= dy * dy <= 0x1_0000_0000_0000_0000) by (nonlinear_arith)
            requires
                -0x1_0000_0000 <= dy <= 0x1_0000_0000,
        ;
        let n: u128 = ((dx as i128) * (dx as i128) + (dy as i128) * (dy as i128)) as u128;
        saturate(isqrt(n) as i128)
    }
}

/// A force field: a pure function of position.
#[derive(Clone, Copy, Debug)]
pub enum Force {
    /// The same force everywhere.
    Gravity(Vec2),
    /// A steady push along `direction` plus a position-dependent ripple.
    Wind { direction: Vec2, strength: i32, turbulence: i32 },
    /// Pulls toward `position` inside `radius`.
    Attractor { position: Vec2, strength: i32, radius: i32 },
    /// Pushes away from `position` inside `radius`.
    Repulsor { position: Vec2, strength: i32, radius: i32 },
}

/// The ripple of a wind at `position`: the sine wave of a tenth of `x` and
/// the cosine wave of a tenth of `y`, each times `turbulence`.
pub open spec fn ripple_spec(position: Vec2, turbulence: int) -> Vec2 {
    Vec2 {
        x: mul_spec(sin_spec(mul_spec(position.x as int, 100)), turbulence) as i32,
        y: mul_spec(cos_spec(mul_spec(position.y as int, 100)), turbulence) as i32,
    }
}

/// The force of a point field along `diff`, the vector from where the force
/// acts to where it points: zero at the anchor and from `radius` on, else of
/// magnitude `strength / (distance squared + 1)` along `diff`.
pub open spec fn pull_spec(diff: Vec2, strength: int, radius: int) -> Vec2 {
    let d2 = diff.length_squared_wide_spec();
    if 0 < d2 < radius * radius {
        diff.normalize_or_zero_spec().scale_spec(quot(strength * 1_000_000, d2 + 1_000_000))
    } else {
        Vec2::zero_spec()
    }
}

fn ripple(position: Vec2, turbulence: i32) -> (r: Vec2)
    ensures
        r == ripple_spec(position, turbulence as int),
{
    Vec2 {
        x: fx_mul(sin_milli(fx_mul(position.x, 100)), turbulence),
        y: fx_mul(cos_milli(fx_mul(position.y, 100)), turbulence),
    }
}

fn pull(diff: Vec2, strength: i32, radius: i32) -> (r: Vec2)
    ensures
        r == pull_spec(diff, strength as int, radius as int),
{
    let d2 = diff.length_squared_wide();
    let r2 = wide_mul(radius, radius);
    if d2 < r2 && d2 > 0 {
        let wide_magnitude = quot_wide(strength as i128 * 1_000_000, d2 + 1_000_000);
        proof {
            lemma_quot_bounds(strength as int * 1_000_000, d2 as int + 1_000_000);
            assert(abs(strength as int * 1_000_000) <= abs(strength as int) * (d2 as int
                + 1_000_000)) by (nonlinear_arith)
                requires
                    d2 >= 0,
            ;
            vstd::arithmetic::div_mod::lemma_div_is_ordered(
                abs(strength as int * 1_000_000),
                abs(strength as int) * (d2 as int + 1_000_000),
                d2 as int + 1_000_000,
            );
            vstd::arithmetic::div_mod::lemma_div_multiples_vanish(
                abs(strength as int),
                d2 as int + 1_000_000,
            );
        }
        diff.normalize_or_zero().scale(wide_magnitude as i32)
    } else {
        Vec2::zero()
    }
}

impl Force {
    /// The force at `position`.
    pub open spec fn calculate_at_spec(self, position: Vec2) -> Vec2 {
        match self {
            Force::Gravity(g) => g,
            Force::Wind { direction, strength, turbulence } => direction.normalize_or_zero_spec().scale_spec(
                strength as int,
            ).add_spec(ripple_spec(position, turbulence as int)),
            Force::Attractor { position: anchor, strength, radius } => pull_spec(
                anchor.sub_spec(position),
                strength as int,
                radius as int,
            ),
            Force::Repulsor { position: anchor, strength, radius } => pull_spec(
                position.sub_spec(anchor),
                strength as int,
                radius as int,
            ),
        }
    }

    /// Evaluates the force at `position`. This match is the one place that
    /// knows every kind of force.
    pub fn calculate_at(&self, position: Vec2) -> (r: Vec2)
        ensures
            r == self.calculate_at_spec(position),
    {
        match self {
            Force::Gravity(g) => *g,
            Force::Wind { direction, strength, turbulence } => direction.normalize_or_zero().scale(
                *strength,
            ).add(ripple(position, *turbulence)),
            Force::Attractor { position: anchor, strength, radius } => pull(
                anchor.sub(position),
                *strength,
                *radius,
            ),
            Force::Repulsor { position: anchor, strength, radius } => pull(
                position.sub(*anchor),
                *strength,
                *radius,
            ),
        }
    }

    /// A constant force.
    pub fn gravity(x: i32, y: i32) -> (r: Force)
        ensures
            r == Force::Gravity(Vec2 { x, y }),
    {
        Force::Gravity(Vec2::new(x, y))
    }

    /// A wind without turbulence.
    pub fn wind(direction: Vec2, strength: i32) -> (r: Force)
        ensures
            r == (Force::Wind { direction, strength, turbulence: 0 }),
    {
        Force::Wind { direction, strength, turbulence: 0 }
    }

    /// A pull toward `position`.
    pub fn attractor(position: Vec2, strength: i32, radius: i32) -> (r: Force)
        ensures
            r == (Force::Attractor { position, strength, radius }),
    {
        Force::Attractor { position, strength, radius }
    }

    /// A push away from `position`.
    pub fn repulsor(position: Vec2, strength: i32, radius: i32) -> (r: Force)
        ensures
            r == (Force::Repulsor { position, strength, radius }),
    {
        Force::Repulsor { position, strength, radius }
    }
}

} // verus!
