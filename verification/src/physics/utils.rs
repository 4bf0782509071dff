//! Small vector helpers for collision response.

use vstd::prelude::*;
use crate::collision::lemma_product_bound;
use crate::fixed::{clamp_i32, quot, quot_wide, saturate, wide_mul};
use crate::physics::Vec2;

verus! {

/// `velocity` mirrored at a surface with unit normal `normal`:
/// `v - 2 (v . n) n`, each component rounded once.
pub open spec fn reflect_spec(velocity: Vec2, normal: Vec2) -> Vec2 {
    let d = velocity.dot_wide_spec(normal);
    Vec2 {
        x: clamp_i32(velocity.x - quot(2 * d * normal.x, 1_000_000)) as i32,
        y: clamp_i32(velocity.y - quot(2 * d * normal.y, 1_000_000)) as i32,
    }
}

/// `v`, shortened to `max_length` where it is longer.
pub open spec fn clamp_length_spec(v: Vec2, max_length: int) -> Vec2 {
    if v.length_squared_wide_spec() > max_length * max_length {
        v.normalize_or_zero_spec().scale_spec(max_length)
    } else {
        v
    }
}

/// The point the share `t` of the way from `a` to `b`: `a + (b - a) t`,
/// each component rounded once.
pub open spec fn lerp_spec(a: Vec2, b: Vec2, t: int) -> Vec2 {
    Vec2 {
        x: clamp_i32(a.x + quot((b.x - a.x) * t, 1000)) as i32,
        y: clamp_i32(a.y + quot((b.y - a.y) * t, 1000)) as i32,
    }
}

/// Reflects a velocity off a surface with the given unit normal.
pub fn reflect(velocity: Vec2, normal: Vec2) -> (r: Vec2)
    ensures
        r == reflect_spec(velocity, normal),
{
    let d = velocity.dot_wide(normal);
    proof {
        lemma_product_bound(2 * d, normal.x as int, 0x1_0000_0000_0000_0000, 0x8000_0000);
        lemma_product_bound(2 * d, normal.y as int, 0x1_0000_0000_0000_0000, 0x8000_0000);
    }
    let bx = quot_wide(2 * d * (normal.x as i128), 1_000_000);
    let by = quot_wide(2 * d * (normal.y as i128), 1_000_000);
    Vec2 { x: saturate(velocity.x as i128 - bx), y: saturate(velocity.y as i128 - by) }
}

/// Shortens a vector to at most `max_length`.
pub fn clamp_length(v: Vec2, max_length: i32) -> (r: Vec2)
    ensures
        r == clamp_length_spec(v, max_length as int),
{
    if v.length_squared_wide() > wide_mul(max_length, max_length) {
        v.normalize_or_zero().scale(max_length)
    } else {
        v
    }
}

/// Interpolates between two vectors; `t` is in thousandths.
pub fn lerp(a: Vec2, b: Vec2, t: i32) -> (r: Vec2)
    ensures
        r == lerp_spec(a, b, t as int),
{
    let dx: i128 = b.x as i128 - a.x as i128;
    let dy: i128 = b.y as i128 - a.y as i128;
    proof {
        lemma_product_bound(dx as int, t as int, 0x1_0000_0000, 0x8000_0000);
        lemma_product_bound(dy as int, t as int, 0x1_0000_0000, 0x8000_0000);
    }
    let mx = quot_wide(dx * (t as i128), 1000);
    let my = quot_wide(dy * (t as i128), 1000);
    Vec2 { x: saturate(a.x as i128 + mx), y: saturate(a.y as i128 + my) }
}

} // verus!
