//! Fixed-point scalar arithmetic.
//!
//! Every scalar of the engine is an `i32` counting thousandths: lengths in
//! thousandths of a world unit, times in milliseconds, angles in
//! milliradians. All operations are total and saturate at the ends of the
//! `i32` range; quotients drop their fraction (round toward zero).

use vstd::prelude::*;

verus! {

/// Raw units in one whole unit.
pub const SCALE: i32 = 1000;

/// Half a turn (pi) in milliradians, as the wave functions see it.
pub const HALF_TURN: i32 = 3142;

/// A quarter turn in milliradians.
pub const QUARTER_TURN: i32 = 1571;

/// The nearest `i32` to `v`.
pub open spec fn clamp_i32(v: int) -> int {
    if v < i32::MIN {
        i32::MIN as int
    } else if v > i32::MAX {
        i32::MAX as int
    } else {
        v
    }
}

/// The quotient of `a` by `b` with its fraction dropped; 0 when `b` is 0.
pub open spec fn quot(a: int, b: int) -> int {
    if b > 0 {
        if a >= 0 {
            a / b
        } else {
            -((-a) / b)
        }
    } else if b < 0 {
        if a >= 0 {
            -(a / (-b))
        } else {
            (-a) / (-b)
        }
    } else {
        0
    }
}

/// The product of two fixed-point scalars.
pub open spec fn mul_spec(a: int, b: int) -> int {
    clamp_i32(quot(a * b, SCALE as int))
}

/// The ratio of two fixed-point scalars. A zero divisor sends the result to
/// the end of the range on the dividend's side, and 0 / 0 to 0.
pub open spec fn div_spec(a: int, b: int) -> int {
    if b == 0 {
        if a > 0 {
            i32::MAX as int
        } else if a < 0 {
            i32::MIN as int
        } else {
            0
        }
    } else {
        clamp_i32(quot(a * SCALE, b))
    }
}

/// `r` is the integer square root of `n`.
pub open spec fn is_sqrt(n: int, r: int) -> bool {
    0 <= r && r * r <= n < (r + 1) * (r + 1)
}

/// The integer square root: the largest `r` with `r * r <= n`.
pub open spec fn sqrt_spec(n: int) -> int {
    choose|r: int| is_sqrt(n, r)
}

/// The bound of wide intermediate values: every product and sum formed from
/// `i32` inputs stays far inside it.
pub open spec fn wide(v: int) -> bool {
    -0x4000_0000_0000_0000_0000_0000_0000_0000 <= v <= 0x4000_0000_0000_0000_0000_0000_0000_0000
}

/// No number has two integer square roots.
proof fn lemma_sqrt_unique(n: int, r1: int, r2: int)
    requires
        is_sqrt(n, r1),
        is_sqrt(n, r2),
    ensures
        r1 == r2,
{
    if r1 < r2 {
        assert((r1 + 1) * (r1 + 1) <= r2 * r2) by (nonlinear_arith)
            requires
                0 <= r1,
                r1 + 1 <= r2,
        ;
    } else if r2 < r1 {
        assert((r2 + 1) * (r2 + 1) <= r1 * r1) by (nonlinear_arith)
            requires
                0 <= r2,
                r2 + 1 <= r1,
        ;
    }
}

/// Anything that squares around `n` is its square root.
pub(crate) proof fn lemma_sqrt_is(n: int, r: int)
    requires
        is_sqrt(n, r),
    ensures
        sqrt_spec(n) == r,
{
    let s = sqrt_spec(n);
    assert(is_sqrt(n, s));
    lemma_sqrt_unique(n, r, s);
}

/// The magnitude of a quotient is the quotient of the magnitudes.
pub(crate) proof fn lemma_quot_bounds(a: int, b: int)
    requires
        b != 0,
    ensures
        abs(quot(a, b)) == abs(a) / abs(b),
        abs(quot(a, b)) <= abs(a),
        (a >= 0) == (b > 0) ==> quot(a, b) >= 0,
        (a >= 0) != (b > 0) ==> quot(a, b) <= 0,
{
    let ua = abs(a);
    let ub = abs(b);
    vstd::arithmetic::div_mod::lemma_div_pos_is_pos(ua, ub);
    vstd::arithmetic::div_mod::lemma_div_nonincreasing(ua, ub);
}

/// The magnitude of `v`.
pub open spec fn abs(v: int) -> int {
    if v < 0 {
        -v
    } else {
        v
    }
}

/// Narrows a wide value to `i32`, saturating.
pub(crate) fn saturate(v: i128) -> (r: i32)
    ensures
        r == clamp_i32(v as int),
{
    if v < i32::MIN as i128 {
        i32::MIN
    } else if v > i32::MAX as i128 {
        i32::MAX
    } else {
        v as i32
    }
}

/// Truncating quotient of two wide values.
pub(crate) fn quot_wide(a: i128, b: i128) -> (r: i128)
    requires
        wide(a as int),
        wide(b as int),
    ensures
        r == quot(a as int, b as int),
        wide(r as int),
{
    if b == 0 {
        return 0;
    }
    proof {
        lemma_quot_bounds(a as int, b as int);
    }
    let ua: u128 = if a >= 0 {
        a as u128
    } else {
        (-a) as u128
    };
    let ub: u128 = if b >= 0 {
        b as u128
    } else {
        (-b) as u128
    };
    let q: u128 = ua / ub;
    proof {
        vstd::arithmetic::div_mod::lemma_div_nonincreasing(ua as int, ub as int);
        vstd::arithmetic::div_mod::lemma_div_pos_is_pos(ua as int, ub as int);
    }
    if (a >= 0) == (b > 0) {
        q as i128
    } else {
        -(q as i128)
    }
}

/// Saturating sum.
pub fn fx_add(a: i32, b: i32) -> (r: i32)
    ensures
        r == clamp_i32(a + b),
{
    saturate(a as i128 + b as i128)
}

/// Saturating difference.
pub fn fx_sub(a: i32, b: i32) -> (r: i32)
    ensures
        r == clamp_i32(a - b),
{
    saturate(a as i128 - b as i128)
}

/// The exact product of two `i32` values.
pub(crate) fn wide_mul(a: i32, b: i32) -> (r: i128)
    ensures
        r == a * b,
        -0x4000_0000_0000_0000 <= r <= 0x4000_0000_0000_0000,
{
    assert(-0x4000_0000_0000_0000 <= a * b <= 0x4000_0000_0000_0000) by (nonlinear_arith)
        requires
            -0x8000_0000 <= a <= 0x7fff_ffff,
            -0x8000_0000 <= b <= 0x7fff_ffff,
    ;
    (a as i128) * (b as i128)
}

/// Fixed-point product.
pub fn fx_mul(a: i32, b: i32) -> (r: i32)
    ensures
        r == mul_spec(a as int, b as int),
{
    let p = wide_mul(a, b);
    saturate(quot_wide(p, 1000))
}

/// Fixed-point ratio.
pub fn fx_div(a: i32, b: i32) -> (r: i32)
    ensures
        r == div_spec(a as int, b as int),
{
    if b == 0 {
        if a > 0 {
            i32::MAX
        } else if a < 0 {
            i32::MIN
        } else {
            0
        }
    } else {
        saturate(quot_wide(a as i128 * 1000, b as i128))
    }
}

/// The integer square root.
pub fn isqrt(n: u128) -> (r: u64)
    ensures
        r == sqrt_spec(n as int),
        is_sqrt(n as int, r as int),
{
    let mut lo: u128 = 0;
    let mut hi: u128 = 0x1_0000_0000_0000_0000;
    assert(0x1_0000_0000_0000_0000 * 0x1_0000_0000_0000_0000 > u128::MAX) by (nonlinear_arith);
    while hi - lo > 1
        invariant
            lo < hi <= 0x1_0000_0000_0000_0000,
            lo * lo <= n < hi * hi,
        decreases hi - lo,
    {
        let mid: u128 = lo + (hi - lo) / 2;
        assert(mid * mid <= 0xffff_ffff_ffff_ffff * 0xffff_ffff_ffff_ffff) by (nonlinear_arith)
            requires
                0 <= mid <= 0xffff_ffff_ffff_ffff,
        ;
        if mid * mid <= n {
            lo = mid;
        } else {
            hi = mid;
        }
    }
    proof {
        lemma_sqrt_is(n as int, lo as int);
    }
    lo as u64
}

/// One arch of the rough wave: Bhaskara's rational approximation of
/// `1000 * sin(x / 1000)` for `x` between 0 and half a turn.
pub open spec fn arch_spec(x: int) -> int {
    let p = x * (HALF_TURN - x);
    (16000 * p) / (5 * HALF_TURN * HALF_TURN - 4 * p)
}

/// The rough sine wave in thousandths, for an angle in milliradians. It
/// has period `2 * HALF_TURN` and follows `arch_spec` on each half period.
pub open spec fn rough_sin_spec(angle: int) -> int {
    let m = angle % (2 * HALF_TURN);
    if m < HALF_TURN {
        arch_spec(m)
    } else {
        -arch_spec(m - HALF_TURN)
    }
}

/// The rough cosine wave: the rough sine wave a quarter turn ahead.
pub open spec fn rough_cos_spec(angle: int) -> int {
    rough_sin_spec(angle + QUARTER_TURN)
}

/// The length of `(x, y)` to the thousandth of a raw unit, rounded down.
pub open spec fn norm_spec(x: int, y: int) -> int {
    sqrt_spec(1_000_000 * (x * x + y * y))
}

/// The share of the component `c` in a vector of length `len` thousandths
/// of a raw unit, in thousandths, its fraction dropped; 0 for no length.
pub open spec fn unit_spec(c: int, len: int) -> int {
    if len == 0 {
        0
    } else {
        quot(c * 1_000_000, len)
    }
}

/// The cosine wave in thousandths, for an angle in milliradians: the first
/// component of the rough pair brought to unit length.
pub open spec fn cos_spec(angle: int) -> int {
    unit_spec(rough_cos_spec(angle), norm_spec(rough_cos_spec(angle), rough_sin_spec(angle)))
}

/// The sine wave in thousandths, for an angle in milliradians: the second
/// component of the rough pair brought to unit length.
pub open spec fn sin_spec(angle: int) -> int {
    unit_spec(rough_sin_spec(angle), norm_spec(rough_cos_spec(angle), rough_sin_spec(angle)))
}

/// The arch stays between 0 and 1000.
proof fn lemma_arch_bounds(x: int)
    requires
        0 <= x <= HALF_TURN,
    ensures
        0 <= arch_spec(x) <= 1000,
        0 <= x * (HALF_TURN - x) <= 2468041,
{
    let p = x * (HALF_TURN - x);
    assert(0 <= p <= 2468041) by (nonlinear_arith)
        requires
            0 <= x <= 3142,
            p == x * (3142 - x),
    {
        assert((x - 1571) * (x - 1571) >= 0);
    }
    let d = 5 * HALF_TURN * HALF_TURN - 4 * p;
    assert(d >= 39488656);
    assert(16000 * p <= 1000 * d);
    vstd::arithmetic::div_mod::lemma_div_pos_is_pos(16000 * p, d);
    vstd::arithmetic::div_mod::lemma_div_is_ordered(16000 * p, 1000 * d, d);
    vstd::arithmetic::div_mod::lemma_div_multiples_vanish(1000, d);
}

/// Away from its ends the arch is above zero.
proof fn lemma_arch_positive(x: int)
    requires
        1 <= x <= HALF_TURN - 1,
    ensures
        arch_spec(x) >= 1,
{
    let p = x * (HALF_TURN - x);
    lemma_arch_bounds(x);
    assert(p >= 3141) by (nonlinear_arith)
        requires
            1 <= x <= 3141,
            p == x * (3142 - x),
    {
        assert((x - 1) * (3141 - x) >= 0);
    }
    let d = 5 * HALF_TURN * HALF_TURN - 4 * p;
    assert(0 < d <= 16000 * p);
    vstd::arithmetic::div_mod::lemma_div_is_ordered(d, 16000 * p, d);
    vstd::arithmetic::div_mod::lemma_div_by_self(d);
}

/// The rough waves stay between -1000 and 1000 and never vanish together.
proof fn lemma_rough_pair(angle: int)
    ensures
        -1000 <= rough_sin_spec(angle) <= 1000,
        -1000 <= rough_cos_spec(angle) <= 1000,
        rough_sin_spec(angle) != 0 || rough_cos_spec(angle) != 0,
{
    let full = 2 * HALF_TURN;
    let m = angle % full;
    let c = (angle + QUARTER_TURN) % full;
    if m < HALF_TURN {
        lemma_arch_bounds(m);
    } else {
        lemma_arch_bounds(m - HALF_TURN);
    }
    if c < HALF_TURN {
        lemma_arch_bounds(c);
    } else {
        lemma_arch_bounds(c - HALF_TURN);
    }
    if m == 0 || m == HALF_TURN {
        vstd::arithmetic::div_mod::lemma_fundamental_div_mod(angle, full);
        let q = angle / full;
        assert(angle + QUARTER_TURN == q * full + (m + QUARTER_TURN)) by (nonlinear_arith)
            requires
                angle == full * q + m,
        ;
        vstd::arithmetic::div_mod::lemma_fundamental_div_mod_converse(
            angle + QUARTER_TURN,
            full,
            q,
            m + QUARTER_TURN,
        );
        lemma_arch_positive(QUARTER_TURN as int);
    } else if m < HALF_TURN {
        lemma_arch_positive(m);
    } else {
        lemma_arch_positive(m - HALF_TURN);
    }
}

/// Every number from 0 on has an integer square root.
pub proof fn lemma_sqrt_exists(n: int)
    requires
        n >= 0,
    ensures
        is_sqrt(n, sqrt_spec(n)),
    decreases n,
{
    if n == 0 {
        assert(is_sqrt(0, 0));
    } else {
        lemma_sqrt_exists(n - 1);
        let r = sqrt_spec(n - 1);
        assert((r + 2) * (r + 2) > (r + 1) * (r + 1)) by (nonlinear_arith)
            requires
                r >= 0,
        ;
        if (r + 1) * (r + 1) <= n {
            assert(is_sqrt(n, r + 1));
        } else {
            assert(is_sqrt(n, r));
        }
    }
}

/// A vector brought to unit length has components between -1000 and 1000,
/// and unless it was zero its squared length lies within about two
/// thousandths, in the length, of 1000 squared.
pub proof fn lemma_unit_length(x: int, y: int)
    ensures
        -1000 <= unit_spec(x, norm_spec(x, y)) <= 1000,
        -1000 <= unit_spec(y, norm_spec(x, y)) <= 1000,
        x != 0 || y != 0 ==> norm_spec(x, y) >= 1000,
        x != 0 || y != 0 ==> ({
            let ux = unit_spec(x, norm_spec(x, y));
            let uy = unit_spec(y, norm_spec(x, y));
            995_998 <= ux * ux + uy * uy <= 1_002_000
        }),
{
    let n = x * x + y * y;
    assert(n >= 0) by (nonlinear_arith)
        requires
            n == x * x + y * y,
    ;
    lemma_sqrt_exists(1_000_000 * n);
    let len = norm_spec(x, y);
    assert((1000 * x) * (1000 * x) + (1000 * y) * (1000 * y) == 1_000_000 * n) by (nonlinear_arith)
        requires
            n == x * x + y * y,
    ;
    lemma_leg_below_length(1000 * x, 1000 * y, len);
    let ux = unit_spec(x, len);
    let uy = unit_spec(y, len);
    if len > 0 {
        lemma_quot_bounds(x * 1_000_000, len);
        lemma_quot_bounds(y * 1_000_000, len);
        vstd::arithmetic::div_mod::lemma_div_is_ordered(abs(x * 1_000_000), 1000 * len, len);
        vstd::arithmetic::div_mod::lemma_div_is_ordered(abs(y * 1_000_000), 1000 * len, len);
        vstd::arithmetic::div_mod::lemma_div_multiples_vanish(1000, len);
    }
    if x != 0 || y != 0 {
        assert(n >= 1) by (nonlinear_arith)
            requires
                n == x * x + y * y,
                x != 0 || y != 0,
        ;
        if len < 1000 {
            assert((len + 1) * (len + 1) <= 1_000_000) by (nonlinear_arith)
                requires
                    0 <= len < 1000,
            ;
        }
        let big_x = abs(x * 1_000_000);
        let big_y = abs(y * 1_000_000);
        let ax = abs(ux);
        let ay = abs(uy);
        vstd::arithmetic::div_mod::lemma_fundamental_div_mod(big_x, len);
        vstd::arithmetic::div_mod::lemma_fundamental_div_mod(big_y, len);
        vstd::arithmetic::div_mod::lemma_mod_bound(big_x, len);
        vstd::arithmetic::div_mod::lemma_mod_bound(big_y, len);
        // len * ax <= big_x < len * (ax + 1), and the same for y.
        assert(len * ax <= big_x < len * (ax + 1)) by (nonlinear_arith)
            requires
                big_x == len * ax + big_x % len,
                0 <= big_x % len < len,
        ;
        assert(len * ay <= big_y < len * (ay + 1)) by (nonlinear_arith)
            requires
                big_y == len * ay + big_y % len,
                0 <= big_y % len < len,
        ;
        let total = big_x * big_x + big_y * big_y;
        assert(big_x * big_x == (x * 1_000_000) * (x * 1_000_000)) by (nonlinear_arith)
            requires
                big_x == x * 1_000_000 || big_x == -(x * 1_000_000),
        ;
        assert(big_y * big_y == (y * 1_000_000) * (y * 1_000_000)) by (nonlinear_arith)
            requires
                big_y == y * 1_000_000 || big_y == -(y * 1_000_000),
        ;
        assert(total == 1_000_000 * (1_000_000 * n)) by (nonlinear_arith)
            requires
                total == big_x * big_x + big_y * big_y,
                big_x * big_x == (x * 1_000_000) * (x * 1_000_000),
                big_y * big_y == (y * 1_000_000) * (y * 1_000_000),
                n == x * x + y * y,
        ;
        // From above: the squares of the parts do not exceed the whole.
        assert((len * ax) * (len * ax) <= big_x * big_x) by (nonlinear_arith)
            requires
                0 <= len * ax <= big_x,
        ;
        assert((len * ay) * (len * ay) <= big_y * big_y) by (nonlinear_arith)
            requires
                0 <= len * ay <= big_y,
        ;
        let square = ax * ax + ay * ay;
        assert((len * len) * square == (len * ax) * (len * ax) + (len * ay) * (len * ay))
            by (nonlinear_arith)
            requires
                square == ax * ax + ay * ay,
        ;
        assert(1_000_000 * n < (len + 1) * (len + 1));
        assert(1001 * len >= 1000 * (len + 1));
        assert(1_000_000 * ((len + 1) * (len + 1)) <= 1_002_001 * (len * len)) by (nonlinear_arith)
            requires
                1001 * len >= 1000 * (len + 1),
                len >= 0,
        ;
        assert(square < 1_002_001) by (nonlinear_arith)
            requires
                (len * len) * square <= 1_000_000 * (1_000_000 * n),
                1_000_000 * n < (len + 1) * (len + 1),
                1_000_000 * ((len + 1) * (len + 1)) <= 1_002_001 * (len * len),
                len >= 1000,
                square >= 0,
        ;
        // From below: the parts rounded up exceed the whole.
        assert(big_x * big_x < (len * (ax + 1)) * (len * (ax + 1))) by (nonlinear_arith)
            requires
                0 <= big_x < len * (ax + 1),
        ;
        assert(big_y * big_y < (len * (ay + 1)) * (len * (ay + 1))) by (nonlinear_arith)
            requires
                0 <= big_y < len * (ay + 1),
        ;
        let above = (ax + 1) * (ax + 1) + (ay + 1) * (ay + 1);
        assert((len * len) * above == (len * (ax + 1)) * (len * (ax + 1)) + (len * (ay + 1)) * (len
            * (ay + 1))) by (nonlinear_arith)
            requires
                above == (ax + 1) * (ax + 1) + (ay + 1) * (ay + 1),
        ;
        assert(len * len <= 1_000_000 * n);
        assert(above > 1_000_000) by (nonlinear_arith)
            requires
                1_000_000 * (1_000_000 * n) < (len * len) * above,
                len * len <= 1_000_000 * n,
                len >= 1000,
                above >= 0,
        ;
        assert(above == square + 2 * ax + 2 * ay + 2) by (nonlinear_arith)
            requires
                above == (ax + 1) * (ax + 1) + (ay + 1) * (ay + 1),
                square == ax * ax + ay * ay,
        ;
        assert(ux * ux == ax * ax && uy * uy == ay * ay) by (nonlinear_arith)
            requires
                ax == ux || ax == -ux,
                ay == uy || ay == -uy,
        ;
    }
}

/// A leg never exceeds the length it is part of.
proof fn lemma_leg_below_length(x: int, y: int, len: int)
    requires
        is_sqrt(x * x + y * y, len),
    ensures
        abs(x) <= len,
        abs(y) <= len,
{
    assert(abs(x) <= len && abs(y) <= len) by (nonlinear_arith)
        requires
            0 <= len,
            x * x + y * y < (len + 1) * (len + 1),
    {
        assert(y * y >= 0);
        assert(x * x >= 0);
        if abs(x) >= len + 1 {
            assert(abs(x) * abs(x) >= (len + 1) * (len + 1));
            assert(abs(x) * abs(x) == x * x);
        }
        if abs(y) >= len + 1 {
            assert(abs(y) * abs(y) >= (len + 1) * (len + 1));
            assert(abs(y) * abs(y) == y * y);
        }
    }
}

/// The waves of one angle make a unit vector: each stays between -1000 and
/// 1000, and the sum of their squares lies within about two thousandths,
/// in the length, of 1000 squared.
pub proof fn lemma_waves_unit(angle: int)
    ensures
        -1000 <= sin_spec(angle) <= 1000,
        -1000 <= cos_spec(angle) <= 1000,
        995_998 <= cos_spec(angle) * cos_spec(angle) + sin_spec(angle) * sin_spec(angle)
            <= 1_002_000,
{
    lemma_rough_pair(angle);
    lemma_unit_length(rough_cos_spec(angle), rough_sin_spec(angle));
}

fn arch(x: i64) -> (r: i32)
    requires
        0 <= x <= HALF_TURN,
    ensures
        r == arch_spec(x as int),
        0 <= r <= 1000,
{
    proof {
        lemma_arch_bounds(x as int);
    }
    let half: i64 = HALF_TURN as i64;
    let p: i64 = x * (half - x);
    let d: i64 = 5 * half * half - 4 * p;
    ((16000 * p) / d) as i32
}

fn rough_sin(angle: i64) -> (r: i32)
    requires
        -0x1_0000_0000 <= angle <= 0x1_0000_0000,
    ensures
        r == rough_sin_spec(angle as int),
        -1000 <= r <= 1000,
{
    let half: i64 = HALF_TURN as i64;
    let full: i64 = 2 * half;
    // A whole number of turns is added first, so that the remainder taken
    // next is that of a non-negative angle.
    let m: i64 = (angle + full * 0x10_0000) % full;
    proof {
        vstd::arithmetic::div_mod::lemma_mod_multiples_vanish(0x10_0000, angle as int, full as int);
    }
    if m < half {
        arch(m)
    } else {
        -arch(m - half)
    }
}

/// Cosine and sine wave of an angle in milliradians, in thousandths.
pub fn heading(angle: i32) -> (r: (i32, i32))
    ensures
        r.0 == cos_spec(angle as int),
        r.1 == sin_spec(angle as int),
        -1000 <= r.0 <= 1000,
        -1000 <= r.1 <= 1000,
{
    let c: i128 = rough_sin(angle as i64 + QUARTER_TURN as i64) as i128;
    let s: i128 = rough_sin(angle as i64) as i128;
    proof {
        lemma_unit_length(c as int, s as int);
        assert(0 <= c * c <= 1_000_000 && 0 <= s * s <= 1_000_000) by (nonlinear_arith)
            requires
                -1000 <= c <= 1000,
                -1000 <= s <= 1000,
        ;
    }
    let len = isqrt((1_000_000 * (c * c + s * s)) as u128);
    if len == 0 {
        (0, 0)
    } else {
        proof {
            assert(len * len <= 1_000_000 * 2_000_000) by (nonlinear_arith)
                requires
                    len * len <= 1_000_000 * (c * c + s * s),
                    c * c + s * s <= 2_000_000,
            ;
            assert(len < 0x1_0000_0000) by (nonlinear_arith)
                requires
                    len * len <= 1_000_000 * 2_000_000,
                    len >= 0,
            ;
        }
        (
            quot_wide(c * 1_000_000, len as i128) as i32,
            quot_wide(s * 1_000_000, len as i128) as i32,
        )
    }
}

/// The sine wave of an angle in milliradians, in thousandths.
pub fn sin_milli(angle: i32) -> (r: i32)
    ensures
        r == sin_spec(angle as int),
        -1000 <= r <= 1000,
{
    heading(angle).1
}

/// The cosine wave of an angle in milliradians, in thousandths.
pub fn cos_milli(angle: i32) -> (r: i32)
    ensures
        r == cos_spec(angle as int),
        -1000 <= r <= 1000,
{
    heading(angle).0
}

/// Scaling by a factor of at most one in magnitude does not lengthen, and
/// loses less than one raw unit to rounding.
pub(crate) proof fn lemma_mul_unit(unit: int, v: int)
    requires
        -1000 <= unit <= 1000,
        i32::MIN <= v <= i32::MAX,
    ensures
        abs(mul_spec(unit, v)) <= abs(v),
        1000 * abs(mul_spec(unit, v)) <= abs(unit * v) <= 1000 * (abs(mul_spec(unit, v)) + 1),
{
    lemma_quot_bounds(unit * v, 1000);
    assert(abs(unit * v) <= 1000 * abs(v)) by (nonlinear_arith)
        requires
            -1000 <= unit <= 1000,
    ;
    vstd::arithmetic::div_mod::lemma_div_is_ordered(abs(unit * v), 1000 * abs(v), 1000);
    vstd::arithmetic::div_mod::lemma_div_multiples_vanish(abs(v), 1000);
    vstd::arithmetic::div_mod::lemma_fundamental_div_mod(abs(unit * v), 1000);
}

} // verus!
