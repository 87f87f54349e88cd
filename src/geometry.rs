//! Integer helpers for the rasterizer: rounding divisions, a ceiling square
//! root and a fixed-point sine and cosine.
use vstd::prelude::*;
use vstd::arithmetic::div_mod::{
    lemma_div_is_ordered, lemma_div_multiples_vanish, lemma_fundamental_div_mod,
    lemma_fundamental_div_mod_converse_div, lemma_mod_bound, lemma_mod_multiples_vanish,
};
use crate::easing::{FULL_TURN, HALF_TURN};

verus! {

/// The fixed-point one of [`sin_fx`] and [`cos_fx`].
pub const TRIG_ONE: i64 = 16384;

/// `v / d` rounded toward negative infinity (the `/` of specifications).
pub fn floor_div(v: i64, d: i64) -> (r: i64)
    requires
        0 < d <= 0x1_0000_0000,
        -0x4000_0000_0000_0000 <= v <= 0x4000_0000_0000_0000,
    ensures
        r == v as int / d as int,
        -0x4000_0000_0000_0000 <= r <= 0x4000_0000_0000_0000,
{
    if v >= 0 {
        proof {
            lemma_fundamental_div_mod(v as int, d as int);
            lemma_mod_bound(v as int, d as int);
            let q = v as int / d as int;
            let rem = v as int % d as int;
            assert(0 <= q <= v) by (nonlinear_arith)
                requires d * q + rem == v, 0 <= rem < d, 1 <= d, 0 <= v;
        }
        v / d
    } else {
        let m = -v;
        let a = (m + d - 1) / d;
        proof {
            lemma_fundamental_div_mod(m + d - 1, d as int);
            lemma_mod_bound(m + d - 1, d as int);
            assert(d * a <= m + d - 1 < d * a + d);
            assert(d * (-a) <= v < d * (-a) + d) by (nonlinear_arith)
                requires d * a <= m + d - 1 < d * a + d, v == -m;
            lemma_fundamental_div_mod_converse_div(v as int, d as int, -a, v - d * (-a));
            assert(0 <= a <= m) by (nonlinear_arith)
                requires d * a <= m + d - 1 < d * a + d, 1 <= d, 1 <= m;
        }
        -a
    }
}

/// `v / d` rounded toward negative infinity, for wide values.
pub fn floor_div_wide(v: i128, d: i128) -> (r: i128)
    requires
        0 < d <= 0x1_0000_0000_0000_0000,
        -0x1_0000_0000_0000_0000_0000_0000 <= v <= 0x1_0000_0000_0000_0000_0000_0000,
    ensures
        r == v as int / d as int,
{
    if v >= 0 {
        v / d
    } else {
        let m = -v;
        let a = (m + d - 1) / d;
        proof {
            lemma_fundamental_div_mod(m + d - 1, d as int);
            lemma_mod_bound(m + d - 1, d as int);
            assert(d * a <= m + d - 1 < d * a + d);
            assert(d * (-a) <= v < d * (-a) + d) by (nonlinear_arith)
                requires d * a <= m + d - 1 < d * a + d, v == -m;
            lemma_fundamental_div_mod_converse_div(v as int, d as int, -a, v - d * (-a));
        }
        -a
    }
}

/// `v / d` rounded toward positive infinity.
pub open spec fn ceil_div_spec(v: int, d: int) -> int {
    -((-v) / d)
}

/// `v / d` rounded toward positive infinity.
pub fn ceil_div(v: i64, d: i64) -> (r: i64)
    requires
        0 < d <= 0x1_0000_0000,
        -0x4000_0000_0000_0000 <= v <= 0x4000_0000_0000_0000,
    ensures
        r == ceil_div_spec(v as int, d as int),
{
    -floor_div(-v, d)
}

/// `v / d` rounded toward zero.
pub open spec fn trunc_div_spec(v: int, d: int) -> int {
    if v >= 0 {
        v / d
    } else {
        -((-v) / d)
    }
}

/// `r` is the least natural number whose square is at least `n`.
pub open spec fn is_ceil_sqrt(n: int, r: int) -> bool {
    &&& 0 <= r
    &&& n <= r * r
    &&& r == 0 || (r - 1) * (r - 1) < n
}

/// The square root of `n`, rounded up.
pub open spec fn ceil_sqrt_spec(n: int) -> int {
    choose|r: int| is_ceil_sqrt(n, r)
}

/// The rounded-up square root is unique.
pub proof fn lemma_ceil_sqrt_unique(n: int, r: int)
    requires
        is_ceil_sqrt(n, r),
    ensures
        ceil_sqrt_spec(n) == r,
{
    let c = ceil_sqrt_spec(n);
    assert(is_ceil_sqrt(n, c));
    if c < r {
        assert(c * c <= (r - 1) * (r - 1)) by (nonlinear_arith)
            requires 0 <= c <= r - 1;
    }
    if r < c {
        assert(r * r <= (c - 1) * (c - 1)) by (nonlinear_arith)
            requires 0 <= r <= c - 1;
    }
}

/// The square root of `n`, rounded up.
pub fn ceil_sqrt(n: u128) -> (r: u64)
    requires
        n <= 0x4000_0000_0000_0000_0000_0000_0000_0000,
    ensures
        is_ceil_sqrt(n as int, r as int),
{
    let mut lo: u64 = 0;
    let mut hi: u64 = 0x8000_0000_0000_0000;
    assert(hi as int * hi as int == 0x4000_0000_0000_0000_0000_0000_0000_0000);
    while lo < hi
        invariant
            lo <= hi <= 0x8000_0000_0000_0000,
            n <= hi as int * hi as int,
            lo == 0 || (lo - 1) * (lo - 1) < n,
        decreases hi - lo,
    {
        let mid = lo + (hi - lo) / 2;
        proof {
            assert(mid * mid <= 0x8000_0000_0000_0000 * 0x8000_0000_0000_0000) by (nonlinear_arith)
                requires mid <= 0x8000_0000_0000_0000;
        }
        let sq = (mid as u128) * (mid as u128);
        if sq >= n {
            hi = mid;
        } else {
            lo = mid + 1;
        }
    }
    lo
}

/// Bhaskara's sine on `[0, 180]` degrees, `u` in thousandths of a degree,
/// scaled by [`TRIG_ONE`]: `4 u (180 - u) / (40500 - u (180 - u))` in degrees.
pub open spec fn half_turn_sine(u: int) -> int {
    let v = u * (HALF_TURN - u);
    4 * v * TRIG_ONE / (40_500_000_000 - v)
}

/// The sine of an angle in thousandths of a degree, scaled by [`TRIG_ONE`].
pub open spec fn sin_fx(angle: int) -> int {
    let a = angle % (FULL_TURN as int);
    if a <= HALF_TURN {
        half_turn_sine(a)
    } else {
        -half_turn_sine(a - HALF_TURN)
    }
}

/// The cosine of an angle in thousandths of a degree, scaled by [`TRIG_ONE`].
pub open spec fn cos_fx(angle: int) -> int {
    sin_fx(angle + 90000)
}

/// Over half a turn the sine lies in `[0, TRIG_ONE]`.
proof fn lemma_half_turn_sine(u: int)
    requires
        0 <= u <= HALF_TURN,
    ensures
        0 <= half_turn_sine(u) <= TRIG_ONE,
{
    let v = u * (HALF_TURN - u);
    assert(0 <= v <= 8_100_000_000) by (nonlinear_arith)
        requires v == u * (180000 - u), 0 <= u <= 180000;
    let den = 40_500_000_000 - v;
    let num = 4 * v * TRIG_ONE;
    assert(num <= TRIG_ONE * den);
    lemma_div_is_ordered(0, num, den);
    lemma_div_is_ordered(num, TRIG_ONE * den, den);
    lemma_div_multiples_vanish(TRIG_ONE as int, den);
}

/// The fixed-point sine lies in `[-TRIG_ONE, TRIG_ONE]`.
pub proof fn lemma_sin_fx(angle: int)
    ensures
        -TRIG_ONE <= sin_fx(angle) <= TRIG_ONE,
{
    lemma_mod_bound(angle, FULL_TURN as int);
    let a = angle % (FULL_TURN as int);
    if a <= HALF_TURN {
        lemma_half_turn_sine(a);
    } else {
        lemma_half_turn_sine(a - HALF_TURN);
    }
}

/// The angle within one turn, in `[0, FULL_TURN)`, that is congruent to `angle`.
pub fn angle_in_turn(angle: i64) -> (r: i64)
    requires
        -0x1_0000_0000 <= angle <= 0x1_0000_0000,
    ensures
        r == angle as int % FULL_TURN as int,
        0 <= r < FULL_TURN,
{
    let turns: i64 = 20000;
    let shifted = (angle + turns * FULL_TURN) as u64;
    proof {
        lemma_mod_multiples_vanish(turns as int, angle as int, FULL_TURN as int);
        assert(FULL_TURN * turns + angle == shifted as int);
        lemma_mod_bound(shifted as int, FULL_TURN as int);
    }
    (shifted % (FULL_TURN as u64)) as i64
}

/// The sine of `angle`, scaled by [`TRIG_ONE`].
pub fn sin_fixed(angle: i64) -> (r: i64)
    requires
        -0x1_0000_0000 <= angle <= 0x1_0000_0000,
    ensures
        r == sin_fx(angle as int),
        -TRIG_ONE <= r <= TRIG_ONE,
{
    proof {
        lemma_sin_fx(angle as int);
    }
    let a = angle_in_turn(angle);
    if a <= HALF_TURN {
        proof {
            lemma_half_turn_sine(a as int);
        }
        proof {
            assert(0 <= a * (HALF_TURN - a) <= 180000 * 180000) by (nonlinear_arith)
                requires 0 <= a <= 180000;
        }
        let v = a * (HALF_TURN - a);
        proof {
            assert(0 <= v <= 8_100_000_000) by (nonlinear_arith)
                requires v == a * (180000 - a), 0 <= a <= 180000;
        }
        4 * v * TRIG_ONE / (40_500_000_000 - v)
    } else {
        let u = a - HALF_TURN;
        proof {
            lemma_half_turn_sine(u as int);
        }
        proof {
            assert(0 <= u * (HALF_TURN - u) <= 180000 * 180000) by (nonlinear_arith)
                requires 0 <= u <= 180000;
        }
        let v = u * (HALF_TURN - u);
        proof {
            assert(0 <= v <= 8_100_000_000) by (nonlinear_arith)
                requires v == u * (180000 - u), 0 <= u <= 180000;
        }
        -(4 * v * TRIG_ONE / (40_500_000_000 - v))
    }
}

/// The cosine of `angle`, scaled by [`TRIG_ONE`].
pub fn cos_fixed(angle: i64) -> (r: i64)
    requires
        -0x1_0000_0000 <= angle <= 0x1_0000_0000 - 90000,
    ensures
        r == cos_fx(angle as int),
        -TRIG_ONE <= r <= TRIG_ONE,
{
    sin_fixed(angle + 90000)
}

} // verus!
