//! Easing curves and interpolation of scalars, vectors, colors and angles.
//!
//! The interpolation parameter is an exact fraction: a tween that is `k`
//! frames into a span of `d` frames has the raw parameter `k / d`, and every
//! easing curve is evaluated exactly over the common denominator `d * d`.
use vstd::prelude::*;
use vstd::arithmetic::div_mod::{
    lemma_div_is_ordered, lemma_div_multiples_vanish, lemma_mod_bound,
    lemma_mod_multiples_vanish,
};
use crate::model::{Color, TweenType, Vec2};

verus! {

/// One full turn, in thousandths of a degree.
pub const FULL_TURN: i64 = 360000;

/// Half a turn, in thousandths of a degree.
pub const HALF_TURN: i64 = 180000;

/// An interpolation parameter `num / den` in `[0, 1]`.
#[derive(Clone, Copy, Debug, PartialEq, Eq, Structural)]
pub struct Fraction {
    pub num: u64,
    pub den: u64,
}

impl Fraction {
    /// A positive denominator and a value of at most one.
    pub open spec fn wf(&self) -> bool {
        0 < self.den && self.num <= self.den
    }
}

/// The eased parameter for `k` frames out of `d`, scaled by `d * d`:
/// linear `t`, ease-in `t^2`, ease-out `1 - (1 - t)^2`, and ease-in-out
/// `2 t^2` below one half, `1 - (2 - 2 t)^2 / 2` from one half on.
pub open spec fn eased_numerator(tween: TweenType, k: int, d: int) -> int {
    match tween {
        TweenType::Hold => k * d,
        TweenType::Linear => k * d,
        TweenType::EaseIn => k * k,
        TweenType::EaseOut => d * d - (d - k) * (d - k),
        TweenType::EaseInOut => if 2 * k < d {
            2 * k * k
        } else {
            d * d - 2 * (d - k) * (d - k)
        },
    }
}

/// The eased parameter as a fraction over `d * d`.
pub open spec fn eased(tween: TweenType, k: int, d: int) -> Fraction {
    Fraction { num: eased_numerator(tween, k, d) as u64, den: (d * d) as u64 }
}

/// Every easing curve maps `[0, 1]` into `[0, 1]`.
pub proof fn lemma_eased_in_unit(tween: TweenType, k: int, d: int)
    requires
        0 <= k <= d,
        0 < d,
    ensures
        0 <= eased_numerator(tween, k, d) <= d * d,
{
    let e = d - k;
    assert(0 <= e <= d);
    assert(0 <= k * d <= d * d) by (nonlinear_arith)
        requires 0 <= k <= d;
    assert(0 <= k * k <= d * d) by (nonlinear_arith)
        requires 0 <= k <= d;
    assert(0 <= e * e <= d * d) by (nonlinear_arith)
        requires 0 <= e <= d;
    if 2 * k < d {
        assert(2 * k * k <= d * d) by (nonlinear_arith)
            requires 0 <= k, 2 * k < d;
        assert(0 <= 2 * k * k) by (nonlinear_arith)
            requires 0 <= k;
    } else {
        assert(2 * e * e <= d * d) by (nonlinear_arith)
            requires 0 <= e, 2 * e <= d;
        assert(0 <= 2 * e * e) by (nonlinear_arith)
            requires 0 <= e;
    }
}

/// Evaluates the easing curve of `tween` at `elapsed / span`.
pub fn apply_easing(elapsed: u32, span: u32, tween: TweenType) -> (r: Fraction)
    requires
        0 < span,
        elapsed <= span,
    ensures
        r == eased(tween, elapsed as int, span as int),
        r.wf(),
        r.den as int == span as int * span as int,
        r.num as int == eased_numerator(tween, elapsed as int, span as int),
{
    let k = elapsed as u64;
    let d = span as u64;
    let e = d - k;
    proof {
        lemma_eased_in_unit(tween, k as int, d as int);
        assert(0 < d * d <= 0xffff_ffff_ffff_ffff) by (nonlinear_arith)
            requires 0 < d <= 0xffff_ffff;
        assert(k * d <= d * d && k * k <= d * d && e * e <= d * d) by (nonlinear_arith)
            requires k <= d, e <= d;
    }
    let den = d * d;
    let num = match tween {
        TweenType::Hold => k * d,
        TweenType::Linear => k * d,
        TweenType::EaseIn => k * k,
        TweenType::EaseOut => den - e * e,
        TweenType::EaseInOut => if 2 * k < d {
            proof {
                assert(2 * k * k <= d * d) by (nonlinear_arith)
                    requires 2 * k < d;
            }
            2 * k * k
        } else {
            proof {
                assert(2 * e * e <= d * d) by (nonlinear_arith)
                    requires 2 * e <= d;
            }
            den - 2 * e * e
        },
    };
    Fraction { num, den }
}

/// `a + (b - a) * t`, with the step `|b - a| * t` rounded toward zero, so
/// that the result never leaves the segment from `a` to `b`.
pub open spec fn lerp_spec(a: int, b: int, t: Fraction) -> int {
    if a <= b {
        a + scaled_step(b - a, t)
    } else {
        a - scaled_step(a - b, t)
    }
}

/// `d * t`, rounded down.
pub open spec fn scaled_step(d: int, t: Fraction) -> int {
    d * (t.num as int) / (t.den as int)
}

proof fn lemma_scaled_step(d: int, t: Fraction)
    requires
        0 <= d,
        t.wf(),
    ensures
        0 <= scaled_step(d, t) <= d,
        t.num == t.den ==> scaled_step(d, t) == d,
        t.num == 0 ==> scaled_step(d, t) == 0,
{
    let n = t.num as int;
    let m = t.den as int;
    assert(0 <= d * n) by (nonlinear_arith)
        requires 0 <= d, 0 <= n;
    assert(d * n <= d * m) by (nonlinear_arith)
        requires 0 <= d, n <= m;
    lemma_div_is_ordered(0, d * n, m);
    lemma_div_is_ordered(d * n, d * m, m);
    lemma_div_multiples_vanish(d, m);
    assert(m * d == d * m) by (nonlinear_arith);
    if n == 0 {
        assert(d * n == 0) by (nonlinear_arith)
            requires n == 0;
    }
}

/// The interpolated value lies between the end points, and equals them at
/// `t = 0` and `t = 1`.
pub proof fn lemma_lerp_between(a: int, b: int, t: Fraction)
    requires
        t.wf(),
    ensures
        a <= b ==> a <= lerp_spec(a, b, t) <= b,
        b <= a ==> b <= lerp_spec(a, b, t) <= a,
        t.num == 0 ==> lerp_spec(a, b, t) == a,
        t.num == t.den ==> lerp_spec(a, b, t) == b,
{
    if a <= b {
        lemma_scaled_step(b - a, t);
    } else {
        lemma_scaled_step(a - b, t);
    }
}

/// Largest magnitude accepted by [`lerp_wide`].
pub const WIDE_LIMIT: i64 = 0x100_0000_0000;

/// Interpolates between two wide integers.
pub fn lerp_wide(a: i64, b: i64, t: Fraction) -> (r: i64)
    requires
        t.wf(),
        -WIDE_LIMIT <= a <= WIDE_LIMIT,
        -WIDE_LIMIT <= b <= WIDE_LIMIT,
    ensures
        r == lerp_spec(a as int, b as int, t),
{
    proof {
        lemma_lerp_between(a as int, b as int, t);
    }
    if a <= b {
        let d = (b - a) as u128;
        proof {
            lemma_scaled_step(d as int, t);
            assert(d * t.num <= 0x200_0000_0000 * 0xffff_ffff_ffff_ffff) by (nonlinear_arith)
                requires d <= 0x200_0000_0000, t.num <= 0xffff_ffff_ffff_ffff;
        }
        let step = d * (t.num as u128) / (t.den as u128);
        a + step as i64
    } else {
        let d = (a - b) as u128;
        proof {
            lemma_scaled_step(d as int, t);
            assert(d * t.num <= 0x200_0000_0000 * 0xffff_ffff_ffff_ffff) by (nonlinear_arith)
                requires d <= 0x200_0000_0000, t.num <= 0xffff_ffff_ffff_ffff;
        }
        let step = d * (t.num as u128) / (t.den as u128);
        a - step as i64
    }
}

/// Interpolates a scalar.
pub fn lerp_scalar(a: i32, b: i32, t: Fraction) -> (r: i32)
    requires
        t.wf(),
    ensures
        r == lerp_spec(a as int, b as int, t),
{
    proof {
        lemma_lerp_between(a as int, b as int, t);
    }
    lerp_wide(a as i64, b as i64, t) as i32
}

pub open spec fn lerp_vec2_spec(a: Vec2, b: Vec2, t: Fraction) -> Vec2 {
    Vec2 {
        x: lerp_spec(a.x as int, b.x as int, t) as i32,
        y: lerp_spec(a.y as int, b.y as int, t) as i32,
    }
}

/// Interpolates a 2-vector componentwise.
pub fn lerp_vec2(a: Vec2, b: Vec2, t: Fraction) -> (r: Vec2)
    requires
        t.wf(),
    ensures
        r == lerp_vec2_spec(a, b, t),
{
    Vec2 { x: lerp_scalar(a.x, b.x, t), y: lerp_scalar(a.y, b.y, t) }
}

pub open spec fn lerp_color_spec(a: Color, b: Color, t: Fraction) -> Color {
    Color {
        r: lerp_spec(a.r as int, b.r as int, t) as i32,
        g: lerp_spec(a.g as int, b.g as int, t) as i32,
        b: lerp_spec(a.b as int, b.b as int, t) as i32,
        a: lerp_spec(a.a as int, b.a as int, t) as i32,
    }
}

/// Interpolates a color channel by channel.
pub fn lerp_color(a: Color, b: Color, t: Fraction) -> (r: Color)
    requires
        t.wf(),
    ensures
        r == lerp_color_spec(a, b, t),
{
    Color {
        r: lerp_scalar(a.r, b.r, t),
        g: lerp_scalar(a.g, b.g, t),
        b: lerp_scalar(a.b, b.b, t),
        a: lerp_scalar(a.a, b.a, t),
    }
}

/// The angle congruent to `x` modulo a full turn that lies in
/// `(-half turn, half turn]`.
pub open spec fn wrap_angle_spec(x: int) -> int {
    let m = x % (FULL_TURN as int);
    if m > HALF_TURN {
        m - FULL_TURN
    } else {
        m
    }
}

proof fn lemma_wrap_angle(x: int)
    ensures
        -HALF_TURN < wrap_angle_spec(x) <= HALF_TURN,
        (wrap_angle_spec(x) - x) % (FULL_TURN as int) == 0,
{
    lemma_mod_bound(x, FULL_TURN as int);
    let m = x % (FULL_TURN as int);
    vstd::arithmetic::div_mod::lemma_fundamental_div_mod(x, FULL_TURN as int);
    let q = x / (FULL_TURN as int);
    let w = wrap_angle_spec(x);
    if m > HALF_TURN {
        assert(w - x == FULL_TURN * (-q - 1));
        lemma_mod_multiples_vanish(-q - 1, 0, FULL_TURN as int);
    } else {
        assert(w - x == FULL_TURN * (-q));
        lemma_mod_multiples_vanish(-q, 0, FULL_TURN as int);
    }
}

/// Bring an angle into `(-half turn, half turn]`.
pub fn wrap_angle(x: i64) -> (r: i64)
    requires
        -0x2_0000_0000 <= x <= 0x2_0000_0000,
    ensures
        r == wrap_angle_spec(x as int),
        -HALF_TURN < r <= HALF_TURN,
{
    proof {
        lemma_wrap_angle(x as int);
    }
    let turns: i64 = 25000;
    let shifted = (x + turns * FULL_TURN) as u64;
    let m = shifted % (FULL_TURN as u64);
    proof {
        lemma_mod_multiples_vanish(turns as int, x as int, FULL_TURN as int);
        assert(FULL_TURN * turns + x == shifted as int);
    }
    let m = m as i64;
    if m > HALF_TURN {
        m - FULL_TURN
    } else {
        m
    }
}

/// Shortest-path interpolation of rotations: the difference `b - a` is first
/// wrapped into `(-180, 180]` degrees, and the blended angle is reported in
/// the same range.
pub open spec fn lerp_angle_spec(a: int, b: int, t: Fraction) -> int {
    wrap_angle_spec(a + lerp_spec(0, wrap_angle_spec(b - a), t))
}

/// Interpolates a rotation along the shorter way round.
pub fn lerp_angle(a: i32, b: i32, t: Fraction) -> (r: i32)
    requires
        t.wf(),
    ensures
        r == lerp_angle_spec(a as int, b as int, t),
        -HALF_TURN < r <= HALF_TURN,
{
    let diff = wrap_angle(b as i64 - a as i64);
    let step = lerp_wide(0, diff, t);
    proof {
        lemma_lerp_between(0, diff as int, t);
    }
    let r = wrap_angle(a as i64 + step);
    r as i32
}

} // verus!
