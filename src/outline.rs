//! The outline of a path as the vector preview draws it: vertices joined by
//! straight segments, or by cubic Bezier curves sampled at sixteen points
//! where a control point is given. Control points, like vertices, are in the
//! object's own frame.
use vstd::prelude::*;
use vstd::arithmetic::div_mod::{lemma_div_is_ordered, lemma_div_multiples_vanish};
use crate::geometry::{floor_div_wide, trunc_div_spec};
use crate::model::{AnimObject, ObjectView, PathPoint, Shape, ShapeView, Vec2};
use crate::raster::{lemma_mul_bound, trunc_div_milli};

verus! {

/// Samples per curved segment.
pub const CURVE_STEPS: u32 = 16;

/// One coordinate of the cubic Bezier curve through `a`, `b`, `c`, `d` at
/// `t = n / m`: `(1-t)^3 a + 3 (1-t)^2 t b + 3 (1-t) t^2 c + t^3 d`, rounded
/// down.
pub open spec fn bezier_coord(a: int, b: int, c: int, d: int, n: int, m: int) -> int {
    let k = m - n;
    (k * k * k * a + 3 * k * k * n * b + 3 * k * n * n * c + n * n * n * d) / (m * m * m)
}

pub open spec fn bezier_spec(p0: Vec2, p1: Vec2, p2: Vec2, p3: Vec2, n: int, m: int) -> Vec2 {
    Vec2 {
        x: bezier_coord(p0.x as int, p1.x as int, p2.x as int, p3.x as int, n, m) as i32,
        y: bezier_coord(p0.y as int, p1.y as int, p2.y as int, p3.y as int, n, m) as i32,
    }
}

proof fn lemma_bezier_weights(n: int, m: int)
    requires
        0 <= n <= m,
        0 < m <= 1024,
    ensures
        (m - n) * (m - n) * (m - n) + 3 * (m - n) * (m - n) * n + 3 * (m - n) * n * n + n * n * n
            == m * m * m,
        0 <= (m - n) * (m - n) * (m - n) <= 0x4000_0000,
        0 <= 3 * (m - n) * (m - n) * n <= 0x1_0000_0000,
        0 <= 3 * (m - n) * n * n <= 0x1_0000_0000,
        0 <= n * n * n <= 0x4000_0000,
        0 < m * m * m <= 0x4000_0000,
{
    let k = m - n;
    assert(k * k * k + 3 * k * k * n + 3 * k * n * n + n * n * n == (k + n) * (k + n) * (k + n))
        by (nonlinear_arith);
    assert(0 <= k * k * k <= m * m * m) by (nonlinear_arith)
        requires 0 <= k <= m;
    assert(0 <= n * n * n <= m * m * m) by (nonlinear_arith)
        requires 0 <= n <= m;
    assert(0 <= 3 * k * k * n <= 3 * m * m * m) by (nonlinear_arith)
        requires 0 <= k <= m, 0 <= n <= m;
    assert(0 <= 3 * k * n * n <= 3 * m * m * m) by (nonlinear_arith)
        requires 0 <= k <= m, 0 <= n <= m;
    assert(0 < m * m * m <= 1024 * 1024 * 1024) by (nonlinear_arith)
        requires 0 < m <= 1024;
}

/// A weighted mean of four values lies between their least and greatest.
proof fn lemma_bezier_between(a: int, b: int, c: int, d: int, n: int, m: int, lo: int, hi: int)
    requires
        0 <= n <= m,
        0 < m <= 1024,
        lo <= a <= hi,
        lo <= b <= hi,
        lo <= c <= hi,
        lo <= d <= hi,
    ensures
        lo <= bezier_coord(a, b, c, d, n, m) <= hi,
{
    lemma_bezier_weights(n, m);
    let k = m - n;
    let w0 = k * k * k;
    let w1 = 3 * k * k * n;
    let w2 = 3 * k * n * n;
    let w3 = n * n * n;
    let mm = m * m * m;
    let num = w0 * a + w1 * b + w2 * c + w3 * d;
    vstd::arithmetic::mul::lemma_mul_inequality(lo, a, w0);
    vstd::arithmetic::mul::lemma_mul_inequality(lo, b, w1);
    vstd::arithmetic::mul::lemma_mul_inequality(lo, c, w2);
    vstd::arithmetic::mul::lemma_mul_inequality(lo, d, w3);
    vstd::arithmetic::mul::lemma_mul_inequality(a, hi, w0);
    vstd::arithmetic::mul::lemma_mul_inequality(b, hi, w1);
    vstd::arithmetic::mul::lemma_mul_inequality(c, hi, w2);
    vstd::arithmetic::mul::lemma_mul_inequality(d, hi, w3);
    assert(lo * w0 + lo * w1 + lo * w2 + lo * w3 == lo * mm) by (nonlinear_arith)
        requires w0 + w1 + w2 + w3 == mm;
    assert(hi * w0 + hi * w1 + hi * w2 + hi * w3 == hi * mm) by (nonlinear_arith)
        requires w0 + w1 + w2 + w3 == mm;
    assert(a * w0 == w0 * a && b * w1 == w1 * b && c * w2 == w2 * c && d * w3 == w3 * d) by (nonlinear_arith);
    assert(w0 * a + w1 * b + w2 * c + w3 * d == k * k * k * a + 3 * k * k * n * b + 3 * k * n * n
        * c + n * n * n * d) by (nonlinear_arith)
        requires w0 == k * k * k, w1 == 3 * k * k * n, w2 == 3 * k * n * n, w3 == n * n * n;
    lemma_div_is_ordered(lo * mm, num, mm);
    lemma_div_is_ordered(num, hi * mm, mm);
    lemma_div_multiples_vanish(lo, mm);
    lemma_div_multiples_vanish(hi, mm);
    assert(mm * lo == lo * mm && mm * hi == hi * mm) by (nonlinear_arith);
}

fn bezier_coord_at(a: i32, b: i32, c: i32, d: i32, n: u32, m: u32) -> (r: i32)
    requires
        n <= m,
        0 < m <= 1024,
    ensures
        r as int == bezier_coord(a as int, b as int, c as int, d as int, n as int, m as int),
{
    proof {
        lemma_bezier_weights(n as int, m as int);
        let lo = if a <= b && a <= c && a <= d { a as int } else if b <= c && b <= d { b as int } else if c <= d { c as int } else { d as int };
        let hi = if a >= b && a >= c && a >= d { a as int } else if b >= c && b >= d { b as int } else if c >= d { c as int } else { d as int };
        lemma_bezier_between(a as int, b as int, c as int, d as int, n as int, m as int, lo, hi);
    }
    let n = n as i128;
    let m = m as i128;
    let k = m - n;
    proof {
        assert(0 <= k * k <= 0x10_0000 && 0 <= 3 * k <= 3072 && 0 <= 3 * k * k <= 0x30_0000
            && 0 <= 3 * k * n <= 0x30_0000 && 0 <= n * n <= 0x10_0000 && 0 < m * m <= 0x10_0000)
            by (nonlinear_arith)
            requires 0 <= k <= 1024, 0 <= n <= 1024, 0 < m <= 1024;
    }
    let w0 = k * k * k;
    let w1 = 3 * k * k * n;
    let w2 = 3 * k * n * n;
    let w3 = n * n * n;
    proof {
        lemma_mul_bound(w0 as int, a as int, 0x4000_0000, 0x8000_0000);
        lemma_mul_bound(w1 as int, b as int, 0x1_0000_0000, 0x8000_0000);
        lemma_mul_bound(w2 as int, c as int, 0x1_0000_0000, 0x8000_0000);
        lemma_mul_bound(w3 as int, d as int, 0x4000_0000, 0x8000_0000);
    }
    let num = w0 * a as i128 + w1 * b as i128 + w2 * c as i128 + w3 * d as i128;
    floor_div_wide(num, m * m * m) as i32
}

/// The point at `t = n / m` of the cubic Bezier curve with end points `p0`,
/// `p3` and control points `p1`, `p2`.
pub fn cubic_bezier(p0: Vec2, p1: Vec2, p2: Vec2, p3: Vec2, n: u32, m: u32) -> (r: Vec2)
    requires
        n <= m,
        0 < m <= 1024,
    ensures
        r == bezier_spec(p0, p1, p2, p3, n as int, m as int),
{
    Vec2 {
        x: bezier_coord_at(p0.x, p1.x, p2.x, p3.x, n, m),
        y: bezier_coord_at(p0.y, p1.y, p2.y, p3.y, n, m),
    }
}

/// A point of the object's frame placed on the canvas: scaled, then moved
/// by the object's position (thousandths; rotation plays no part).
pub open spec fn on_canvas(o: ObjectView, v: Vec2) -> (int, int) {
    (
        o.position.x + trunc_div_spec(v.x * o.scale.x, 1000),
        o.position.y + trunc_div_spec(v.y * o.scale.y, 1000),
    )
}

/// The sixteen samples after the start of the curve from `a` to `b`.
pub open spec fn curve_samples(o: ObjectView, a: PathPoint, b: PathPoint) -> Seq<(int, int)> {
    let c1 = match a.control_out {
        Some(c) => c,
        None => a.position,
    };
    let c2 = match b.control_in {
        Some(c) => c,
        None => b.position,
    };
    Seq::new(
        CURVE_STEPS as nat,
        |s: int|
            on_canvas(
                o,
                bezier_spec(a.position, c1, c2, b.position, s + 1, CURVE_STEPS as int),
            ),
    )
}

/// Whether the segment from `a` to `b` is curved.
pub open spec fn curved(a: PathPoint, b: PathPoint) -> bool {
    a.control_out is Some || b.control_in is Some
}

/// What the segment ending at `b` adds to the outline.
pub open spec fn segment_outline(o: ObjectView, a: PathPoint, b: PathPoint) -> Seq<(int, int)> {
    if curved(a, b) {
        curve_samples(o, a, b)
    } else {
        seq![on_canvas(o, b.position)]
    }
}

/// The outline through the first `n` vertices.
pub open spec fn outline_prefix(o: ObjectView, pts: Seq<PathPoint>, n: int) -> Seq<(int, int)>
    decreases n,
{
    if n <= 0 {
        Seq::empty()
    } else if n == 1 {
        seq![on_canvas(o, pts[0].position)]
    } else {
        outline_prefix(o, pts, n - 1) + segment_outline(o, pts[n - 2], pts[n - 1])
    }
}

/// The outline of a path of `pts`: nothing under two vertices; a closed path
/// of three or more vertices adds the curve back to its start when that
/// segment is curved (a straight closing edge is left to the polygon).
pub open spec fn outline_spec(o: ObjectView, pts: Seq<PathPoint>, closed: bool) -> Seq<(int, int)> {
    if pts.len() < 2 {
        Seq::empty()
    } else {
        let open = outline_prefix(o, pts, pts.len() as int);
        let last = pts[pts.len() - 1];
        if closed && pts.len() > 2 && curved(last, pts[0]) {
            open + curve_samples(o, last, pts[0])
        } else {
            open
        }
    }
}

fn on_canvas_at(o: &AnimObject, v: Vec2) -> (r: (i64, i64))
    ensures
        r.0 as int == on_canvas(o@, v).0,
        r.1 as int == on_canvas(o@, v).1,
{
    proof {
        lemma_mul_bound(v.x as int, o.scale.x as int, 0x8000_0000, 0x8000_0000);
        lemma_mul_bound(v.y as int, o.scale.y as int, 0x8000_0000, 0x8000_0000);
    }
    let dx = trunc_div_milli(v.x as i64 * o.scale.x as i64);
    let dy = trunc_div_milli(v.y as i64 * o.scale.y as i64);
    (o.position.x as i64 + dx, o.position.y as i64 + dy)
}

fn push_curve(out: &mut Vec<(i64, i64)>, o: &AnimObject, a: &PathPoint, b: &PathPoint)
    ensures
        final(out)@.len() == old(out)@.len() + CURVE_STEPS,
        forall|i: int| 0 <= i < old(out)@.len() ==> final(out)@[i] == old(out)@[i],
        forall|s: int|
            0 <= s < CURVE_STEPS ==> {
                let p = #[trigger] final(out)@[old(out)@.len() + s];
                (p.0 as int, p.1 as int) == curve_samples(o@, *a, *b)[s]
            },
{
    let c1 = match a.control_out {
        Some(c) => c,
        None => a.position,
    };
    let c2 = match b.control_in {
        Some(c) => c,
        None => b.position,
    };
    let ghost start = out@.len();
    let mut step: u32 = 1;
    while step <= CURVE_STEPS
        invariant
            1 <= step <= CURVE_STEPS + 1,
            c1 == (match a.control_out {
                Some(c) => c,
                None => a.position,
            }),
            c2 == (match b.control_in {
                Some(c) => c,
                None => b.position,
            }),
            out@.len() == start + step - 1,
            start == old(out)@.len(),
            forall|i: int| 0 <= i < old(out)@.len() ==> out@[i] == old(out)@[i],
            forall|s: int|
                0 <= s < step - 1 ==> {
                    let p = #[trigger] out@[start + s];
                    (p.0 as int, p.1 as int) == curve_samples(o@, *a, *b)[s]
                },
        decreases CURVE_STEPS + 1 - step,
    {
        let v = cubic_bezier(a.position, c1, c2, b.position, step, CURVE_STEPS);
        let p = on_canvas_at(o, v);
        let ghost prev = out@;
        out.push(p);
        proof {
            assert(curve_samples(o@, *a, *b)[step - 1] == on_canvas(o@, v));
            assert forall|s: int| 0 <= s < step implies {
                let q = #[trigger] out@[start + s];
                (q.0 as int, q.1 as int) == curve_samples(o@, *a, *b)[s]
            } by {
                if s < step - 1 {
                    assert(out@[start + s] == prev[start + s]);
                }
            }
        }
        step += 1;
    }
}

/// The points the vector preview joins to draw `object`'s path, in canvas
/// thousandths; empty for other shapes and for paths of fewer than two
/// vertices.
pub fn path_outline(object: &AnimObject) -> (r: Vec<(i64, i64)>)
    ensures
        match object@.shape {
            ShapeView::Path { points, closed } => r@.len() == outline_spec(object@, points, closed).len()
                && forall|i: int|
                0 <= i < r@.len() ==> (#[trigger] r@[i].0 as int, r@[i].1 as int) == outline_spec(
                    object@,
                    points,
                    closed,
                )[i],
            _ => r@.len() == 0,
        },
{
    let mut out: Vec<(i64, i64)> = Vec::new();
    match &object.shape {
        Shape::Path { points, closed } => {
            let ghost o = object@;
            let ghost pts = points@;
            if points.len() < 2 {
                return out;
            }
            out.push(on_canvas_at(object, points[0].position));
            let mut i: usize = 1;
            while i < points.len()
                invariant
                    1 <= i <= pts.len(),
                    pts == points@,
                    o == object@,
                    out@.len() == outline_prefix(o, pts, i as int).len(),
                    forall|j: int|
                        0 <= j < out@.len() ==> (#[trigger] out@[j].0 as int, out@[j].1 as int)
                            == outline_prefix(o, pts, i as int)[j],
                decreases pts.len() - i,
            {
                let a = &points[i - 1];
                let b = &points[i];
                let ghost before = out@;
                if a.control_out.is_some() || b.control_in.is_some() {
                    push_curve(&mut out, object, a, b);
                } else {
                    out.push(on_canvas_at(object, b.position));
                }
                proof {
                    let want = outline_prefix(o, pts, i + 1);
                    assert(want == outline_prefix(o, pts, i as int) + segment_outline(o, pts[i - 1], pts[i as int]));
                    assert forall|j: int| 0 <= j < out@.len() implies (#[trigger] out@[j].0 as int, out@[j].1 as int) == want[j] by {
                        if j >= before.len() {
                            if !curved(pts[i - 1], pts[i as int]) {
                                assert(j == before.len());
                            } else {
                                let s = j - before.len();
                                assert(out@[before.len() + s] == out@[j]);
                            }
                        } else {
                            assert(out@[j] == before[j]);
                        }
                    }
                }
                i += 1;
            }
            let n = points.len();
            let last = &points[n - 1];
            let first = &points[0];
            if *closed && n > 2 && (last.control_out.is_some() || first.control_in.is_some()) {
                let ghost before = out@;
                push_curve(&mut out, object, last, first);
                proof {
                    let want = outline_spec(o, pts, *closed);
                    assert forall|j: int| 0 <= j < out@.len() implies (#[trigger] out@[j].0 as int, out@[j].1 as int) == want[j] by {
                        if j >= before.len() {
                            let s = j - before.len();
                            assert(out@[before.len() + s] == out@[j]);
                        } else {
                            assert(out@[j] == before[j]);
                        }
                    }
                }
            }
            out
        },
        _ => out,
    }
}

} // verus!
