//! Scan conversion of objects into a pixel buffer, and compositing of whole
//! frames.
//!
//! A pixel `(x, y)` is tested at the canvas point `(x, y)`: its offset from
//! the object's position is rotated back by the object's rotation and tested
//! analytically against the shape, in exact integer arithmetic.
use vstd::prelude::*;
use crate::easing::FULL_TURN;
use crate::geometry::{
    angle_in_turn, ceil_div, ceil_div_spec, ceil_sqrt, ceil_sqrt_spec, cos_fixed, cos_fx, floor_div,
    lemma_ceil_sqrt_unique, sin_fixed, sin_fx, trunc_div_spec, TRIG_ONE,
};
use crate::model::{objects_view, AnimObject, Color, Layer, ObjectView, Project, Shape, ShapeView};
use crate::timeline::{resolve_frame, resolve_spec};
use crate::pixels::{buffer_pixels, buffer_size, fits_in_memory, grid, PixelBuffer, Rgba8};

verus! {

/// The fixed-point one of normalized shape coordinates.
pub const UNIT: i64 = 65536;

/// The fixed-point one of an effective alpha (channel alpha times layer opacity).
pub const ALPHA_ONE: i64 = 1_000_000;

/// Effective alphas below this (one thousandth) leave a pixel untouched.
pub const ALPHA_MIN: i64 = 1000;

/// Largest line end offset, in thousandths, that is still drawn.
pub const LINE_LIMIT: i64 = 0x100_0000_0000;

pub open spec fn abs(v: int) -> int {
    if v < 0 {
        -v
    } else {
        v
    }
}

pub open spec fn sq(v: int) -> int {
    v * v
}

/// The offset of the canvas point `(x, y)` from the object's position, turned
/// back by the object's rotation; thousandths scaled by `TRIG_ONE`.
pub open spec fn local_point(o: ObjectView, x: int, y: int) -> (int, int) {
    turn_back(o, x * 1000 - o.position.x, y * 1000 - o.position.y)
}

/// The offset `(lx, ly)` turned back by the object's rotation, scaled by
/// `TRIG_ONE`.
pub open spec fn turn_back(o: ObjectView, lx: int, ly: int) -> (int, int) {
    let c = cos_fx(o.rotation as int);
    let s = sin_fx(o.rotation as int);
    (lx * c + ly * s, ly * c - lx * s)
}

/// Rectangle test: inside when both local coordinates are within the half
/// extents; a stroke pixel when also within `stroke_width` of an edge.
/// The corner radius plays no part.
pub open spec fn rect_paint(o: ObjectView, width: int, height: int, x: int, y: int) -> Option<Color> {
    let p = local_point(o, x, y);
    let w = width * o.scale.x;
    let h = height * o.scale.y;
    let sw = o.stroke_width as int;
    if 2000 * abs(p.0) <= w * TRIG_ONE && 2000 * abs(p.1) <= h * TRIG_ONE {
        let border = 2000 * abs(p.0) > (w - 2000 * sw) * TRIG_ONE || 2000 * abs(p.1) > (h - 2000
            * sw) * TRIG_ONE;
        Some(
            if border && sw > 0 {
                o.stroke
            } else {
                o.fill
            },
        )
    } else {
        None
    }
}

/// The local point `(a, b)` (magnitudes, thousandths scaled by `TRIG_ONE`)
/// lies in the ellipse of radii `rx`, `ry` (millionths): both normalized
/// coordinates, rounded down to `1 / UNIT`, have squares summing to at most one.
pub open spec fn within_ellipse(a: int, b: int, rx: int, ry: int) -> bool {
    &&& 1000 * a <= rx * TRIG_ONE
    &&& 1000 * b <= ry * TRIG_ONE
    &&& sq(1000 * a * UNIT / (rx * TRIG_ONE)) + sq(1000 * b * UNIT / (ry * TRIG_ONE)) <= UNIT * UNIT
}

/// Ellipse test: inside the scaled ellipse; a stroke pixel unless also inside
/// the ellipse shrunk by `stroke_width` on each axis. Radii of a thousandth of
/// a unit or less draw nothing.
pub open spec fn ellipse_paint(o: ObjectView, radius_x: int, radius_y: int, x: int, y: int) -> Option<
    Color,
> {
    let p = local_point(o, x, y);
    let rx = radius_x * o.scale.x;
    let ry = radius_y * o.scale.y;
    let sw = o.stroke_width as int;
    if rx > 1000 && ry > 1000 && within_ellipse(abs(p.0), abs(p.1), rx, ry) {
        let irx = rx - 1000 * sw;
        let iry = ry - 1000 * sw;
        let inner = irx > 0 && iry > 0 && within_ellipse(abs(p.0), abs(p.1), irx, iry);
        Some(
            if !inner && sw > 0 {
                o.stroke
            } else {
                o.fill
            },
        )
    } else {
        None
    }
}

/// The scaled end offset of a line, in thousandths.
pub open spec fn line_end(o: ObjectView, end_x: int, end_y: int) -> (int, int) {
    (trunc_div_spec(end_x * o.scale.x, 1000), trunc_div_spec(end_y * o.scale.y, 1000))
}

/// Line thickness in thousandths: the stroke width, at least one unit.
pub open spec fn line_thickness(o: ObjectView) -> int {
    if o.stroke_width < 1000 {
        1000
    } else {
        o.stroke_width as int
    }
}

/// The point `(px, py)` lies within `width / 2` of the segment from the
/// origin to `(ex, ey)` (all in thousandths): the distance to the point of the
/// segment given by the projection parameter, clamped to `[0, 1]` and rounded
/// down to `1 / UNIT`.
pub open spec fn near_segment(px: int, py: int, ex: int, ey: int, width: int) -> bool {
    let len_sq = ex * ex + ey * ey;
    let q = px * ex + py * ey;
    let t = if q <= 0 {
        0
    } else if q >= len_sq {
        UNIT as int
    } else {
        q * UNIT / len_sq
    };
    let dx = px * UNIT - t * ex;
    let dy = py * UNIT - t * ey;
    4 * (dx * dx + dy * dy) <= width * width * UNIT * UNIT
}

/// A segment too short (squared length under a thousandth of a square unit)
/// or too long (beyond `LINE_LIMIT` on an axis) to be drawn or picked.
pub open spec fn degenerate_segment(ex: int, ey: int) -> bool {
    ex * ex + ey * ey < 1000 || abs(ex) > LINE_LIMIT || abs(ey) > LINE_LIMIT
}

/// Line test (rotation plays no part): the point lies within half the
/// thickness of the segment.
pub open spec fn line_paint(o: ObjectView, end_x: int, end_y: int, x: int, y: int) -> Option<Color> {
    let e = line_end(o, end_x, end_y);
    let px = x * 1000 - o.position.x;
    let py = y * 1000 - o.position.y;
    if degenerate_segment(e.0, e.1) {
        None
    } else if near_segment(px, py, e.0, e.1, line_thickness(o)) {
        Some(o.stroke)
    } else {
        None
    }
}

/// The color an object lays on the canvas point `(x, y)`, if any. Paths are
/// not rasterized.
pub open spec fn paint_spec(o: ObjectView, x: int, y: int) -> Option<Color> {
    match o.shape {
        ShapeView::Rectangle { width, height, .. } => rect_paint(o, width as int, height as int, x, y),
        ShapeView::Ellipse { radius_x, radius_y } => ellipse_paint(
            o,
            radius_x as int,
            radius_y as int,
            x,
            y,
        ),
        ShapeView::Line { end_x, end_y } => line_paint(o, end_x as int, end_y as int, x, y),
        ShapeView::Path { .. } => None,
    }
}

/// Bounds on factors bound their product.
pub(crate) proof fn lemma_mul_bound(a: int, b: int, ba: int, bb: int)
    requires
        abs(a) <= ba,
        abs(b) <= bb,
    ensures
        abs(a * b) <= ba * bb,
        -(ba * bb) <= a * b <= ba * bb,
{
    assert(abs(a * b) == abs(a) * abs(b)) by (nonlinear_arith);
    assert(abs(a) * abs(b) <= ba * bb) by (nonlinear_arith)
        requires 0 <= abs(a) <= ba, 0 <= abs(b) <= bb;
}

pub(crate) fn abs_i128(v: i128) -> (r: i128)
    requires
        v > i128::MIN,
    ensures
        r == abs(v as int),
{
    if v < 0 {
        -v
    } else {
        v
    }
}

/// The offset `(lx, ly)` turned back by the rotation of `o`.
pub(crate) fn turn_back_of(o: &AnimObject, lx: i128, ly: i128) -> (r: (i128, i128))
    requires
        abs(lx as int) <= 0x800_0000_0000,
        abs(ly as int) <= 0x800_0000_0000,
    ensures
        r.0 as int == turn_back(o@, lx as int, ly as int).0,
        r.1 as int == turn_back(o@, lx as int, ly as int).1,
        abs(r.0 as int) <= 0x400_0000_0000_0000,
        abs(r.1 as int) <= 0x400_0000_0000_0000,
{
    let c = cos_fixed(o.rotation as i64) as i128;
    let s = sin_fixed(o.rotation as i64) as i128;
    proof {
        lemma_mul_bound(lx as int, c as int, 0x800_0000_0000, 0x4000);
        lemma_mul_bound(ly as int, s as int, 0x800_0000_0000, 0x4000);
        lemma_mul_bound(ly as int, c as int, 0x800_0000_0000, 0x4000);
        lemma_mul_bound(lx as int, s as int, 0x800_0000_0000, 0x4000);
    }
    (lx * c + ly * s, ly * c - lx * s)
}

/// The local point of `(x, y)` for `o`.
fn local_point_of(o: &AnimObject, x: u32, y: u32) -> (r: (i128, i128))
    ensures
        r.0 as int == local_point(o@, x as int, y as int).0,
        r.1 as int == local_point(o@, x as int, y as int).1,
        abs(r.0 as int) <= 0x400_0000_0000_0000,
        abs(r.1 as int) <= 0x400_0000_0000_0000,
{
    let lx = x as i128 * 1000 - o.position.x as i128;
    let ly = y as i128 * 1000 - o.position.y as i128;
    turn_back_of(o, lx, ly)
}

fn rect_paint_at(o: &AnimObject, width: i32, height: i32, x: u32, y: u32) -> (r: Option<Color>)
    ensures
        r == rect_paint(o@, width as int, height as int, x as int, y as int),
{
    let p = local_point_of(o, x, y);
    let ax = abs_i128(p.0);
    let ay = abs_i128(p.1);
    proof {
        lemma_mul_bound(width as int, o.scale.x as int, 0x8000_0000, 0x8000_0000);
        lemma_mul_bound(height as int, o.scale.y as int, 0x8000_0000, 0x8000_0000);
    }
    let w = width as i128 * o.scale.x as i128;
    let h = height as i128 * o.scale.y as i128;
    let sw = o.stroke_width as i128;
    proof {
        lemma_mul_bound(w as int, TRIG_ONE as int, 0x4000_0000_0000_0000, 0x4000);
        lemma_mul_bound(h as int, TRIG_ONE as int, 0x4000_0000_0000_0000, 0x4000);
        lemma_mul_bound(w - 2000 * sw, TRIG_ONE as int, 0x8000_0000_0000_0000, 0x4000);
        lemma_mul_bound(h - 2000 * sw, TRIG_ONE as int, 0x8000_0000_0000_0000, 0x4000);
    }
    let trig = TRIG_ONE as i128;
    if 2000 * ax <= w * trig && 2000 * ay <= h * trig {
        let border = 2000 * ax > (w - 2000 * sw) * trig || 2000 * ay > (h - 2000 * sw) * trig;
        if border && sw > 0 {
            Some(o.stroke)
        } else {
            Some(o.fill)
        }
    } else {
        None
    }
}

pub(crate) fn within_ellipse_at(a: i128, b: i128, rx: i128, ry: i128) -> (r: bool)
    requires
        0 <= a <= 0x400_0000_0000_0000,
        0 <= b <= 0x400_0000_0000_0000,
        0 < rx <= 0x8000_0000_0000_0000,
        0 < ry <= 0x8000_0000_0000_0000,
    ensures
        r == within_ellipse(a as int, b as int, rx as int, ry as int),
{
    let trig = TRIG_ONE as i128;
    let unit = UNIT as i128;
    proof {
        lemma_mul_bound(rx as int, TRIG_ONE as int, 0x8000_0000_0000_0000, 0x4000);
        lemma_mul_bound(ry as int, TRIG_ONE as int, 0x8000_0000_0000_0000, 0x4000);
        assert(rx * TRIG_ONE > 0) by (nonlinear_arith)
            requires rx > 0;
        assert(ry * TRIG_ONE > 0) by (nonlinear_arith)
            requires ry > 0;
    }
    if 1000 * a > rx * trig || 1000 * b > ry * trig {
        return false;
    }
    proof {
        lemma_mul_bound(1000 * a, UNIT as int, 0x10_0000_0000_0000_0000, 0x10000);
        lemma_mul_bound(1000 * b, UNIT as int, 0x10_0000_0000_0000_0000, 0x10000);
        assert(0 <= 1000 * a * UNIT);
        assert(0 <= 1000 * b * UNIT);
        assert(1000 * a * UNIT <= UNIT * (rx * TRIG_ONE)) by (nonlinear_arith)
            requires 1000 * a <= rx * TRIG_ONE, 0 < UNIT;
        assert(1000 * b * UNIT <= UNIT * (ry * TRIG_ONE)) by (nonlinear_arith)
            requires 1000 * b <= ry * TRIG_ONE, 0 < UNIT;
        vstd::arithmetic::div_mod::lemma_div_is_ordered(
            1000 * a * UNIT,
            UNIT * (rx * TRIG_ONE),
            rx * TRIG_ONE,
        );
        vstd::arithmetic::div_mod::lemma_div_is_ordered(
            1000 * b * UNIT,
            UNIT * (ry * TRIG_ONE),
            ry * TRIG_ONE,
        );
        vstd::arithmetic::div_mod::lemma_div_is_ordered(0, 1000 * a * UNIT, rx * TRIG_ONE);
        vstd::arithmetic::div_mod::lemma_div_is_ordered(0, 1000 * b * UNIT, ry * TRIG_ONE);
        vstd::arithmetic::div_mod::lemma_div_multiples_vanish(UNIT as int, rx * TRIG_ONE);
        vstd::arithmetic::div_mod::lemma_div_multiples_vanish(UNIT as int, ry * TRIG_ONE);
    }
    let na = 1000 * a * unit / (rx * trig);
    let nb = 1000 * b * unit / (ry * trig);
    proof {
        lemma_mul_bound(na as int, na as int, 0x10000, 0x10000);
        lemma_mul_bound(nb as int, nb as int, 0x10000, 0x10000);
    }
    na * na + nb * nb <= unit * unit
}

fn ellipse_paint_at(o: &AnimObject, radius_x: i32, radius_y: i32, x: u32, y: u32) -> (r: Option<
    Color,
>)
    ensures
        r == ellipse_paint(o@, radius_x as int, radius_y as int, x as int, y as int),
{
    let p = local_point_of(o, x, y);
    let ax = abs_i128(p.0);
    let ay = abs_i128(p.1);
    proof {
        lemma_mul_bound(radius_x as int, o.scale.x as int, 0x8000_0000, 0x8000_0000);
        lemma_mul_bound(radius_y as int, o.scale.y as int, 0x8000_0000, 0x8000_0000);
    }
    let rx = radius_x as i128 * o.scale.x as i128;
    let ry = radius_y as i128 * o.scale.y as i128;
    let sw = o.stroke_width as i128;
    if rx > 1000 && ry > 1000 && within_ellipse_at(ax, ay, rx, ry) {
        let irx = rx - 1000 * sw;
        let iry = ry - 1000 * sw;
        let inner = irx > 0 && iry > 0 && within_ellipse_at(ax, ay, irx, iry);
        if !inner && sw > 0 {
            Some(o.stroke)
        } else {
            Some(o.fill)
        }
    } else {
        None
    }
}

/// `v / 1000` rounded toward zero.
pub(crate) fn trunc_div_milli(v: i64) -> (r: i64)
    ensures
        r == trunc_div_spec(v as int, 1000),
        abs(r as int) <= 0x40_0000_0000_0000,
{
    if v >= 0 {
        v / 1000
    } else {
        let m = (-(v as i128)) as u64;
        -((m / 1000) as i64)
    }
}

/// Whether `(px, py)` lies within `width / 2` of the segment to `(ex, ey)`.
pub fn near_segment_at(px: i128, py: i128, ex: i128, ey: i128, width: i128) -> (r: bool)
    requires
        abs(px as int) <= 0x800_0000_0000,
        abs(py as int) <= 0x800_0000_0000,
        abs(ex as int) <= LINE_LIMIT,
        abs(ey as int) <= LINE_LIMIT,
        ex * ex + ey * ey >= 1000,
        0 <= width <= 0x8000_0000,
    ensures
        r == near_segment(px as int, py as int, ex as int, ey as int, width as int),
{
    proof {
        lemma_mul_bound(ex as int, ex as int, 0x100_0000_0000, 0x100_0000_0000);
        lemma_mul_bound(ey as int, ey as int, 0x100_0000_0000, 0x100_0000_0000);
        lemma_mul_bound(px as int, ex as int, 0x800_0000_0000, 0x100_0000_0000);
        lemma_mul_bound(py as int, ey as int, 0x800_0000_0000, 0x100_0000_0000);
        assert(0 <= ex * ex && 0 <= ey * ey) by (nonlinear_arith);
    }
    let len_sq = ex * ex + ey * ey;
    let unit = UNIT as i128;
    let q = px * ex + py * ey;
    let t: i128 = if q <= 0 {
        0
    } else if q >= len_sq {
        unit
    } else {
        proof {
            lemma_mul_bound(q as int, UNIT as int, 0x100_0000_0000_0000_0000_0000, 0x10000);
            assert(q * UNIT <= UNIT * len_sq) by (nonlinear_arith)
                requires q < len_sq, 0 < UNIT;
            assert(0 <= q * UNIT) by (nonlinear_arith)
                requires q > 0, 0 < UNIT;
            vstd::arithmetic::div_mod::lemma_div_is_ordered(q * UNIT, UNIT * len_sq, len_sq as int);
            vstd::arithmetic::div_mod::lemma_div_is_ordered(0, q * UNIT, len_sq as int);
            vstd::arithmetic::div_mod::lemma_div_multiples_vanish(UNIT as int, len_sq as int);
        }
        q * unit / len_sq
    };
    proof {
        lemma_mul_bound(px as int, UNIT as int, 0x800_0000_0000, 0x10000);
        lemma_mul_bound(py as int, UNIT as int, 0x800_0000_0000, 0x10000);
        lemma_mul_bound(t as int, ex as int, 0x10000, 0x100_0000_0000);
        lemma_mul_bound(t as int, ey as int, 0x10000, 0x100_0000_0000);
    }
    let dx = px * unit - t * ex;
    let dy = py * unit - t * ey;
    proof {
        lemma_mul_bound(dx as int, dx as int, 0x1000_0000_0000_0000, 0x1000_0000_0000_0000);
        lemma_mul_bound(dy as int, dy as int, 0x1000_0000_0000_0000, 0x1000_0000_0000_0000);
        assert(0 <= dx * dx && 0 <= dy * dy) by (nonlinear_arith);
        lemma_mul_bound(width as int, width as int, 0x8000_0000, 0x8000_0000);
        lemma_mul_bound(width * width, UNIT as int, 0x4000_0000_0000_0000, 0x10000);
        lemma_mul_bound(width * width * UNIT, UNIT as int, 0x4000_0000_0000_0000_0000, 0x10000);
    }
    4 * (dx * dx + dy * dy) <= width * width * unit * unit
}

/// The scaled end offset of a line, in thousandths, or `None` when the
/// segment is degenerate.
pub(crate) fn line_end_at(o: &AnimObject, end_x: i32, end_y: i32) -> (r: Option<(i128, i128)>)
    ensures
        match r {
            Some(e) => !degenerate_segment(line_end(o@, end_x as int, end_y as int).0, line_end(
                o@,
                end_x as int,
                end_y as int,
            ).1) && e.0 as int == line_end(o@, end_x as int, end_y as int).0 && e.1 as int
                == line_end(o@, end_x as int, end_y as int).1,
            None => degenerate_segment(
                line_end(o@, end_x as int, end_y as int).0,
                line_end(o@, end_x as int, end_y as int).1,
            ),
        },
{
    proof {
        lemma_mul_bound(end_x as int, o.scale.x as int, 0x8000_0000, 0x8000_0000);
        lemma_mul_bound(end_y as int, o.scale.y as int, 0x8000_0000, 0x8000_0000);
    }
    let ex = trunc_div_milli(end_x as i64 * o.scale.x as i64);
    let ey = trunc_div_milli(end_y as i64 * o.scale.y as i64);
    if ex > LINE_LIMIT || ex < -LINE_LIMIT || ey > LINE_LIMIT || ey < -LINE_LIMIT {
        return None;
    }
    let ex = ex as i128;
    let ey = ey as i128;
    proof {
        lemma_mul_bound(ex as int, ex as int, 0x100_0000_0000, 0x100_0000_0000);
        lemma_mul_bound(ey as int, ey as int, 0x100_0000_0000, 0x100_0000_0000);
    }
    if ex * ex + ey * ey < 1000 {
        return None;
    }
    Some((ex, ey))
}

fn line_paint_at(o: &AnimObject, end_x: i32, end_y: i32, x: u32, y: u32) -> (r: Option<Color>)
    ensures
        r == line_paint(o@, end_x as int, end_y as int, x as int, y as int),
{
    let e = match line_end_at(o, end_x, end_y) {
        Some(e) => e,
        None => {
            return None;
        },
    };
    let px = x as i128 * 1000 - o.position.x as i128;
    let py = y as i128 * 1000 - o.position.y as i128;
    let thick: i128 = if o.stroke_width < 1000 {
        1000
    } else {
        o.stroke_width as i128
    };
    if near_segment_at(px, py, e.0, e.1, thick) {
        Some(o.stroke)
    } else {
        None
    }
}

/// The color `object` lays on the canvas point `(x, y)`, if any: its stroke or
/// fill color where its shape covers the point.
pub fn paint_at(object: &AnimObject, x: u32, y: u32) -> (r: Option<Color>)
    ensures
        r == paint_spec(object@, x as int, y as int),
{
    match &object.shape {
        Shape::Rectangle { width, height, .. } => rect_paint_at(object, *width, *height, x, y),
        Shape::Ellipse { radius_x, radius_y } => ellipse_paint_at(
            object,
            *radius_x,
            *radius_y,
            x,
            y,
        ),
        Shape::Line { end_x, end_y } => line_paint_at(object, *end_x, *end_y, x, y),
        Shape::Path { .. } => None,
    }
}

/// A color channel in thousandths as a byte: scaled by 255 and rounded
/// down, saturating outside `[0, 1000]`.
pub open spec fn to_byte(c: int) -> int {
    if c <= 0 {
        0
    } else if c >= 1000 {
        255
    } else {
        c * 255 / 1000
    }
}

/// Color alpha times layer opacity, in millionths, held to `[0, 1]`.
pub open spec fn effective_alpha(color_alpha: int, opacity: int) -> int {
    let a = color_alpha * opacity;
    if a < 0 {
        0
    } else if a > ALPHA_ONE {
        ALPHA_ONE as int
    } else {
        a
    }
}

/// `src * alpha + dst * (1 - alpha)`, rounded down.
pub open spec fn mix(src: int, dst: int, alpha: int) -> int {
    (src * alpha + dst * (ALPHA_ONE - alpha)) / ALPHA_ONE as int
}

/// `color`, at `opacity`, laid over the pixel `dst`. The alpha channel becomes
/// the source alpha plus what shows through of the old one, at most 255. An
/// effective alpha below one thousandth leaves the pixel as it was.
pub open spec fn blend_spec(dst: Rgba8, color: Color, opacity: int) -> Rgba8 {
    let alpha = effective_alpha(color.a as int, opacity);
    if alpha < ALPHA_MIN {
        dst
    } else {
        let a = alpha * 255 / ALPHA_ONE as int + dst.3 * (ALPHA_ONE - alpha) / ALPHA_ONE as int;
        (
            mix(to_byte(color.r as int), dst.0 as int, alpha) as u8,
            mix(to_byte(color.g as int), dst.1 as int, alpha) as u8,
            mix(to_byte(color.b as int), dst.2 as int, alpha) as u8,
            (if a > 255 {
                255
            } else {
                a
            }) as u8,
        )
    }
}

/// A channel in thousandths as a byte.
pub fn to_byte_of(c: i32) -> (r: u8)
    ensures
        r == to_byte(c as int),
{
    if c <= 0 {
        0
    } else if c >= 1000 {
        255
    } else {
        (c * 255 / 1000) as u8
    }
}

/// A blend of two bytes is a byte.
proof fn lemma_mix(src: int, dst: int, alpha: int)
    requires
        0 <= src <= 255,
        0 <= dst <= 255,
        0 <= alpha <= ALPHA_ONE,
    ensures
        0 <= mix(src, dst, alpha) <= 255,
        0 <= src * alpha + dst * (ALPHA_ONE - alpha) <= 255 * ALPHA_ONE,
{
    assert(0 <= src * alpha + dst * (ALPHA_ONE - alpha) <= 255 * ALPHA_ONE) by (nonlinear_arith)
        requires 0 <= src <= 255, 0 <= dst <= 255, 0 <= alpha <= 1_000_000;
    vstd::arithmetic::div_mod::lemma_div_is_ordered(
        src * alpha + dst * (ALPHA_ONE - alpha),
        255 * ALPHA_ONE,
        ALPHA_ONE as int,
    );
    vstd::arithmetic::div_mod::lemma_div_is_ordered(
        0,
        src * alpha + dst * (ALPHA_ONE - alpha),
        ALPHA_ONE as int,
    );
}

fn mix_of(src: u8, dst: u8, alpha: i64) -> (r: u8)
    requires
        0 <= alpha <= ALPHA_ONE,
    ensures
        r == mix(src as int, dst as int, alpha as int),
{
    proof {
        lemma_mix(src as int, dst as int, alpha as int);
    }
    ((src as i64 * alpha + dst as i64 * (ALPHA_ONE - alpha)) / ALPHA_ONE) as u8
}

/// Lays `color` at `opacity` over the pixel `dst`.
pub fn blend(dst: Rgba8, color: Color, opacity: i32) -> (r: Rgba8)
    ensures
        r == blend_spec(dst, color, opacity as int),
{
    proof {
        lemma_mul_bound(color.a as int, opacity as int, 0x8000_0000, 0x8000_0000);
    }
    let raw = color.a as i64 * opacity as i64;
    let alpha = if raw < 0 {
        0
    } else if raw > ALPHA_ONE {
        ALPHA_ONE
    } else {
        raw
    };
    if alpha < ALPHA_MIN {
        return dst;
    }
    proof {
        lemma_mix(dst.3 as int, 0, ALPHA_ONE - alpha);
        lemma_mix(255, 0, alpha as int);
    }
    let a = alpha * 255 / ALPHA_ONE + dst.3 as i64 * (ALPHA_ONE - alpha) / ALPHA_ONE;
    (
        mix_of(to_byte_of(color.r), dst.0, alpha),
        mix_of(to_byte_of(color.g), dst.1, alpha),
        mix_of(to_byte_of(color.b), dst.2, alpha),
        if a > 255 {
            255
        } else {
            a as u8
        },
    )
}

/// Whether the object's rotation is not a whole number of turns.
pub open spec fn turned(o: ObjectView) -> bool {
    (o.rotation as int) % (FULL_TURN as int) != 0
}

pub open spec fn min(a: int, b: int) -> int {
    if a <= b {
        a
    } else {
        b
    }
}

pub open spec fn max(a: int, b: int) -> int {
    if a >= b {
        a
    } else {
        b
    }
}

/// The region scanned for an object, in thousandths: `(left, top, right,
/// bottom)`. Rectangles and ellipses extend by their half extents, or by the
/// diagonal (rectangles) or larger radius (ellipses) when turned; ellipses
/// and lines add their stroke. Paths scan nothing.
pub open spec fn milli_box(o: ObjectView) -> (int, int, int, int) {
    let px = o.position.x as int;
    let py = o.position.y as int;
    match o.shape {
        ShapeView::Rectangle { width, height, .. } => {
            let ex = ceil_div_spec(abs(width * o.scale.x), 2000);
            let ey = ceil_div_spec(abs(height * o.scale.y), 2000);
            let e = if turned(o) {
                let d = ceil_sqrt_spec(ex * ex + ey * ey);
                (d, d)
            } else {
                (ex, ey)
            };
            (px - e.0, py - e.1, px + e.0, py + e.1)
        },
        ShapeView::Ellipse { radius_x, radius_y } => {
            let ex = ceil_div_spec(abs(radius_x * o.scale.x), 1000);
            let ey = ceil_div_spec(abs(radius_y * o.scale.y), 1000);
            let e = if turned(o) {
                (max(ex, ey), max(ex, ey))
            } else {
                (ex, ey)
            };
            let sw = max(o.stroke_width as int, 0);
            (px - e.0 - sw, py - e.1 - sw, px + e.0 + sw, py + e.1 + sw)
        },
        ShapeView::Line { end_x, end_y } => {
            let e = line_end(o, end_x as int, end_y as int);
            let t = line_thickness(o);
            (
                min(px, px + e.0) - t,
                min(py, py + e.1) - t,
                max(px, px + e.0) + t,
                max(py, py + e.1) + t,
            )
        },
        ShapeView::Path { .. } => (0, 0, -1000, -1000),
    }
}

/// The pixels scanned for an object, inclusive: `(x0, y0, x1, y1)`.
pub open spec fn pixel_box(o: ObjectView) -> (int, int, int, int) {
    let b = milli_box(o);
    (b.0 / 1000, b.1 / 1000, ceil_div_spec(b.2, 1000), ceil_div_spec(b.3, 1000))
}

/// The pixel `(x, y)` is scanned for `o`.
pub open spec fn in_scan_box(o: ObjectView, x: int, y: int) -> bool {
    let b = pixel_box(o);
    b.0 <= x <= b.2 && b.1 <= y <= b.3
}

fn abs_i64(v: i64) -> (r: i64)
    requires
        v > i64::MIN,
    ensures
        r == abs(v as int),
{
    if v < 0 {
        -v
    } else {
        v
    }
}

/// The pixels scanned for `object`, before clipping to the buffer.
pub fn scan_box(object: &AnimObject) -> (r: (i64, i64, i64, i64))
    ensures
        r.0 as int == pixel_box(object@).0,
        r.1 as int == pixel_box(object@).1,
        r.2 as int == pixel_box(object@).2,
        r.3 as int == pixel_box(object@).3,
{
    let ghost o = object@;
    let px = object.position.x as i64;
    let py = object.position.y as i64;
    let turned = angle_in_turn(object.rotation as i64) != 0;
    let b: (i64, i64, i64, i64) = match &object.shape {
        Shape::Rectangle { width, height, .. } => {
            proof {
                lemma_mul_bound(*width as int, o.scale.x as int, 0x8000_0000, 0x8000_0000);
                lemma_mul_bound(*height as int, o.scale.y as int, 0x8000_0000, 0x8000_0000);
            }
            let ex = ceil_div(abs_i64(*width as i64 * object.scale.x as i64), 2000);
            let ey = ceil_div(abs_i64(*height as i64 * object.scale.y as i64), 2000);
            proof {
                assert(0 <= ex <= 0x10_0000_0000_0000);
                assert(0 <= ey <= 0x10_0000_0000_0000);
                lemma_mul_bound(ex as int, ex as int, 0x10_0000_0000_0000, 0x10_0000_0000_0000);
                lemma_mul_bound(ey as int, ey as int, 0x10_0000_0000_0000, 0x10_0000_0000_0000);
            }
            if turned {
                let d = ceil_sqrt(ex as u128 * ex as u128 + ey as u128 * ey as u128);
                proof {
                    lemma_ceil_sqrt_unique(ex * ex + ey * ey, d as int);
                    assert(d <= 0x20_0000_0000_0000) by (nonlinear_arith)
                        requires
                            d == 0 || (d - 1) * (d - 1) < ex * ex + ey * ey,
                            ex * ex + ey * ey <= 0x200_0000_0000_0000_0000_0000_0000,
                    ;
                }
                let d = d as i64;
                (px - d, py - d, px + d, py + d)
            } else {
                (px - ex, py - ey, px + ex, py + ey)
            }
        },
        Shape::Ellipse { radius_x, radius_y } => {
            proof {
                lemma_mul_bound(*radius_x as int, o.scale.x as int, 0x8000_0000, 0x8000_0000);
                lemma_mul_bound(*radius_y as int, o.scale.y as int, 0x8000_0000, 0x8000_0000);
            }
            let ex = ceil_div(abs_i64(*radius_x as i64 * object.scale.x as i64), 1000);
            let ey = ceil_div(abs_i64(*radius_y as i64 * object.scale.y as i64), 1000);
            proof {
                assert(0 <= ex <= 0x20_0000_0000_0000);
                assert(0 <= ey <= 0x20_0000_0000_0000);
            }
            let (ex, ey) = if turned {
                let m = if ex >= ey {
                    ex
                } else {
                    ey
                };
                (m, m)
            } else {
                (ex, ey)
            };
            let sw: i64 = if object.stroke_width >= 0 {
                object.stroke_width as i64
            } else {
                0
            };
            (px - ex - sw, py - ey - sw, px + ex + sw, py + ey + sw)
        },
        Shape::Line { end_x, end_y } => {
            proof {
                lemma_mul_bound(*end_x as int, o.scale.x as int, 0x8000_0000, 0x8000_0000);
                lemma_mul_bound(*end_y as int, o.scale.y as int, 0x8000_0000, 0x8000_0000);
            }
            let ex = trunc_div_milli(*end_x as i64 * object.scale.x as i64);
            let ey = trunc_div_milli(*end_y as i64 * object.scale.y as i64);
            let t: i64 = if object.stroke_width < 1000 {
                1000
            } else {
                object.stroke_width as i64
            };
            let qx = px + ex;
            let qy = py + ey;
            (
                (if px <= qx {
                    px
                } else {
                    qx
                }) - t,
                (if py <= qy {
                    py
                } else {
                    qy
                }) - t,
                (if px >= qx {
                    px
                } else {
                    qx
                }) + t,
                (if py >= qy {
                    py
                } else {
                    qy
                }) + t,
            )
        },
        Shape::Path { .. } => (0, 0, -1000, -1000),
    };
    proof {
        assert(b.0 as int == milli_box(o).0);
        assert(b.1 as int == milli_box(o).1);
        assert(b.2 as int == milli_box(o).2);
        assert(b.3 as int == milli_box(o).3);
    }
    (floor_div(b.0, 1000), floor_div(b.1, 1000), ceil_div(b.2, 1000), ceil_div(b.3, 1000))
}

/// The pixel `dst` at `(x, y)` after `o` is drawn at `opacity`.
pub open spec fn painted(o: ObjectView, opacity: int, x: int, y: int, dst: Rgba8) -> Rgba8 {
    if in_scan_box(o, x, y) {
        match paint_spec(o, x, y) {
            Some(c) => blend_spec(dst, c, opacity),
            None => dst,
        }
    } else {
        dst
    }
}

/// The pixels `m` after `o` is drawn at `opacity`.
pub open spec fn paint_object(m: Map<(int, int), Rgba8>, o: ObjectView, opacity: int) -> Map<
    (int, int),
    Rgba8,
> {
    Map::new(|k: (int, int)| m.dom().contains(k), |k: (int, int)| painted(o, opacity, k.0, k.1, m[k]))
}

/// `m` with the rows above `y`, and row `y` left of `x`, drawn over by `o`.
spec fn paint_rows(m: Map<(int, int), Rgba8>, o: ObjectView, opacity: int, y: int, x: int) -> Map<
    (int, int),
    Rgba8,
> {
    Map::new(
        |k: (int, int)| m.dom().contains(k),
        |k: (int, int)|
            if k.1 < y || (k.1 == y && k.0 < x) {
                painted(o, opacity, k.0, k.1, m[k])
            } else {
                m[k]
            },
    )
}

/// Lays `color` at `opacity` over the pixel at `(x, y)`.
fn blend_pixel(buffer: &mut PixelBuffer, x: u32, y: u32, color: Color, opacity: i32)
    requires
        old(buffer).wf(),
        (x as int) < old(buffer).width(),
        (y as int) < old(buffer).height(),
    ensures
        final(buffer).wf(),
        buffer_size(*final(buffer)) == buffer_size(*old(buffer)),
        buffer_pixels(*final(buffer)) == buffer_pixels(*old(buffer)).insert(
            (x as int, y as int),
            blend_spec(buffer_pixels(*old(buffer))[(x as int, y as int)], color, opacity as int),
        ),
{
    let ghost m = buffer_pixels(*buffer);
    let dst = buffer.get(x, y);
    let r = blend(dst, color, opacity);
    buffer.put(x, y, r);
}

/// Draws `object` into `buffer` at the opacity of its layer.
#[verifier::rlimit(40)]
pub fn rasterize_object(buffer: &mut PixelBuffer, object: &AnimObject, layer_opacity: i32)
    requires
        old(buffer).wf(),
    ensures
        final(buffer).wf(),
        buffer_size(*final(buffer)) == buffer_size(*old(buffer)),
        buffer_pixels(*final(buffer)) == paint_object(
            buffer_pixels(*old(buffer)),
            object@,
            layer_opacity as int,
        ),
{
    let ghost m = buffer_pixels(*buffer);
    let ghost o = object@;
    let ghost op = layer_opacity as int;
    let (width, height) = buffer.dimensions();
    let b = scan_box(object);
    let x_start: i64 = if b.0 > 0 {
        b.0
    } else {
        0
    };
    let y_start: i64 = if b.1 > 0 {
        b.1
    } else {
        0
    };
    let x_end: i64 = if b.2 < width as i64 - 1 {
        b.2
    } else {
        width as i64 - 1
    };
    let y_end: i64 = if b.3 < height as i64 - 1 {
        b.3
    } else {
        height as i64 - 1
    };
    proof {
        assert(paint_rows(m, o, op, y_start as int, 0) =~= m);
    }
    let mut y = y_start;
    while y <= y_end
        invariant
            buffer.wf(),
            buffer_size(*buffer) == (width as nat, height as nat),
            m.dom() == grid(width as int, height as int),
            y_start <= y,
            y <= y_end + 1 || y == y_start,
            b.0 as int == pixel_box(o).0,
            b.1 as int == pixel_box(o).1,
            b.2 as int == pixel_box(o).2,
            b.3 as int == pixel_box(o).3,
            o == object@,
            op == layer_opacity as int,
            x_start == (if b.0 > 0 { b.0 } else { 0 }),
            y_start == (if b.1 > 0 { b.1 } else { 0 }),
            x_end as int == (if b.2 < width as int - 1 { b.2 as int } else { width as int - 1 }),
            y_end as int == (if b.3 < height as int - 1 { b.3 as int } else { height as int - 1 }),
            buffer_pixels(*buffer) == paint_rows(m, o, op, y as int, 0),
        decreases y_end + 1 - y,
    {
        proof {
            assert(paint_rows(m, o, op, y as int, 0) =~= paint_rows(m, o, op, y as int, x_start as int));
        }
        let mut x = x_start;
        while x <= x_end
            invariant
                buffer.wf(),
                buffer_size(*buffer) == (width as nat, height as nat),
                m.dom() == grid(width as int, height as int),
                x_start <= x,
                x <= x_end + 1 || x == x_start,
                y_start <= y <= y_end,
                b.0 as int == pixel_box(o).0,
                b.1 as int == pixel_box(o).1,
                b.2 as int == pixel_box(o).2,
                b.3 as int == pixel_box(o).3,
                o == object@,
                op == layer_opacity as int,
                x_start == (if b.0 > 0 { b.0 } else { 0 }),
                y_start == (if b.1 > 0 { b.1 } else { 0 }),
                x_end as int == (if b.2 < width as int - 1 { b.2 as int } else { width as int - 1 }),
                y_end as int == (if b.3 < height as int - 1 { b.3 as int } else { height as int - 1 }),
                buffer_pixels(*buffer) == paint_rows(m, o, op, y as int, x as int),
            decreases x_end + 1 - x,
        {
            let ghost before = buffer_pixels(*buffer);
            let ghost k = (x as int, y as int);
            proof {
                assert(grid(width as int, height as int).contains(k));
                assert(in_scan_box(o, x as int, y as int));
            }
            match paint_at(object, x as u32, y as u32) {
                Some(c) => {
                    blend_pixel(buffer, x as u32, y as u32, c, layer_opacity);
                    proof {
                        assert(buffer_pixels(*buffer) =~= paint_rows(m, o, op, y as int, x + 1));
                    }
                },
                None => {
                    proof {
                        assert(buffer_pixels(*buffer) =~= paint_rows(m, o, op, y as int, x + 1));
                    }
                },
            }
            x += 1;
        }
        proof {
            assert(paint_rows(m, o, op, y as int, x as int) =~= paint_rows(m, o, op, y + 1, 0));
        }
        y += 1;
    }
    proof {
        assert(paint_rows(m, o, op, y as int, 0) =~= paint_object(m, o, op));
    }
}

/// The pixels `m` after the objects `objs` are drawn in order at `opacity`.
pub open spec fn paint_objects(m: Map<(int, int), Rgba8>, objs: Seq<ObjectView>, opacity: int) -> Map<
    (int, int),
    Rgba8,
>
    decreases objs.len(),
{
    if objs.len() == 0 {
        m
    } else {
        paint_object(paint_objects(m, objs.drop_last(), opacity), objs.last(), opacity)
    }
}

/// The pixels `m` after a layer's objects at `frame` are drawn, if the layer
/// is visible.
pub open spec fn paint_layer(m: Map<(int, int), Rgba8>, layer: Layer, frame: int) -> Map<
    (int, int),
    Rgba8,
> {
    if !layer.visible {
        m
    } else {
        match resolve_spec(layer.table(), frame) {
            Some(objs) => paint_objects(m, objs, layer.opacity as int),
            None => m,
        }
    }
}

/// The pixels `m` after the layers are drawn bottom to top: the last layer
/// first, the first layer over all others.
pub open spec fn paint_layers(m: Map<(int, int), Rgba8>, layers: Seq<Layer>, frame: int) -> Map<
    (int, int),
    Rgba8,
>
    decreases layers.len(),
{
    if layers.len() == 0 {
        m
    } else {
        paint_layer(paint_layers(m, layers.drop_first(), frame), layers[0], frame)
    }
}

/// A color as a pixel, channel by channel.
pub open spec fn color_pixel(c: Color) -> Rgba8 {
    (to_byte(c.r as int) as u8, to_byte(c.g as int) as u8, to_byte(c.b as int) as u8, to_byte(
        c.a as int,
    ) as u8)
}

/// The rendered frame: the canvas filled with the background color, then
/// every visible layer drawn over it, bottom to top.
pub open spec fn frame_pixels(p: Project, frame: int) -> Map<(int, int), Rgba8> {
    let background = Map::new(
        |k: (int, int)| grid(p.canvas_width as int, p.canvas_height as int).contains(k),
        |k: (int, int)| color_pixel(p.background_color),
    );
    paint_layers(background, p.layers@, frame)
}

/// Renders `frame` of `project` at canvas size.
pub fn rasterize_frame(project: &Project, frame: u32) -> (r: PixelBuffer)
    requires
        project.wf(),
        fits_in_memory(project.canvas_width as int, project.canvas_height as int),
    ensures
        r.wf(),
        buffer_size(r) == (project.canvas_width as nat, project.canvas_height as nat),
        buffer_pixels(r) == frame_pixels(*project, frame as int),
{
    let bg = project.background_color;
    let pixel = (to_byte_of(bg.r), to_byte_of(bg.g), to_byte_of(bg.b), to_byte_of(bg.a));
    let mut buffer = PixelBuffer::filled(project.canvas_width, project.canvas_height, pixel);
    let ghost background = Map::new(
        |k: (int, int)| grid(project.canvas_width as int, project.canvas_height as int).contains(k),
        |k: (int, int)| color_pixel(project.background_color),
    );
    let ghost layers = project.layers@;
    proof {
        assert(buffer_pixels(buffer) =~= background);
        assert(layers.subrange(layers.len() as int, layers.len() as int) =~= Seq::<Layer>::empty());
    }
    let mut index = project.layers.len();
    while index > 0
        invariant
            index <= layers.len(),
            layers == project.layers@,
            project.wf(),
            buffer.wf(),
            buffer_size(buffer) == (project.canvas_width as nat, project.canvas_height as nat),
            buffer_pixels(buffer) == paint_layers(
                background,
                layers.subrange(index as int, layers.len() as int),
                frame as int,
            ),
        decreases index,
    {
        index -= 1;
        let layer = &project.layers[index];
        let ghost below = buffer_pixels(buffer);
        proof {
            assert(layers.subrange(index as int, layers.len() as int).drop_first() =~= layers.subrange(
                index + 1,
                layers.len() as int,
            ));
            assert(layers[index as int].wf());
        }
        if layer.visible {
            match resolve_frame(layer, frame) {
                Some(objects) => {
                    let ghost objs = objects_view(objects@);
                    let mut j: usize = 0;
                    while j < objects.len()
                        invariant
                            j <= objects@.len(),
                            objs == objects_view(objects@),
                            buffer.wf(),
                            buffer_size(buffer) == (
                                project.canvas_width as nat,
                                project.canvas_height as nat,
                            ),
                            buffer_pixels(buffer) == paint_objects(
                                below,
                                objs.subrange(0, j as int),
                                layer.opacity as int,
                            ),
                        decreases objects@.len() - j,
                    {
                        rasterize_object(&mut buffer, &objects[j], layer.opacity);
                        proof {
                            assert(objs.subrange(0, j + 1).drop_last() =~= objs.subrange(0, j as int));
                        }
                        j += 1;
                    }
                    proof {
                        assert(objs.subrange(0, j as int) =~= objs);
                    }
                },
                None => {},
            }
        }
    }
    proof {
        assert(layers.subrange(0, layers.len() as int) =~= layers);
    }
    buffer
}

proof fn lemma_floor_le(v: int, x: int, d: int)
    requires
        0 < d,
        v <= d * x,
    ensures
        v / d <= x,
{
    vstd::arithmetic::div_mod::lemma_div_is_ordered(v, d * x, d);
    vstd::arithmetic::div_mod::lemma_div_multiples_vanish(x, d);
}

proof fn lemma_ceil_ge(v: int, x: int, d: int)
    requires
        0 < d,
        d * x <= v,
    ensures
        x <= ceil_div_spec(v, d),
{
    assert(-v <= d * (-x)) by (nonlinear_arith)
        requires d * x <= v;
    lemma_floor_le(-v, -x, d);
}

proof fn lemma_ceil_mul(v: int, d: int)
    requires
        0 < d,
    ensures
        v <= d * ceil_div_spec(v, d),
{
    vstd::arithmetic::div_mod::lemma_fundamental_div_mod(-v, d);
    vstd::arithmetic::div_mod::lemma_mod_bound(-v, d);
    assert(d * ((-v) / d) <= -v);
    assert(d * ceil_div_spec(v, d) == -(d * ((-v) / d))) by (nonlinear_arith);
}

/// A whole number of turns leaves points where they are.
proof fn lemma_unturned(o: ObjectView)
    requires
        !turned(o),
    ensures
        sin_fx(o.rotation as int) == 0,
        cos_fx(o.rotation as int) == TRIG_ONE,
{
    let r = o.rotation as int;
    let f = FULL_TURN as int;
    vstd::arithmetic::div_mod::lemma_fundamental_div_mod(r, f);
    let q = r / f;
    assert(r == f * q);
    vstd::arithmetic::div_mod::lemma_mod_multiples_vanish(q, 90000, f);
    vstd::arithmetic::div_mod::lemma_small_mod(90000, f as nat);
    assert(r + 90000 == f * q + 90000);
    assert((r + 90000) % f == 90000);
    assert(90000 * (180000 - 90000) == 8_100_000_000);
    assert(4 * 8_100_000_000 * 16384 == 530_841_600_000_000);
    assert(530_841_600_000_000int / 32_400_000_000int == 16384);
    assert(crate::geometry::half_turn_sine(90000) == TRIG_ONE);
}

/// A point within `l` of the position on an axis lies in the pixel span
/// scanned for `[position - e, position + e]`, where `l <= e`.
proof fn lemma_in_span(p: int, e: int, x: int, l: int)
    requires
        abs(l) <= e,
        l == x * 1000 - p,
    ensures
        (p - e) / 1000 <= x <= ceil_div_spec(p + e, 1000),
{
    lemma_floor_le(p - e, x, 1000);
    lemma_ceil_ge(p + e, x, 1000);
}

/// For a shape that is not turned, and for any line, every canvas point the
/// shape covers lies in its scan box: drawing it paints exactly the pixels
/// that the shape's test covers.
pub proof fn lemma_scan_box_covers(o: ObjectView, x: int, y: int)
    requires
        !turned(o) || o.shape is Line,
        paint_spec(o, x, y) is Some,
    ensures
        in_scan_box(o, x, y),
{
    let lx = x * 1000 - o.position.x;
    let ly = y * 1000 - o.position.y;
    let t = TRIG_ONE as int;
    match o.shape {
        ShapeView::Rectangle { width, height, .. } => {
            lemma_unturned(o);
            assert(local_point(o, x, y) == (lx * t, ly * t)) by (nonlinear_arith)
                requires
                    local_point(o, x, y) == turn_back(o, lx, ly),
                    turn_back(o, lx, ly) == (lx * t + ly * 0, ly * t - lx * 0);
            let w = width * o.scale.x;
            let h = height * o.scale.y;
            let ex = ceil_div_spec(abs(w), 2000);
            let ey = ceil_div_spec(abs(h), 2000);
            lemma_ceil_mul(abs(w), 2000);
            lemma_ceil_mul(abs(h), 2000);
            assert(abs(lx) <= ex) by (nonlinear_arith)
                requires
                    2000 * abs(lx * t) <= w * t,
                    t == 16384,
                    abs(w) <= 2000 * ex,
            ;
            assert(abs(ly) <= ey) by (nonlinear_arith)
                requires
                    2000 * abs(ly * t) <= h * t,
                    t == 16384,
                    abs(h) <= 2000 * ey,
            ;
            lemma_in_span(o.position.x as int, ex, x, lx);
            lemma_in_span(o.position.y as int, ey, y, ly);
        },
        ShapeView::Ellipse { radius_x, radius_y } => {
            lemma_unturned(o);
            assert(local_point(o, x, y) == (lx * t, ly * t)) by (nonlinear_arith)
                requires
                    local_point(o, x, y) == turn_back(o, lx, ly),
                    turn_back(o, lx, ly) == (lx * t + ly * 0, ly * t - lx * 0);
            let rx = radius_x * o.scale.x;
            let ry = radius_y * o.scale.y;
            let ex = ceil_div_spec(abs(rx), 1000);
            let ey = ceil_div_spec(abs(ry), 1000);
            let sw = max(o.stroke_width as int, 0);
            lemma_ceil_mul(abs(rx), 1000);
            lemma_ceil_mul(abs(ry), 1000);
            assert(abs(lx) <= ex + sw) by (nonlinear_arith)
                requires
                    1000 * abs(lx * t) <= rx * t,
                    t == 16384,
                    abs(rx) <= 1000 * ex,
                    0 <= sw,
            ;
            assert(abs(ly) <= ey + sw) by (nonlinear_arith)
                requires
                    1000 * abs(ly * t) <= ry * t,
                    t == 16384,
                    abs(ry) <= 1000 * ey,
                    0 <= sw,
            ;
            lemma_in_span(o.position.x as int, ex + sw, x, lx);
            lemma_in_span(o.position.y as int, ey + sw, y, ly);
        },
        ShapeView::Line { end_x, end_y } => {
            let e = line_end(o, end_x as int, end_y as int);
            let th = line_thickness(o);
            let u = UNIT as int;
            let len_sq = e.0 * e.0 + e.1 * e.1;
            let q = lx * e.0 + ly * e.1;
            let tt = if q <= 0 {
                0
            } else if q >= len_sq {
                u
            } else {
                q * u / len_sq
            };
            if 0 < q < len_sq {
                assert(0 <= q * u <= u * len_sq) by (nonlinear_arith)
                    requires 0 < q < len_sq, u == 65536;
                vstd::arithmetic::div_mod::lemma_div_is_ordered(0, q * u, len_sq);
                vstd::arithmetic::div_mod::lemma_div_is_ordered(q * u, u * len_sq, len_sq);
                vstd::arithmetic::div_mod::lemma_div_multiples_vanish(u, len_sq);
            }
            assert(0 <= tt <= u);
            let dx = lx * u - tt * e.0;
            let dy = ly * u - tt * e.1;
            assert(4 * (dx * dx + dy * dy) <= th * th * u * u);
            assert(2 * abs(dx) <= th * u && 2 * abs(dy) <= th * u) by (nonlinear_arith)
                requires
                    4 * (dx * dx + dy * dy) <= th * th * u * u,
                    0 < th,
                    0 < u,
            ;
            assert(min(0, e.0) - th <= lx <= max(0, e.0) + th) by (nonlinear_arith)
                requires
                    2 * abs(lx * u - tt * e.0) <= th * u,
                    0 <= tt <= u,
                    0 < th,
                    u == 65536,
            ;
            assert(min(0, e.1) - th <= ly <= max(0, e.1) + th) by (nonlinear_arith)
                requires
                    2 * abs(ly * u - tt * e.1) <= th * u,
                    0 <= tt <= u,
                    0 < th,
                    u == 65536,
            ;
            let px = o.position.x as int;
            let py = o.position.y as int;
            lemma_floor_le(min(px, px + e.0) - th, x, 1000);
            lemma_ceil_ge(max(px, px + e.0) + th, x, 1000);
            lemma_floor_le(min(py, py + e.1) - th, y, 1000);
            lemma_ceil_ge(max(py, py + e.1) + th, y, 1000);
        },
        ShapeView::Path { .. } => {},
    }
}

} // verus!
