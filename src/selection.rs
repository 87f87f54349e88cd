//! Picking: which object lies under a canvas point.
//!
//! Points are canvas positions in thousandths. An object is tested in its own
//! frame: the point's offset from the object's position is turned back by the
//! object's rotation.
use vstd::prelude::*;
use crate::geometry::{floor_div, trunc_div_spec, TRIG_ONE};
use crate::raster::{max, min};
use crate::model::{
    objects_view, AnimObject, Keyframe, KeyframeView, Layer, ObjectView, PathPoint, Project, Shape,
    ShapeView, Vec2,
};
use crate::raster::{
    abs, abs_i128, degenerate_segment, lemma_mul_bound, line_end, line_end_at, near_segment,
    near_segment_at, trunc_div_milli, turn_back, turn_back_of, within_ellipse, within_ellipse_at,
};
use crate::timeline::{
    count_at_or_before, ensure_keyframe_at, last_at_or_before, resolve_frame, resolve_spec,
    resolved_view, with_keyframe_at,
};

verus! {

/// How near a line a point picks it, in thousandths (five units).
pub const LINE_PICK: i64 = 5000;

/// How near a path vertex or segment a point picks it, in thousandths.
pub const PATH_PICK: i64 = 8000;

/// Samples tested along each path segment, beyond its start.
pub const PATH_SAMPLES: i64 = 8;

/// A path vertex scaled by the object's scale, in thousandths.
pub open spec fn path_vertex(o: ObjectView, p: PathPoint) -> (int, int) {
    (
        trunc_div_spec(p.position.x * o.scale.x, 1000),
        trunc_div_spec(p.position.y * o.scale.y, 1000),
    )
}

/// `u` is less than `PATH_PICK` from `v` on both axes.
pub open spec fn near_vertex(u: (int, int), v: (int, int)) -> bool {
    abs(u.0 - v.0) < PATH_PICK && abs(u.1 - v.1) < PATH_PICK
}

/// `u` is within `PATH_PICK` of the sample `a + (b - a) * step / PATH_SAMPLES`
/// (compared exactly, everything scaled by `PATH_SAMPLES`).
pub open spec fn near_sample(u: (int, int), a: (int, int), b: (int, int), step: int) -> bool {
    let dx = PATH_SAMPLES * u.0 - (PATH_SAMPLES * a.0 + (b.0 - a.0) * step);
    let dy = PATH_SAMPLES * u.1 - (PATH_SAMPLES * a.1 + (b.1 - a.1) * step);
    dx * dx + dy * dy <= (PATH_SAMPLES * PATH_PICK) * (PATH_SAMPLES * PATH_PICK)
}

/// Vertex `i` of the path, or a sample of the segment that ends there, is
/// near `u`.
pub open spec fn near_path_at(o: ObjectView, points: Seq<PathPoint>, u: (int, int), i: int) -> bool {
    ||| near_vertex(u, path_vertex(o, points[i]))
    ||| (i > 0 && exists|step: int|
        0 <= step <= PATH_SAMPLES && #[trigger] near_sample(
            u,
            path_vertex(o, points[i - 1]),
            path_vertex(o, points[i]),
            step,
        ))
}

/// Whether the canvas point `p` picks the object: inside a rectangle or
/// ellipse (an ellipse needs radii of at least a thousandth of a unit), near
/// a line, or near a vertex or segment of a path.
pub open spec fn hit_spec(o: ObjectView, p: Vec2) -> bool {
    let l = turn_back(o, p.x - o.position.x, p.y - o.position.y);
    let u = (l.0 / TRIG_ONE as int, l.1 / TRIG_ONE as int);
    match o.shape {
        ShapeView::Rectangle { width, height, .. } => 2000 * abs(l.0) <= width * o.scale.x
            * TRIG_ONE && 2000 * abs(l.1) <= height * o.scale.y * TRIG_ONE,
        ShapeView::Ellipse { radius_x, radius_y } => {
            let a = radius_x * o.scale.x;
            let b = radius_y * o.scale.y;
            a >= 1000 && b >= 1000 && within_ellipse(abs(l.0), abs(l.1), a, b)
        },
        ShapeView::Line { end_x, end_y } => {
            let e = line_end(o, end_x as int, end_y as int);
            !degenerate_segment(e.0, e.1) && near_segment(u.0, u.1, e.0, e.1, 2 * LINE_PICK)
        },
        ShapeView::Path { points, .. } => path_hit(o, points, u),
    }
}

/// Some vertex or segment of the path is near the local point `u`.
pub open spec fn path_hit(o: ObjectView, points: Seq<PathPoint>, u: (int, int)) -> bool {
    exists|i: int| 0 <= i < points.len() && #[trigger] near_path_at(o, points, u, i)
}

fn path_vertex_at(o: &AnimObject, p: &PathPoint) -> (r: (i128, i128))
    ensures
        r.0 as int == path_vertex(o@, *p).0,
        r.1 as int == path_vertex(o@, *p).1,
        abs(r.0 as int) <= 0x40_0000_0000_0000,
        abs(r.1 as int) <= 0x40_0000_0000_0000,
{
    proof {
        lemma_mul_bound(p.position.x as int, o.scale.x as int, 0x8000_0000, 0x8000_0000);
        lemma_mul_bound(p.position.y as int, o.scale.y as int, 0x8000_0000, 0x8000_0000);
    }
    let x = trunc_div_milli(p.position.x as i64 * o.scale.x as i64);
    let y = trunc_div_milli(p.position.y as i64 * o.scale.y as i64);
    (x as i128, y as i128)
}

fn near_sample_at(u: (i128, i128), a: (i128, i128), b: (i128, i128), step: i128) -> (r: bool)
    requires
        abs(u.0 as int) <= 0x4_0000_0000,
        abs(u.1 as int) <= 0x4_0000_0000,
        abs(a.0 as int) <= 0x40_0000_0000_0000,
        abs(a.1 as int) <= 0x40_0000_0000_0000,
        abs(b.0 as int) <= 0x40_0000_0000_0000,
        abs(b.1 as int) <= 0x40_0000_0000_0000,
        0 <= step <= PATH_SAMPLES,
    ensures
        r == near_sample(
            (u.0 as int, u.1 as int),
            (a.0 as int, a.1 as int),
            (b.0 as int, b.1 as int),
            step as int,
        ),
{
    let n = PATH_SAMPLES as i128;
    proof {
        lemma_mul_bound(b.0 - a.0, step as int, 0x80_0000_0000_0000, 8);
        lemma_mul_bound(b.1 - a.1, step as int, 0x80_0000_0000_0000, 8);
    }
    let dx = n * u.0 - (n * a.0 + (b.0 - a.0) * step);
    let dy = n * u.1 - (n * a.1 + (b.1 - a.1) * step);
    proof {
        lemma_mul_bound(dx as int, dx as int, 0x800_0000_0000_0000, 0x800_0000_0000_0000);
        lemma_mul_bound(dy as int, dy as int, 0x800_0000_0000_0000, 0x800_0000_0000_0000);
        assert(0 <= dx * dx && 0 <= dy * dy) by (nonlinear_arith);
    }
    let reach = (PATH_SAMPLES * PATH_PICK) as i128;
    dx * dx + dy * dy <= reach * reach
}

fn path_hit_at(o: &AnimObject, points: &Vec<PathPoint>, u: (i128, i128)) -> (r: bool)
    requires
        abs(u.0 as int) <= 0x4_0000_0000,
        abs(u.1 as int) <= 0x4_0000_0000,
    ensures
        r == path_hit(o@, points@, (u.0 as int, u.1 as int)),
{
    let ghost uu = (u.0 as int, u.1 as int);
    let mut i: usize = 0;
    while i < points.len()
        invariant
            i <= points@.len(),
            uu == (u.0 as int, u.1 as int),
            abs(u.0 as int) <= 0x4_0000_0000,
            abs(u.1 as int) <= 0x4_0000_0000,
            forall|j: int| 0 <= j < i ==> !#[trigger] near_path_at(o@, points@, uu, j),
        decreases points@.len() - i,
    {
        let v = path_vertex_at(o, &points[i]);
        let dx = abs_i128(u.0 - v.0);
        let dy = abs_i128(u.1 - v.1);
        if dx < PATH_PICK as i128 && dy < PATH_PICK as i128 {
            proof {
                assert(near_path_at(o@, points@, uu, i as int));
            }
            return true;
        }
        if i > 0 {
            let a = path_vertex_at(o, &points[i - 1]);
            let mut step: i64 = 0;
            while step <= PATH_SAMPLES
                invariant
                    0 <= step <= PATH_SAMPLES + 1,
                    0 < i < points@.len(),
                    uu == (u.0 as int, u.1 as int),
                    abs(u.0 as int) <= 0x4_0000_0000,
                    abs(u.1 as int) <= 0x4_0000_0000,
                    a.0 as int == path_vertex(o@, points@[i - 1]).0,
                    a.1 as int == path_vertex(o@, points@[i - 1]).1,
                    v.0 as int == path_vertex(o@, points@[i as int]).0,
                    v.1 as int == path_vertex(o@, points@[i as int]).1,
                    abs(a.0 as int) <= 0x40_0000_0000_0000,
                    abs(a.1 as int) <= 0x40_0000_0000_0000,
                    abs(v.0 as int) <= 0x40_0000_0000_0000,
                    abs(v.1 as int) <= 0x40_0000_0000_0000,
                    forall|s: int|
                        0 <= s < step ==> !#[trigger] near_sample(
                            uu,
                            path_vertex(o@, points@[i - 1]),
                            path_vertex(o@, points@[i as int]),
                            s,
                        ),
                decreases PATH_SAMPLES + 1 - step,
            {
                if near_sample_at(u, a, v, step as i128) {
                    proof {
                        assert(near_sample(
                            uu,
                            path_vertex(o@, points@[i - 1]),
                            path_vertex(o@, points@[i as int]),
                            step as int,
                        ));
                        assert(near_path_at(o@, points@, uu, i as int));
                    }
                    return true;
                }
                step += 1;
            }
        }
        proof {
            assert(!near_path_at(o@, points@, uu, i as int));
        }
        i += 1;
    }
    false
}

/// Whether the canvas point `point` (thousandths) picks `object`.
pub fn point_in_object(point: Vec2, object: &AnimObject) -> (r: bool)
    ensures
        r == hit_spec(object@, point),
{
    let lx = point.x as i128 - object.position.x as i128;
    let ly = point.y as i128 - object.position.y as i128;
    let l = turn_back_of(object, lx, ly);
    proof {
        let c = crate::geometry::cos_fx(object.rotation as int);
        let s = crate::geometry::sin_fx(object.rotation as int);
        crate::geometry::lemma_sin_fx(object.rotation as int);
        crate::geometry::lemma_sin_fx(object.rotation + 90000);
        lemma_mul_bound(lx as int, c, 0x1_0000_0000, 0x4000);
        lemma_mul_bound(ly as int, s, 0x1_0000_0000, 0x4000);
        lemma_mul_bound(ly as int, c, 0x1_0000_0000, 0x4000);
        lemma_mul_bound(lx as int, s, 0x1_0000_0000, 0x4000);
    }
    match &object.shape {
        Shape::Rectangle { width, height, .. } => {
            proof {
                lemma_mul_bound(*width as int, object.scale.x as int, 0x8000_0000, 0x8000_0000);
                lemma_mul_bound(*height as int, object.scale.y as int, 0x8000_0000, 0x8000_0000);
            }
            let w = *width as i128 * object.scale.x as i128;
            let h = *height as i128 * object.scale.y as i128;
            proof {
                lemma_mul_bound(w as int, TRIG_ONE as int, 0x4000_0000_0000_0000, 0x4000);
                lemma_mul_bound(h as int, TRIG_ONE as int, 0x4000_0000_0000_0000, 0x4000);
            }
            let trig = TRIG_ONE as i128;
            let r = 2000 * abs_i128(l.0) <= w * trig && 2000 * abs_i128(l.1) <= h * trig;
            assert(r == hit_spec(object@, point));
            r
        },
        Shape::Ellipse { radius_x, radius_y } => {
            proof {
                lemma_mul_bound(*radius_x as int, object.scale.x as int, 0x8000_0000, 0x8000_0000);
                lemma_mul_bound(*radius_y as int, object.scale.y as int, 0x8000_0000, 0x8000_0000);
            }
            let a = *radius_x as i128 * object.scale.x as i128;
            let b = *radius_y as i128 * object.scale.y as i128;
            let r = a >= 1000 && b >= 1000 && within_ellipse_at(abs_i128(l.0), abs_i128(l.1), a, b);
            assert(r == hit_spec(object@, point));
            r
        },
        Shape::Line { end_x, end_y } => {
            let e = match line_end_at(object, *end_x, *end_y) {
                Some(e) => e,
                None => {
                    return false;
                },
            };
            let ux = floor_div(l.0 as i64, TRIG_ONE) as i128;
            let uy = floor_div(l.1 as i64, TRIG_ONE) as i128;
            proof {
                assert(abs(ux as int) <= 0x4_0000_0000) by (nonlinear_arith)
                    requires
                        ux as int == l.0 as int / 16384,
                        -0x8000_0000_0000 <= l.0 <= 0x8000_0000_0000,
                ;
                assert(abs(uy as int) <= 0x4_0000_0000) by (nonlinear_arith)
                    requires
                        uy as int == l.1 as int / 16384,
                        -0x8000_0000_0000 <= l.1 <= 0x8000_0000_0000,
                ;
            }
            let r = near_segment_at(ux, uy, e.0, e.1, 2 * LINE_PICK as i128);
            proof {
                let u = (l.0 as int / TRIG_ONE as int, l.1 as int / TRIG_ONE as int);
                assert(u == (ux as int, uy as int));
            }
            assert(r == hit_spec(object@, point));
            r
        },
        Shape::Path { points, .. } => {
            let ux = floor_div(l.0 as i64, TRIG_ONE) as i128;
            let uy = floor_div(l.1 as i64, TRIG_ONE) as i128;
            proof {
                assert(abs(ux as int) <= 0x4_0000_0000) by (nonlinear_arith)
                    requires
                        ux as int == l.0 as int / 16384,
                        -0x8000_0000_0000 <= l.0 <= 0x8000_0000_0000,
                ;
                assert(abs(uy as int) <= 0x4_0000_0000) by (nonlinear_arith)
                    requires
                        uy as int == l.1 as int / 16384,
                        -0x8000_0000_0000 <= l.1 <= 0x8000_0000_0000,
                ;
            }
            let r = path_hit_at(object, points, (ux, uy));
            proof {
                let u = (l.0 as int / TRIG_ONE as int, l.1 as int / TRIG_ONE as int);
                assert(u == (ux as int, uy as int));
            }
            assert(r == hit_spec(object@, point));
            r
        },
    }
}

/// The identity of the topmost object of a paint-ordered list that `p` picks.
pub open spec fn hit_in_objects(objs: Seq<ObjectView>, p: Vec2) -> Option<u128>
    decreases objs.len(),
{
    if objs.len() == 0 {
        None
    } else if hit_spec(objs.last(), p) {
        Some(objs.last().id)
    } else {
        hit_in_objects(objs.drop_last(), p)
    }
}

/// Picking in one layer at `frame`; hidden and locked layers pick nothing.
pub open spec fn hit_in_layer(layer: Layer, frame: int, p: Vec2) -> Option<u128> {
    if !layer.visible || layer.locked {
        None
    } else {
        match resolve_spec(layer.table(), frame) {
            Some(objs) => hit_in_objects(objs, p),
            None => None,
        }
    }
}

/// Picking through the layers from the top one down.
pub open spec fn hit_in_layers(layers: Seq<Layer>, frame: int, p: Vec2) -> Option<u128>
    decreases layers.len(),
{
    if layers.len() == 0 {
        None
    } else {
        match hit_in_layer(layers[0], frame, p) {
            Some(id) => Some(id),
            None => hit_in_layers(layers.drop_first(), frame, p),
        }
    }
}

/// The identity of the object that `point` picks at `frame`: the topmost
/// one, in the topmost visible, unlocked layer that has one there.
pub fn hit_test(project: &Project, frame: u32, point: Vec2) -> (r: Option<u128>)
    requires
        project.wf(),
    ensures
        r == hit_in_layers(project.layers@, frame as int, point),
{
    let ghost layers = project.layers@;
    proof {
        assert(layers.subrange(0, layers.len() as int) =~= layers);
    }
    let mut i: usize = 0;
    while i < project.layers.len()
        invariant
            i <= layers.len(),
            layers == project.layers@,
            project.wf(),
            hit_in_layers(layers, frame as int, point) == hit_in_layers(
                layers.subrange(i as int, layers.len() as int),
                frame as int,
                point,
            ),
        decreases layers.len() - i,
    {
        let layer = &project.layers[i];
        proof {
            assert(layers.subrange(i as int, layers.len() as int).drop_first() =~= layers.subrange(
                i + 1,
                layers.len() as int,
            ));
            assert(layers.subrange(i as int, layers.len() as int)[0] == layers[i as int]);
            assert(layers[i as int].wf());
        }
        if layer.visible && !layer.locked {
            match resolve_frame(layer, frame) {
                Some(objects) => {
                    let ghost objs = objects_view(objects@);
                    let mut j = objects.len();
                    proof {
                        assert(objs.subrange(0, j as int) =~= objs);
                    }
                    while j > 0
                        invariant
                            j <= objects@.len(),
                            objs == objects_view(objects@),
                            i < layers.len(),
                            layers == project.layers@,
                            layers.subrange(i as int, layers.len() as int)[0] == layers[i as int],
                            hit_in_layers(layers, frame as int, point) == hit_in_layers(
                                layers.subrange(i as int, layers.len() as int),
                                frame as int,
                                point,
                            ),
                            layers[i as int].visible && !layers[i as int].locked,
                            resolve_spec(layers[i as int].table(), frame as int) == Some(objs),
                            hit_in_objects(objs, point) == hit_in_objects(
                                objs.subrange(0, j as int),
                                point,
                            ),
                        decreases j,
                    {
                        j -= 1;
                        proof {
                            assert(objs.subrange(0, j + 1).drop_last() =~= objs.subrange(0, j as int));
                            assert(objs.subrange(0, j + 1).last() == objs[j as int]);
                            assert(objs[j as int] == objects@[j as int]@);
                        }
                        if point_in_object(point, &objects[j]) {
                            proof {
                                assert(hit_in_objects(objs.subrange(0, j + 1), point) == Some(
                                    objs[j as int].id,
                                ));
                                assert(hit_in_layer(layers[i as int], frame as int, point) == Some(
                                    objs[j as int].id,
                                ));
                                assert(hit_in_layers(
                                    layers.subrange(i as int, layers.len() as int),
                                    frame as int,
                                    point,
                                ) == Some(objs[j as int].id));
                            }
                            return Some(objects[j].id);
                        }
                    }
                    proof {
                        assert(objs.subrange(0, 0) =~= Seq::<ObjectView>::empty());
                    }
                },
                None => {},
            }
        }
        i += 1;
    }
    None
}

/// `v + d`, held to the range of `i32`.
pub open spec fn shifted(v: int, d: int) -> i32 {
    if v + d > i32::MAX {
        i32::MAX
    } else if v + d < i32::MIN {
        i32::MIN
    } else {
        (v + d) as i32
    }
}

/// The object moved by `delta`.
pub open spec fn moved_object(o: ObjectView, delta: Vec2) -> ObjectView {
    ObjectView {
        position: Vec2 {
            x: shifted(o.position.x as int, delta.x as int),
            y: shifted(o.position.y as int, delta.y as int),
        },
        ..o
    }
}

/// The objects, those selected moved by `delta`.
pub open spec fn moved_objects(objs: Seq<ObjectView>, selected: Seq<u128>, delta: Vec2) -> Seq<
    ObjectView,
> {
    Seq::new(
        objs.len(),
        |k: int|
            if selected.contains(objs[k].id) {
                moved_object(objs[k], delta)
            } else {
                objs[k]
            },
    )
}

/// Some object of the list is selected.
pub open spec fn any_selected(objs: Seq<ObjectView>, selected: Seq<u128>) -> bool {
    exists|k: int| 0 <= k < objs.len() && selected.contains(#[trigger] objs[k].id)
}

/// A keyframe table after a move at `frame`: where a selected object is
/// visible there, a keyframe is first made sure of at `frame`; then the
/// selected objects of the keyframe at `frame`, if there is one, move.
pub open spec fn table_after_move(
    t: Seq<(u32, KeyframeView)>,
    frame: u32,
    selected: Seq<u128>,
    delta: Vec2,
) -> Seq<(u32, KeyframeView)> {
    let t1 = match resolve_spec(t, frame as int) {
        Some(objs) => if any_selected(objs, selected) {
            with_keyframe_at(t, frame)
        } else {
            t
        },
        None => t,
    };
    let i = last_at_or_before(t1, frame as int);
    if i >= 0 && t1[i].0 == frame {
        t1.update(
            i,
            (
                frame,
                KeyframeView {
                    objects: moved_objects(t1[i].1.objects, selected, delta),
                    tween: t1[i].1.tween,
                },
            ),
        )
    } else {
        t1
    }
}

fn contains_id(ids: &Vec<u128>, id: u128) -> (r: bool)
    ensures
        r == ids@.contains(id),
{
    let mut i: usize = 0;
    while i < ids.len()
        invariant
            i <= ids@.len(),
            forall|j: int| 0 <= j < i ==> ids@[j] != id,
        decreases ids@.len() - i,
    {
        if ids[i] == id {
            return true;
        }
        i += 1;
    }
    false
}

fn shift(v: i32, d: i32) -> (r: i32)
    ensures
        r == shifted(v as int, d as int),
{
    let s = v as i64 + d as i64;
    if s > i32::MAX as i64 {
        i32::MAX
    } else if s < i32::MIN as i64 {
        i32::MIN
    } else {
        s as i32
    }
}

/// Copies of the objects, those selected moved by `delta`.
fn move_objects(objects: &Vec<AnimObject>, selected: &Vec<u128>, delta: Vec2) -> (r: Vec<AnimObject>)
    ensures
        objects_view(r@) == moved_objects(objects_view(objects@), selected@, delta),
{
    let ghost want = moved_objects(objects_view(objects@), selected@, delta);
    let mut r: Vec<AnimObject> = Vec::new();
    let mut k: usize = 0;
    while k < objects.len()
        invariant
            k <= objects@.len(),
            r@.len() == k,
            want == moved_objects(objects_view(objects@), selected@, delta),
            forall|j: int| 0 <= j < k ==> (#[trigger] r@[j])@ == want[j],
        decreases objects@.len() - k,
    {
        let mut o = objects[k].duplicate();
        if contains_id(selected, o.id) {
            o.position = Vec2 { x: shift(o.position.x, delta.x), y: shift(o.position.y, delta.y) };
        }
        r.push(o);
        k += 1;
    }
    proof {
        assert(objects_view(r@) =~= want);
    }
    r
}

/// Whether a selected object is among the objects.
fn has_selected(objects: &Vec<AnimObject>, selected: &Vec<u128>) -> (r: bool)
    ensures
        r == any_selected(objects_view(objects@), selected@),
{
    let ghost objs = objects_view(objects@);
    let mut k: usize = 0;
    while k < objects.len()
        invariant
            k <= objects@.len(),
            objs == objects_view(objects@),
            forall|j: int| 0 <= j < k ==> !selected@.contains(#[trigger] objs[j].id),
        decreases objects@.len() - k,
    {
        if contains_id(selected, objects[k].id) {
            proof {
                assert(selected@.contains(objs[k as int].id));
            }
            return true;
        }
        k += 1;
    }
    false
}

/// Moves the selected objects of one layer at `frame`.
fn move_in_layer(layer: &mut Layer, frame: u32, selected: &Vec<u128>, delta: Vec2)
    requires
        old(layer).wf(),
    ensures
        final(layer).wf(),
        final(layer).table() == table_after_move(old(layer).table(), frame, selected@, delta),
        final(layer).id == old(layer).id,
        final(layer).name == old(layer).name,
        final(layer).visible == old(layer).visible,
        final(layer).locked == old(layer).locked,
        final(layer).opacity == old(layer).opacity,
{
    let ghost t = layer.table();
    let touched = match resolve_frame(layer, frame) {
        Some(objects) => has_selected(&objects, selected),
        None => false,
    };
    if touched {
        ensure_keyframe_at(layer, frame);
    }
    let ghost t1 = layer.table();
    let n = count_at_or_before(&layer.keyframes, frame);
    if n > 0 && layer.keyframes[n - 1].0 == frame {
        let moved = move_objects(&layer.keyframes[n - 1].1.objects, selected, delta);
        let tween = layer.keyframes[n - 1].1.tween;
        proof {
            assert(t1[n - 1].1 == layer.keyframes@[n - 1].1@);
        }
        layer.keyframes.set(n - 1, (frame, Keyframe { objects: moved, tween }));
        proof {
            assert(layer.table() =~= t1.update(
                n - 1,
                (
                    frame,
                    KeyframeView {
                        objects: moved_objects(t1[n - 1].1.objects, selected@, delta),
                        tween: t1[n - 1].1.tween,
                    },
                ),
            ));
        }
    } else {
        proof {
            if n > 0 {
                assert(t1[n - 1].0 == layer.keyframes@[n - 1].0);
            }
        }
    }
}

/// Moves the selected objects by `delta` at `frame`, in every layer where
/// they are, materializing a keyframe at `frame` first where a layer shows a
/// selected object there without one. Nothing changes when `active_layer` is
/// not a layer of the project.
pub fn move_selected_objects(
    project: &mut Project,
    frame: u32,
    active_layer: usize,
    selected: &Vec<u128>,
    delta: Vec2,
)
    requires
        old(project).wf(),
    ensures
        final(project).wf(),
        active_layer >= old(project).layers@.len() ==> *final(project) == *old(project),
        final(project).layers@.len() == old(project).layers@.len(),
        final(project).name == old(project).name,
        final(project).canvas_width == old(project).canvas_width,
        final(project).canvas_height == old(project).canvas_height,
        final(project).background_color == old(project).background_color,
        final(project).frame_rate == old(project).frame_rate,
        final(project).total_frames == old(project).total_frames,
        active_layer < old(project).layers@.len() ==> forall|i: int|
            0 <= i < old(project).layers@.len() ==> #[trigger] final(project).layers@[i].table()
                == table_after_move(old(project).layers@[i].table(), frame, selected@, delta),
        forall|i: int|
            0 <= i < old(project).layers@.len() ==> {
                let a = #[trigger] final(project).layers@[i];
                let b = old(project).layers@[i];
                a.id == b.id && a.name == b.name && a.visible == b.visible && a.locked == b.locked
                    && a.opacity == b.opacity
            },
{
    if active_layer >= project.layers.len() {
        return;
    }
    let ghost before = project.layers@;
    let mut rest: Vec<Layer> = Vec::new();
    core::mem::swap(&mut project.layers, &mut rest);
    let mut done: Vec<Layer> = Vec::new();
    let mut i: usize = 0;
    let count = rest.len();
    while i < count
        invariant
            count == before.len(),
            i <= count,
            rest@ == before.subrange(i as int, count as int),
            done@.len() == i,
            forall|j: int| 0 <= j < before.len() ==> (#[trigger] before[j]).wf(),
            forall|j: int|
                0 <= j < i ==> {
                    let a = #[trigger] done@[j];
                    let b = before[j];
                    &&& a.wf()
                    &&& a.table() == table_after_move(b.table(), frame, selected@, delta)
                    &&& a.id == b.id && a.name == b.name && a.visible == b.visible && a.locked
                        == b.locked && a.opacity == b.opacity
                },
        decreases count - i,
    {
        let mut layer = rest.remove(0);
        proof {
            assert(layer == before[i as int]);
            assert(rest@ =~= before.subrange(i + 1, count as int));
        }
        move_in_layer(&mut layer, frame, selected, delta);
        done.push(layer);
        i += 1;
    }
    project.layers = done;
}

/// The box a selection indicator is drawn around, in the object's frame and
/// thousandths: half extents and the center's offset from the position.
#[derive(Clone, Copy, Debug, PartialEq, Eq, Structural)]
pub struct ObjectBounds {
    pub half_width: i64,
    pub half_height: i64,
    pub center_x: i64,
    pub center_y: i64,
}

/// The least half extent of a line's or a path's box (five units).
pub const MIN_HALF_EXTENT: i64 = 5000;

/// The half extent of the box of an empty path (ten units).
pub const EMPTY_PATH_HALF_EXTENT: i64 = 10000;

/// A length of the object's frame scaled by a factor, in thousandths.
pub open spec fn scaled(v: int, s: int) -> int {
    trunc_div_spec(v * s, 1000)
}

/// The least and greatest scaled coordinates of the path's first `n`
/// vertices: `(min x, max x, min y, max y)`.
pub open spec fn path_extent(o: ObjectView, pts: Seq<PathPoint>, n: int) -> (int, int, int, int)
    decreases n,
{
    let x = scaled(pts[n - 1].position.x as int, o.scale.x as int);
    let y = scaled(pts[n - 1].position.y as int, o.scale.y as int);
    if n <= 1 {
        (x, x, y, y)
    } else {
        let e = path_extent(o, pts, n - 1);
        (min(e.0, x), max(e.1, x), min(e.2, y), max(e.3, y))
    }
}

/// The selection box: half the scaled size of a rectangle around its
/// position; the scaled radii of an ellipse; the box spanned by a line or by
/// a path's vertices, at least `MIN_HALF_EXTENT` each way, around its middle;
/// a fixed box for an empty path.
pub open spec fn bounds_spec(o: ObjectView) -> ObjectBounds {
    match o.shape {
        ShapeView::Rectangle { width, height, .. } => ObjectBounds {
            half_width: ((width * o.scale.x) / 2000) as i64,
            half_height: ((height * o.scale.y) / 2000) as i64,
            center_x: 0,
            center_y: 0,
        },
        ShapeView::Ellipse { radius_x, radius_y } => ObjectBounds {
            half_width: scaled(radius_x as int, o.scale.x as int) as i64,
            half_height: scaled(radius_y as int, o.scale.y as int) as i64,
            center_x: 0,
            center_y: 0,
        },
        ShapeView::Line { end_x, end_y } => {
            let x = scaled(end_x as int, o.scale.x as int);
            let y = scaled(end_y as int, o.scale.y as int);
            ObjectBounds {
                half_width: max(abs(x) / 2, MIN_HALF_EXTENT as int) as i64,
                half_height: max(abs(y) / 2, MIN_HALF_EXTENT as int) as i64,
                center_x: (x / 2) as i64,
                center_y: (y / 2) as i64,
            }
        },
        ShapeView::Path { points, .. } => if points.len() == 0 {
            ObjectBounds {
                half_width: EMPTY_PATH_HALF_EXTENT,
                half_height: EMPTY_PATH_HALF_EXTENT,
                center_x: 0,
                center_y: 0,
            }
        } else {
            let e = path_extent(o, points, points.len() as int);
            ObjectBounds {
                half_width: max((e.1 - e.0) / 2, MIN_HALF_EXTENT as int) as i64,
                half_height: max((e.3 - e.2) / 2, MIN_HALF_EXTENT as int) as i64,
                center_x: ((e.0 + e.1) / 2) as i64,
                center_y: ((e.2 + e.3) / 2) as i64,
            }
        },
    }
}

fn scaled_at(v: i32, s: i32) -> (r: i64)
    ensures
        r == scaled(v as int, s as int),
        abs(r as int) <= 0x40_0000_0000_0000,
{
    proof {
        lemma_mul_bound(v as int, s as int, 0x8000_0000, 0x8000_0000);
    }
    trunc_div_milli(v as i64 * s as i64)
}

/// The box a selection indicator is drawn around for `object`.
pub fn get_object_bounds(object: &AnimObject) -> (r: ObjectBounds)
    ensures
        r == bounds_spec(object@),
{
    let ghost o = object@;
    match &object.shape {
        Shape::Rectangle { width, height, .. } => {
            proof {
                lemma_mul_bound(*width as int, object.scale.x as int, 0x8000_0000, 0x8000_0000);
                lemma_mul_bound(*height as int, object.scale.y as int, 0x8000_0000, 0x8000_0000);
            }
            ObjectBounds {
                half_width: floor_div(*width as i64 * object.scale.x as i64, 2000),
                half_height: floor_div(*height as i64 * object.scale.y as i64, 2000),
                center_x: 0,
                center_y: 0,
            }
        },
        Shape::Ellipse { radius_x, radius_y } => ObjectBounds {
            half_width: scaled_at(*radius_x, object.scale.x),
            half_height: scaled_at(*radius_y, object.scale.y),
            center_x: 0,
            center_y: 0,
        },
        Shape::Line { end_x, end_y } => {
            let x = scaled_at(*end_x, object.scale.x);
            let y = scaled_at(*end_y, object.scale.y);
            let hx = floor_div(if x < 0 { -x } else { x }, 2);
            let hy = floor_div(if y < 0 { -y } else { y }, 2);
            ObjectBounds {
                half_width: if hx >= MIN_HALF_EXTENT { hx } else { MIN_HALF_EXTENT },
                half_height: if hy >= MIN_HALF_EXTENT { hy } else { MIN_HALF_EXTENT },
                center_x: floor_div(x, 2),
                center_y: floor_div(y, 2),
            }
        },
        Shape::Path { points, .. } => {
            if points.len() == 0 {
                return ObjectBounds {
                    half_width: EMPTY_PATH_HALF_EXTENT,
                    half_height: EMPTY_PATH_HALF_EXTENT,
                    center_x: 0,
                    center_y: 0,
                };
            }
            let ghost pts = points@;
            let x0 = scaled_at(points[0].position.x, object.scale.x);
            let y0 = scaled_at(points[0].position.y, object.scale.y);
            let mut lo_x = x0;
            let mut hi_x = x0;
            let mut lo_y = y0;
            let mut hi_y = y0;
            let mut i: usize = 1;
            while i < points.len()
                invariant
                    1 <= i <= pts.len(),
                    pts == points@,
                    o == object@,
                    (lo_x as int, hi_x as int, lo_y as int, hi_y as int) == path_extent(
                        o,
                        pts,
                        i as int,
                    ),
                    abs(lo_x as int) <= 0x40_0000_0000_0000,
                    abs(hi_x as int) <= 0x40_0000_0000_0000,
                    abs(lo_y as int) <= 0x40_0000_0000_0000,
                    abs(hi_y as int) <= 0x40_0000_0000_0000,
                decreases pts.len() - i,
            {
                let x = scaled_at(points[i].position.x, object.scale.x);
                let y = scaled_at(points[i].position.y, object.scale.y);
                if x < lo_x {
                    lo_x = x;
                }
                if x > hi_x {
                    hi_x = x;
                }
                if y < lo_y {
                    lo_y = y;
                }
                if y > hi_y {
                    hi_y = y;
                }
                i += 1;
            }
            let hx = floor_div(hi_x - lo_x, 2);
            let hy = floor_div(hi_y - lo_y, 2);
            ObjectBounds {
                half_width: if hx >= MIN_HALF_EXTENT { hx } else { MIN_HALF_EXTENT },
                half_height: if hy >= MIN_HALF_EXTENT { hy } else { MIN_HALF_EXTENT },
                center_x: floor_div(lo_x + hi_x, 2),
                center_y: floor_div(lo_y + hi_y, 2),
            }
        },
    }
}

} // verus!
