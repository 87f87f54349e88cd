//! The timeline resolver: the objects of a layer at any frame, and the one
//! edit of a keyframe table that the core makes itself.
use vstd::prelude::*;
use crate::easing::{
    apply_easing, eased, lemma_eased_in_unit, lemma_lerp_between, lerp_angle, lerp_angle_spec, lerp_color,
    lerp_color_spec, lerp_scalar, lerp_spec, lerp_vec2, lerp_vec2_spec, Fraction,
};
use crate::model::{
    Color, Vec2,
    duplicate_objects, frames_increasing, objects_view, table_view, AnimObject, Keyframe,
    KeyframeView, Layer, ObjectView, TweenType,
};

verus! {

/// Index of the last entry whose frame is at or before `frame`; -1 if none is.
pub open spec fn last_at_or_before(s: Seq<(u32, KeyframeView)>, frame: int) -> int
    decreases s.len(),
{
    if s.len() == 0 {
        -1
    } else if s.last().0 <= frame {
        s.len() - 1
    } else {
        last_at_or_before(s.drop_last(), frame)
    }
}

/// Index of the first object with identity `id`; -1 if there is none.
pub open spec fn find_index(s: Seq<ObjectView>, id: u128) -> int
    decreases s.len(),
{
    if s.len() == 0 {
        -1
    } else {
        let r = find_index(s.drop_last(), id);
        if r >= 0 {
            r
        } else if s.last().id == id {
            s.len() - 1
        } else {
            -1
        }
    }
}

/// The blend of two states of one object: the identity and the shape come
/// from `from`; transform, colors and stroke width are interpolated.
pub open spec fn interpolate_object_spec(from: ObjectView, to: ObjectView, t: Fraction) -> ObjectView {
    ObjectView {
        id: from.id,
        shape: from.shape,
        position: lerp_vec2_spec(from.position, to.position, t),
        rotation: lerp_angle_spec(from.rotation as int, to.rotation as int, t) as i32,
        scale: lerp_vec2_spec(from.scale, to.scale, t),
        fill: lerp_color_spec(from.fill, to.fill, t),
        stroke: lerp_color_spec(from.stroke, to.stroke, t),
        stroke_width: lerp_spec(from.stroke_width as int, to.stroke_width as int, t) as i32,
    }
}

/// Each object of `from`, blended with the first object of `to` that has its
/// identity, or kept as it is where `to` has none.
pub open spec fn interpolate_objects_spec(
    from: Seq<ObjectView>,
    to: Seq<ObjectView>,
    t: Fraction,
) -> Seq<ObjectView> {
    Seq::new(
        from.len(),
        |i: int|
            {
                let j = find_index(to, from[i].id);
                if j >= 0 {
                    interpolate_object_spec(from[i], to[j], t)
                } else {
                    from[i]
                }
            },
    )
}

/// The objects of a keyframe table at `frame`: none before the first key; the
/// governing key's objects at a key, under a hold tween, or past the last key;
/// otherwise the blend toward the next key by the eased parameter.
pub open spec fn resolve_spec(s: Seq<(u32, KeyframeView)>, frame: int) -> Option<Seq<ObjectView>> {
    let i = last_at_or_before(s, frame);
    if i < 0 {
        None
    } else {
        let key = s[i].0 as int;
        let prev = s[i].1;
        if key == frame || prev.tween == TweenType::Hold || i + 1 >= s.len() {
            Some(prev.objects)
        } else {
            let next_key = s[i + 1].0 as int;
            Some(
                interpolate_objects_spec(
                    prev.objects,
                    s[i + 1].1.objects,
                    eased(prev.tween, frame - key, next_key - key),
                ),
            )
        }
    }
}

/// The view of a resolved object list.
pub open spec fn resolved_view(r: Option<Vec<AnimObject>>) -> Option<Seq<ObjectView>> {
    match r {
        Some(v) => Some(objects_view(v@)),
        None => None,
    }
}

/// Whether the table has a key at `frame`.
pub open spec fn has_key(s: Seq<(u32, KeyframeView)>, frame: int) -> bool {
    exists|i: int| 0 <= i < s.len() && s[i].0 == frame
}

/// The table with `kv` stored at `frame`, replacing a keyframe already there.
pub open spec fn table_insert(s: Seq<(u32, KeyframeView)>, frame: u32, kv: KeyframeView) -> Seq<
    (u32, KeyframeView),
> {
    let i = last_at_or_before(s, frame as int);
    if i >= 0 && s[i].0 == frame {
        s.update(i, (frame, kv))
    } else {
        s.insert(i + 1, (frame, kv))
    }
}

/// The table after making sure a key exists at `frame`: unchanged where one
/// does; else the resolved state at `frame` (nothing, before the first key) is
/// stored there as a new keyframe with a hold tween.
pub open spec fn with_keyframe_at(s: Seq<(u32, KeyframeView)>, frame: u32) -> Seq<
    (u32, KeyframeView),
> {
    if has_key(s, frame as int) {
        s
    } else {
        let objects = match resolve_spec(s, frame as int) {
            Some(o) => o,
            None => Seq::empty(),
        };
        table_insert(s, frame, KeyframeView { objects, tween: TweenType::Hold })
    }
}

pub proof fn lemma_last_at_or_before(s: Seq<(u32, KeyframeView)>, frame: int)
    ensures
        -1 <= last_at_or_before(s, frame) < s.len(),
        last_at_or_before(s, frame) >= 0 ==> s[last_at_or_before(s, frame)].0 <= frame,
        forall|j: int|
            last_at_or_before(s, frame) < j < s.len() ==> #[trigger] s[j].0 > frame,
    decreases s.len(),
{
    if s.len() > 0 && s.last().0 > frame {
        lemma_last_at_or_before(s.drop_last(), frame);
        assert forall|j: int| last_at_or_before(s, frame) < j < s.len() implies #[trigger] s[j].0
            > frame by {
            if j < s.len() - 1 {
                assert(s[j] == s.drop_last()[j]);
            }
        }
    }
}

proof fn lemma_last_at_or_before_is(s: Seq<(u32, KeyframeView)>, frame: int, idx: int)
    requires
        -1 <= idx < s.len(),
        idx >= 0 ==> s[idx].0 <= frame,
        forall|j: int| idx < j < s.len() ==> #[trigger] s[j].0 > frame,
    ensures
        last_at_or_before(s, frame) == idx,
    decreases s.len(),
{
    if s.len() > 0 {
        if s.last().0 <= frame {
            assert(!(idx < s.len() - 1));
        } else {
            assert forall|j: int| idx < j < s.drop_last().len() implies #[trigger] s.drop_last()[j].0
                > frame by {
                assert(s.drop_last()[j] == s[j]);
            }
            lemma_last_at_or_before_is(s.drop_last(), frame, idx);
        }
    }
}

/// In an ordered table, a key equal to `frame` is the last one at or before it.
proof fn lemma_key_found(s: Seq<(u32, KeyframeView)>, frame: int)
    requires
        frames_increasing(s),
    ensures
        has_key(s, frame) <==> (last_at_or_before(s, frame) >= 0 && s[last_at_or_before(
            s,
            frame,
        )].0 == frame),
{
    lemma_last_at_or_before(s, frame);
    let i = last_at_or_before(s, frame);
    if has_key(s, frame) {
        let k = choose|k: int| 0 <= k < s.len() && s[k].0 == frame;
        if k > i {
            assert(s[k].0 > frame);
        }
        if k < i {
            assert(s[k].0 < s[i].0);
        }
    }
}

/// The number of entries whose frame is at or before `frame`.
pub(crate) fn count_at_or_before(keyframes: &Vec<(u32, Keyframe)>, frame: u32) -> (n: usize)
    requires
        frames_increasing(table_view(keyframes@)),
    ensures
        n <= keyframes@.len(),
        last_at_or_before(table_view(keyframes@), frame as int) == n - 1,
{
    let ghost s = table_view(keyframes@);
    let mut lo: usize = 0;
    let mut hi: usize = keyframes.len();
    while lo < hi
        invariant
            lo <= hi <= keyframes@.len(),
            s == table_view(keyframes@),
            frames_increasing(s),
            forall|j: int| 0 <= j < lo ==> #[trigger] s[j].0 <= frame,
            forall|j: int| hi <= j < s.len() ==> #[trigger] s[j].0 > frame,
        decreases hi - lo,
    {
        let mid = lo + (hi - lo) / 2;
        if keyframes[mid].0 <= frame {
            assert(s[mid as int].0 <= frame);
            assert forall|j: int| 0 <= j < mid + 1 implies #[trigger] s[j].0 <= frame by {
                if j < mid {
                    assert(s[j].0 < s[mid as int].0);
                }
            }
            lo = mid + 1;
        } else {
            assert(s[mid as int].0 > frame);
            assert forall|j: int| mid <= j < s.len() implies #[trigger] s[j].0 > frame by {
                if j > mid {
                    assert(s[j].0 > s[mid as int].0);
                }
            }
            hi = mid;
        }
    }
    proof {
        if lo > 0 {
            assert(s[lo - 1].0 <= frame);
        }
        lemma_last_at_or_before_is(s, frame as int, lo - 1);
    }
    lo
}

proof fn lemma_find_index_prefix(s: Seq<ObjectView>, m: int, id: u128)
    requires
        0 <= m <= s.len(),
        find_index(s.subrange(0, m), id) >= 0,
    ensures
        find_index(s, id) == find_index(s.subrange(0, m), id),
    decreases s.len() - m,
{
    if m < s.len() {
        assert(s.subrange(0, m + 1).drop_last() =~= s.subrange(0, m));
        lemma_find_index_prefix(s, m + 1, id);
    } else {
        assert(s.subrange(0, m) =~= s);
    }
}

/// The index of the first object with identity `id`.
fn find_by_id(objects: &Vec<AnimObject>, id: u128) -> (r: Option<usize>)
    ensures
        match r {
            Some(j) => j < objects@.len() && find_index(objects_view(objects@), id) == j,
            None => find_index(objects_view(objects@), id) == -1,
        },
{
    let ghost s = objects_view(objects@);
    let mut i: usize = 0;
    while i < objects.len()
        invariant
            i <= objects@.len(),
            s == objects_view(objects@),
            find_index(s.subrange(0, i as int), id) == -1,
        decreases objects@.len() - i,
    {
        proof {
            assert(s.subrange(0, i + 1).drop_last() =~= s.subrange(0, i as int));
        }
        if objects[i].id == id {
            proof {
                lemma_find_index_prefix(s, i + 1, id);
            }
            return Some(i);
        }
        i += 1;
    }
    proof {
        assert(s.subrange(0, i as int) =~= s);
    }
    None
}

/// Blends one object toward its state in the next keyframe.
pub fn interpolate_object(from: &AnimObject, to: &AnimObject, t: Fraction) -> (r: AnimObject)
    requires
        t.wf(),
    ensures
        r@ == interpolate_object_spec(from@, to@, t),
{
    AnimObject {
        id: from.id,
        shape: from.shape.duplicate(),
        position: lerp_vec2(from.position, to.position, t),
        rotation: lerp_angle(from.rotation, to.rotation, t),
        scale: lerp_vec2(from.scale, to.scale, t),
        fill: lerp_color(from.fill, to.fill, t),
        stroke: lerp_color(from.stroke, to.stroke, t),
        stroke_width: lerp_scalar(from.stroke_width, to.stroke_width, t),
    }
}

/// Blends every object of `from` with its namesake in `to`.
pub fn interpolate_objects(from: &Vec<AnimObject>, to: &Vec<AnimObject>, t: Fraction) -> (r: Vec<
    AnimObject,
>)
    requires
        t.wf(),
    ensures
        objects_view(r@) == interpolate_objects_spec(objects_view(from@), objects_view(to@), t),
{
    let ghost want = interpolate_objects_spec(objects_view(from@), objects_view(to@), t);
    let mut r: Vec<AnimObject> = Vec::new();
    let mut i: usize = 0;
    while i < from.len()
        invariant
            i <= from@.len(),
            r@.len() == i,
            want == interpolate_objects_spec(objects_view(from@), objects_view(to@), t),
            t.wf(),
            forall|k: int| 0 <= k < i ==> (#[trigger] r@[k])@ == want[k],
        decreases from@.len() - i,
    {
        let o = match find_by_id(to, from[i].id) {
            Some(j) => interpolate_object(&from[i], &to[j], t),
            None => from[i].duplicate(),
        };
        r.push(o);
        i += 1;
    }
    proof {
        assert(objects_view(r@) =~= want);
    }
    r
}

/// The objects of `layer` visible at `frame`, in paint order; `None` before
/// the layer's first keyframe.
pub fn resolve_frame(layer: &Layer, frame: u32) -> (r: Option<Vec<AnimObject>>)
    requires
        layer.wf(),
    ensures
        resolved_view(r) == resolve_spec(layer.table(), frame as int),
{
    let ghost s = layer.table();
    let n = count_at_or_before(&layer.keyframes, frame);
    if n == 0 {
        return None;
    }
    let prev_frame = layer.keyframes[n - 1].0;
    let prev = &layer.keyframes[n - 1].1;
    proof {
        assert(s[n - 1] == (prev_frame, prev@));
        lemma_last_at_or_before(s, frame as int);
    }
    if prev_frame == frame || prev.tween == TweenType::Hold || n >= layer.keyframes.len() {
        return Some(duplicate_objects(&prev.objects));
    }
    let next_frame = layer.keyframes[n].0;
    let next = &layer.keyframes[n].1;
    proof {
        assert(s[n as int] == (next_frame, next@));
        assert(next_frame > frame);
    }
    let t = apply_easing(frame - prev_frame, next_frame - prev_frame, prev.tween);
    Some(interpolate_objects(&prev.objects, &next.objects, t))
}

proof fn lemma_table_insert(s: Seq<(u32, KeyframeView)>, frame: u32, kv: KeyframeView)
    requires
        frames_increasing(s),
    ensures
        frames_increasing(table_insert(s, frame, kv)),
        has_key(table_insert(s, frame, kv), frame as int),
{
    lemma_last_at_or_before(s, frame as int);
    let i = last_at_or_before(s, frame as int);
    let r = table_insert(s, frame, kv);
    if i >= 0 && s[i].0 == frame {
        assert(r[i].0 == frame);
    } else {
        assert(r[i + 1].0 == frame);
        assert forall|a: int, b: int| 0 <= a < b < r.len() implies r[a].0 < r[b].0 by {
            if a <= i && b == i + 1 {
                if a < i {
                    assert(s[a].0 < s[i].0);
                }
            }
        }
    }
}

impl Layer {
    /// Stores `keyframe` at `frame`, replacing the keyframe already there.
    pub fn insert_keyframe(&mut self, frame: u32, keyframe: Keyframe)
        requires
            old(self).wf(),
        ensures
            final(self).wf(),
            final(self).table() == table_insert(old(self).table(), frame, keyframe@),
            final(self).id == old(self).id,
            final(self).name == old(self).name,
            final(self).visible == old(self).visible,
            final(self).locked == old(self).locked,
            final(self).opacity == old(self).opacity,
    {
        let ghost s = self.table();
        let ghost kv = keyframe@;
        proof {
            lemma_table_insert(s, frame, kv);
        }
        let n = count_at_or_before(&self.keyframes, frame);
        if n > 0 && self.keyframes[n - 1].0 == frame {
            self.keyframes.set(n - 1, (frame, keyframe));
            proof {
                assert(self.table() =~= s.update(n - 1, (frame, kv)));
            }
        } else {
            self.keyframes.insert(n, (frame, keyframe));
            proof {
                assert(self.table() =~= s.insert(n as int, (frame, kv)));
            }
        }
    }
}

/// Makes sure `layer` has a keyframe at `frame`, storing there what was
/// visible at that frame if it had none.
pub fn ensure_keyframe_at(layer: &mut Layer, frame: u32)
    requires
        old(layer).wf(),
    ensures
        final(layer).wf(),
        final(layer).table() == with_keyframe_at(old(layer).table(), frame),
        has_key(old(layer).table(), frame as int) ==> *final(layer) == *old(layer),
        final(layer).id == old(layer).id,
        final(layer).name == old(layer).name,
        final(layer).visible == old(layer).visible,
        final(layer).locked == old(layer).locked,
        final(layer).opacity == old(layer).opacity,
{
    let ghost s = layer.table();
    let n = count_at_or_before(&layer.keyframes, frame);
    proof {
        lemma_key_found(s, frame as int);
        if n > 0 {
            assert(s[n - 1].0 == layer.keyframes@[n - 1].0);
        }
    }
    if n > 0 && layer.keyframes[n - 1].0 == frame {
        return;
    }
    let objects = match resolve_frame(layer, frame) {
        Some(objects) => objects,
        None => Vec::new(),
    };
    proof {
        assert(objects_view(Seq::<AnimObject>::empty()) =~= Seq::<ObjectView>::empty());
    }
    layer.insert_keyframe(frame, Keyframe { objects, tween: TweenType::Hold });
}

/// `v` lies on the closed segment between `a` and `b`.
pub open spec fn between(v: int, a: int, b: int) -> bool {
    (a <= v <= b) || (b <= v <= a)
}

pub open spec fn vec2_between(v: Vec2, a: Vec2, b: Vec2) -> bool {
    between(v.x as int, a.x as int, b.x as int) && between(v.y as int, a.y as int, b.y as int)
}

pub open spec fn color_between(v: Color, a: Color, b: Color) -> bool {
    &&& between(v.r as int, a.r as int, b.r as int)
    &&& between(v.g as int, a.g as int, b.g as int)
    &&& between(v.b as int, a.b as int, b.b as int)
    &&& between(v.a as int, a.a as int, b.a as int)
}

/// At a frame that holds a key, a layer resolves to exactly that keyframe's
/// objects.
pub proof fn lemma_exact_key(layer: Layer, i: int, frame: u32)
    requires
        layer.wf(),
        0 <= i < layer.table().len(),
        layer.table()[i].0 == frame,
    ensures
        resolve_spec(layer.table(), frame as int) == Some(layer.table()[i].1.objects),
{
    let s = layer.table();
    assert forall|j: int| i < j < s.len() implies #[trigger] s[j].0 > frame by {
        assert(s[i].0 < s[j].0);
    }
    lemma_last_at_or_before_is(s, frame as int, i);
}

/// A keyframe holds its objects unchanged from its own frame on, up to the
/// next key, when its tween is a hold; when no later key exists it holds for
/// every later frame.
pub proof fn lemma_hold(layer: Layer, i: int, frame: u32)
    requires
        layer.wf(),
        0 <= i < layer.table().len(),
        layer.table()[i].0 <= frame,
        i + 1 == layer.table().len() || frame < layer.table()[i + 1].0,
        layer.table()[i].1.tween == TweenType::Hold || i + 1 == layer.table().len(),
    ensures
        resolve_spec(layer.table(), frame as int) == Some(layer.table()[i].1.objects),
{
    let s = layer.table();
    assert forall|j: int| i < j < s.len() implies #[trigger] s[j].0 > frame by {
        if j > i + 1 {
            assert(s[i + 1].0 < s[j].0);
        }
    }
    lemma_last_at_or_before_is(s, frame as int, i);
}

/// Strictly between two keys, every blended position, scale, color and
/// stroke width lies between its values at the two keys (at the keys
/// themselves the exact-key law gives the keyed values).
pub proof fn lemma_interpolation_bounds(layer: Layer, i: int, frame: u32, k: int)
    requires
        layer.wf(),
        0 <= i,
        i + 1 < layer.table().len(),
        layer.table()[i].0 < frame < layer.table()[i + 1].0,
        0 <= k < layer.table()[i].1.objects.len(),
        find_index(
            layer.table()[i + 1].1.objects,
            layer.table()[i].1.objects[k].id,
        ) >= 0,
    ensures
        ({
            let from = layer.table()[i].1.objects[k];
            let to = layer.table()[i + 1].1.objects[find_index(
                layer.table()[i + 1].1.objects,
                from.id,
            )];
            let r = resolve_spec(layer.table(), frame as int);
            &&& r is Some
            &&& r->0.len() == layer.table()[i].1.objects.len()
            &&& r->0[k].id == from.id
            &&& vec2_between(r->0[k].position, from.position, to.position)
            &&& vec2_between(r->0[k].scale, from.scale, to.scale)
            &&& color_between(r->0[k].fill, from.fill, to.fill)
            &&& color_between(r->0[k].stroke, from.stroke, to.stroke)
            &&& between(r->0[k].stroke_width as int, from.stroke_width as int, to.stroke_width as int)
        }),
{
    let s = layer.table();
    assert forall|j: int| i < j < s.len() implies #[trigger] s[j].0 > frame by {
        if j > i + 1 {
            assert(s[i + 1].0 < s[j].0);
        }
    }
    lemma_last_at_or_before_is(s, frame as int, i);
    let from = s[i].1.objects[k];
    let to = s[i + 1].1.objects[find_index(s[i + 1].1.objects, from.id)];
    if s[i].1.tween != TweenType::Hold {
        let kk = frame - s[i].0;
        let d = s[i + 1].0 - s[i].0;
        lemma_eased_in_unit(s[i].1.tween, kk, d);
        assert(0 < d * d <= 0xffff_ffff_ffff_ffff) by (nonlinear_arith)
            requires 0 < d <= 0xffff_ffff;
        let t = eased(s[i].1.tween, kk, d);
        assert(t.wf());
        lemma_lerp_between(from.position.x as int, to.position.x as int, t);
        lemma_lerp_between(from.position.y as int, to.position.y as int, t);
        lemma_lerp_between(from.scale.x as int, to.scale.x as int, t);
        lemma_lerp_between(from.scale.y as int, to.scale.y as int, t);
        lemma_lerp_between(from.fill.r as int, to.fill.r as int, t);
        lemma_lerp_between(from.fill.g as int, to.fill.g as int, t);
        lemma_lerp_between(from.fill.b as int, to.fill.b as int, t);
        lemma_lerp_between(from.fill.a as int, to.fill.a as int, t);
        lemma_lerp_between(from.stroke.r as int, to.stroke.r as int, t);
        lemma_lerp_between(from.stroke.g as int, to.stroke.g as int, t);
        lemma_lerp_between(from.stroke.b as int, to.stroke.b as int, t);
        lemma_lerp_between(from.stroke.a as int, to.stroke.a as int, t);
        lemma_lerp_between(from.stroke_width as int, to.stroke_width as int, t);
    }
}

/// Making sure of a keyframe at a frame leaves a key there, so doing it a
/// second time changes nothing.
pub proof fn lemma_ensure_keyframe_idempotent(layer: Layer, frame: u32)
    requires
        layer.wf(),
    ensures
        has_key(with_keyframe_at(layer.table(), frame), frame as int),
        frames_increasing(with_keyframe_at(layer.table(), frame)),
        with_keyframe_at(with_keyframe_at(layer.table(), frame), frame) == with_keyframe_at(
            layer.table(),
            frame,
        ),
{
    let s = layer.table();
    if !has_key(s, frame as int) {
        let objects = match resolve_spec(s, frame as int) {
            Some(o) => o,
            None => Seq::empty(),
        };
        lemma_table_insert(s, frame, KeyframeView { objects, tween: TweenType::Hold });
    }
}

} // verus!
