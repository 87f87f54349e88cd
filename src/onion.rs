//! Onion skinning: which neighbouring frames are shown as ghosts around the
//! current one, and how their objects are tinted.
use vstd::prelude::*;
use crate::geometry::trunc_div_spec;
use crate::model::{AnimObject, Color, ObjectView};
use crate::raster::trunc_div_milli;

verus! {

/// Ghosts of up to `frames_before` earlier and `frames_after` later frames.
#[derive(Clone, Copy, Debug, PartialEq, Eq, Structural)]
pub struct OnionSkinning {
    pub enabled: bool,
    pub frames_before: u32,
    pub frames_after: u32,
}

impl Default for OnionSkinning {
    /// Off, with two frames either side.
    fn default() -> (r: OnionSkinning)
        ensures
            !r.enabled,
            r.frames_before == 2,
            r.frames_after == 2,
    {
        OnionSkinning { enabled: false, frames_before: 2, frames_after: 2 }
    }
}

/// The ghost alpha `offset` frames away: three tenths over the offset.
pub open spec fn ghost_alpha(offset: int) -> i32 {
    (300int / offset) as i32
}

/// The tint of the ghost `offset` frames before the current one: reddish.
pub open spec fn tint_before(offset: int) -> Color {
    Color { r: 1000, g: 300, b: 300, a: ghost_alpha(offset) }
}

/// The tint of the ghost `offset` frames after the current one: greenish.
pub open spec fn tint_after(offset: int) -> Color {
    Color { r: 300, g: 1000, b: 300, a: ghost_alpha(offset) }
}

/// Ghosts of the frames 1 to `n` before `current` that exist, nearest first.
pub open spec fn ghosts_before(current: int, n: int) -> Seq<(u32, Color)>
    decreases n,
{
    if n <= 0 {
        Seq::empty()
    } else {
        let s = ghosts_before(current, n - 1);
        if n <= current {
            s.push(((current - n) as u32, tint_before(n)))
        } else {
            s
        }
    }
}

/// Ghosts of the frames 1 to `n` after `current` that lie before `total`,
/// nearest first.
pub open spec fn ghosts_after(current: int, n: int, total: int) -> Seq<(u32, Color)>
    decreases n,
{
    if n <= 0 {
        Seq::empty()
    } else {
        let s = ghosts_after(current, n - 1, total);
        if current + n < total {
            s.push(((current + n) as u32, tint_after(n)))
        } else {
            s
        }
    }
}

/// The ghost frames around `current`, with their tints: none when onion
/// skinning is off; else earlier frames, then later ones.
pub open spec fn ghosts_spec(onion: OnionSkinning, current: int, total: int) -> Seq<(u32, Color)> {
    if !onion.enabled {
        Seq::empty()
    } else {
        ghosts_before(current, onion.frames_before as int) + ghosts_after(
            current,
            onion.frames_after as int,
            total,
        )
    }
}

/// The frames to show as ghosts around `current`, each with its tint.
pub fn ghost_frames(onion: &OnionSkinning, current: u32, total_frames: u32) -> (r: Vec<(u32, Color)>)
    ensures
        r@ == ghosts_spec(*onion, current as int, total_frames as int),
{
    let mut r: Vec<(u32, Color)> = Vec::new();
    if !onion.enabled {
        proof {
            assert(r@ =~= Seq::<(u32, Color)>::empty());
        }
        return r;
    }
    let mut offset: u64 = 1;
    while offset <= onion.frames_before as u64
        invariant
            1 <= offset <= onion.frames_before as u64 + 1,
            r@ == ghosts_before(current as int, offset - 1),
        decreases onion.frames_before as u64 + 1 - offset,
    {
        if offset <= current as u64 {
            let alpha = (300 / offset) as i32;
            r.push(((current as u64 - offset) as u32, Color { r: 1000, g: 300, b: 300, a: alpha }));
        }
        offset += 1;
    }
    let ghost before = r@;
    let mut offset: u64 = 1;
    proof {
        assert(r@ =~= before + ghosts_after(current as int, 0, total_frames as int));
    }
    while offset <= onion.frames_after as u64
        invariant
            1 <= offset <= onion.frames_after as u64 + 1,
            r@ == before + ghosts_after(current as int, offset - 1, total_frames as int),
        decreases onion.frames_after as u64 + 1 - offset,
    {
        if (current as u64 + offset) < total_frames as u64 {
            let alpha = (300 / offset) as i32;
            r.push(((current as u64 + offset) as u32, Color { r: 300, g: 1000, b: 300, a: alpha }));
            proof {
                assert(r@ =~= before + ghosts_after(current as int, offset as int, total_frames as int));
            }
        }
        offset += 1;
    }
    r
}

/// `c` tinted: each color channel scaled by the tint's, the alpha replaced by
/// the tint's.
pub open spec fn tinted(c: Color, tint: Color) -> Color {
    Color {
        r: trunc_div_spec(tint.r * c.r, 1000) as i32,
        g: trunc_div_spec(tint.g * c.g, 1000) as i32,
        b: trunc_div_spec(tint.b * c.b, 1000) as i32,
        a: tint.a,
    }
}

/// Scaling by at most one keeps a value between zero and itself.
proof fn lemma_scale_down(t: int, c: int)
    requires
        0 <= t <= 1000,
    ensures
        c >= 0 ==> 0 <= trunc_div_spec(t * c, 1000) <= c,
        c < 0 ==> c <= trunc_div_spec(t * c, 1000) <= 0,
{
    let m = if c >= 0 { c } else { -c };
    assert(0 <= t * m <= 1000 * m) by (nonlinear_arith)
        requires 0 <= t <= 1000, 0 <= m;
    vstd::arithmetic::div_mod::lemma_div_is_ordered(0, t * m, 1000);
    vstd::arithmetic::div_mod::lemma_div_is_ordered(t * m, 1000 * m, 1000);
    vstd::arithmetic::div_mod::lemma_div_multiples_vanish(m, 1000);
    if c < 0 {
        assert(t * c == -(t * m)) by (nonlinear_arith)
            requires m == -c;
    }
}

fn tint_color(c: Color, tint: Color) -> (r: Color)
    requires
        0 <= tint.r <= 1000,
        0 <= tint.g <= 1000,
        0 <= tint.b <= 1000,
    ensures
        r == tinted(c, tint),
{
    proof {
        crate::raster::lemma_mul_bound(tint.r as int, c.r as int, 1000, 0x8000_0000);
        crate::raster::lemma_mul_bound(tint.g as int, c.g as int, 1000, 0x8000_0000);
        crate::raster::lemma_mul_bound(tint.b as int, c.b as int, 1000, 0x8000_0000);
        lemma_scale_down(tint.r as int, c.r as int);
        lemma_scale_down(tint.g as int, c.g as int);
        lemma_scale_down(tint.b as int, c.b as int);
    }
    let r = trunc_div_milli(tint.r as i64 * c.r as i64);
    let g = trunc_div_milli(tint.g as i64 * c.g as i64);
    let b = trunc_div_milli(tint.b as i64 * c.b as i64);
    Color { r: r as i32, g: g as i32, b: b as i32, a: tint.a }
}

/// A copy of `object` with its fill and stroke tinted for a ghost.
pub fn tint_object(object: &AnimObject, tint: Color) -> (r: AnimObject)
    requires
        0 <= tint.r <= 1000,
        0 <= tint.g <= 1000,
        0 <= tint.b <= 1000,
    ensures
        r@ == (ObjectView { fill: tinted(object.fill, tint), stroke: tinted(object.stroke, tint), ..object@ }),
{
    let mut r = object.duplicate();
    r.fill = tint_color(object.fill, tint);
    r.stroke = tint_color(object.stroke, tint);
    r
}

} // verus!
