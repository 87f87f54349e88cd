use animate::easing::{lerp_scalar, wrap_angle};
use animate::timeline::interpolate_objects;
use animate::{
    apply_easing, ensure_keyframe_at, lerp_angle, resolve_frame, AnimObject, Color, Fraction,
    Keyframe, Layer, Shape, TweenType, Vec2,
};

fn color(r: i32, g: i32, b: i32, a: i32) -> Color {
    Color { r, g, b, a }
}

fn object_at(id: u128, x: i32, y: i32) -> AnimObject {
    AnimObject {
        id,
        shape: Shape::Ellipse { radius_x: 10_000, radius_y: 10_000 },
        position: Vec2 { x, y },
        rotation: 0,
        scale: Vec2 { x: 1000, y: 1000 },
        fill: color(200, 500, 800, 1000),
        stroke: color(0, 0, 0, 1000),
        stroke_width: 2000,
    }
}

fn keyframe(objects: Vec<AnimObject>, tween: TweenType) -> Keyframe {
    Keyframe { objects, tween }
}

fn two_key_layer(tween: TweenType) -> Layer {
    let mut layer = Layer::new("Layer".to_string());
    layer.insert_keyframe(0, keyframe(vec![object_at(7, 0, 0)], tween));
    layer.insert_keyframe(10, keyframe(vec![object_at(7, 100_000, 0)], TweenType::Hold));
    layer
}

#[test]
fn ease_in_midpoint_is_a_quarter_of_the_way() {
    let layer = two_key_layer(TweenType::EaseIn);
    let objects = resolve_frame(&layer, 5).unwrap();
    assert_eq!(objects.len(), 1);
    assert_eq!(objects[0].position, Vec2 { x: 25_000, y: 0 });
    assert_eq!(objects[0].id, 7);
}

#[test]
fn exact_key_returns_the_keyframe_objects() {
    for tween in [TweenType::Linear, TweenType::EaseIn, TweenType::EaseOut, TweenType::EaseInOut] {
        let layer = two_key_layer(tween);
        let at_start = resolve_frame(&layer, 0).unwrap();
        let at_end = resolve_frame(&layer, 10).unwrap();
        assert_eq!(format!("{:?}", at_start), format!("{:?}", layer.keyframes[0].1.objects));
        assert_eq!(format!("{:?}", at_end), format!("{:?}", layer.keyframes[1].1.objects));
    }
}

#[test]
fn hold_tween_keeps_the_key_until_the_next() {
    let layer = two_key_layer(TweenType::Hold);
    for frame in 0..10 {
        let objects = resolve_frame(&layer, frame).unwrap();
        assert_eq!(objects[0].position, Vec2 { x: 0, y: 0 });
    }
    assert_eq!(resolve_frame(&layer, 10).unwrap()[0].position.x, 100_000);
}

#[test]
fn last_key_holds_past_the_end() {
    let layer = two_key_layer(TweenType::Linear);
    for frame in [10u32, 11, 50, 119] {
        let objects = resolve_frame(&layer, frame).unwrap();
        assert_eq!(objects[0].position, Vec2 { x: 100_000, y: 0 });
    }
}

#[test]
fn nothing_before_the_first_key() {
    let mut layer = Layer::new("Late".to_string());
    layer.insert_keyframe(4, keyframe(vec![object_at(1, 0, 0)], TweenType::Linear));
    assert!(resolve_frame(&layer, 3).is_none());
    assert!(resolve_frame(&layer, 4).is_some());
    assert!(resolve_frame(&Layer::new("Empty".to_string()), 0).is_none());
}

#[test]
fn interpolation_stays_between_the_keys() {
    for tween in [TweenType::Linear, TweenType::EaseIn, TweenType::EaseOut, TweenType::EaseInOut] {
        let layer = two_key_layer(tween);
        let mut last = 0;
        for frame in 0..=10 {
            let x = resolve_frame(&layer, frame).unwrap()[0].position.x;
            assert!((0..=100_000).contains(&x));
            assert!(x >= last);
            last = x;
        }
        assert_eq!(resolve_frame(&layer, 0).unwrap()[0].position.x, 0);
        assert_eq!(resolve_frame(&layer, 10).unwrap()[0].position.x, 100_000);
    }
}

#[test]
fn easing_curves_exact_values() {
    assert_eq!(apply_easing(3, 10, TweenType::Linear), Fraction { num: 30, den: 100 });
    assert_eq!(apply_easing(3, 10, TweenType::Hold), Fraction { num: 30, den: 100 });
    assert_eq!(apply_easing(5, 10, TweenType::EaseIn), Fraction { num: 25, den: 100 });
    assert_eq!(apply_easing(5, 10, TweenType::EaseOut), Fraction { num: 75, den: 100 });
    assert_eq!(apply_easing(2, 10, TweenType::EaseInOut), Fraction { num: 8, den: 100 });
    assert_eq!(apply_easing(5, 10, TweenType::EaseInOut), Fraction { num: 50, den: 100 });
    assert_eq!(apply_easing(8, 10, TweenType::EaseInOut), Fraction { num: 92, den: 100 });
    assert_eq!(apply_easing(0, 7, TweenType::EaseOut), Fraction { num: 0, den: 49 });
    assert_eq!(apply_easing(7, 7, TweenType::EaseIn), Fraction { num: 49, den: 49 });
}

#[test]
fn scalar_interpolation_rounds_toward_the_start() {
    let third = Fraction { num: 1, den: 3 };
    assert_eq!(lerp_scalar(0, 100, third), 33);
    assert_eq!(lerp_scalar(100, 0, third), 67);
    assert_eq!(lerp_scalar(-50, 50, Fraction { num: 1, den: 2 }), 0);
    assert_eq!(lerp_scalar(i32::MIN, i32::MAX, Fraction { num: 1, den: 1 }), i32::MAX);
}

#[test]
fn angle_takes_the_short_way_round() {
    let half = Fraction { num: 1, den: 2 };
    assert_eq!(lerp_angle(350_000, 10_000, half), 0);
    assert_eq!(lerp_angle(10_000, 350_000, half), 0);
    assert_eq!(lerp_angle(0, 90_000, half), 45_000);
    assert_eq!(lerp_angle(170_000, -170_000, half), 180_000);
}

#[test]
fn wrapping_angles() {
    assert_eq!(wrap_angle(-340_000), 20_000);
    assert_eq!(wrap_angle(180_000), 180_000);
    assert_eq!(wrap_angle(-180_000), 180_000);
    assert_eq!(wrap_angle(360_000), 0);
    assert_eq!(wrap_angle(725_000), 5_000);
}

#[test]
fn unmatched_objects_are_carried_over() {
    let from = vec![object_at(1, 0, 0), object_at(2, 0, 0)];
    let to = vec![object_at(2, 10_000, 20_000), object_at(3, 90_000, 0)];
    let r = interpolate_objects(&from, &to, Fraction { num: 1, den: 2 });
    assert_eq!(r.len(), 2);
    assert_eq!(r[0].id, 1);
    assert_eq!(r[0].position, Vec2 { x: 0, y: 0 });
    assert_eq!(r[1].id, 2);
    assert_eq!(r[1].position, Vec2 { x: 5_000, y: 10_000 });
}

#[test]
fn colors_and_stroke_width_interpolate() {
    let mut layer = Layer::new("Colors".to_string());
    let mut a = object_at(9, 0, 0);
    a.fill = color(0, 0, 0, 1000);
    a.stroke_width = 0;
    let mut b = object_at(9, 0, 0);
    b.fill = color(1000, 500, 0, 0);
    b.stroke_width = 4000;
    b.scale = Vec2 { x: 3000, y: 1000 };
    layer.insert_keyframe(0, keyframe(vec![a], TweenType::Linear));
    layer.insert_keyframe(4, keyframe(vec![b], TweenType::Hold));
    let r = &resolve_frame(&layer, 1).unwrap()[0];
    assert_eq!(r.fill, color(250, 125, 0, 750));
    assert_eq!(r.stroke_width, 1000);
    assert_eq!(r.scale, Vec2 { x: 1500, y: 1000 });
}

#[test]
fn ensure_keyframe_is_idempotent() {
    let mut layer = two_key_layer(TweenType::EaseIn);
    ensure_keyframe_at(&mut layer, 5);
    let once = format!("{:?}", layer);
    ensure_keyframe_at(&mut layer, 5);
    assert_eq!(format!("{:?}", layer), once);
    assert_eq!(layer.keyframes.len(), 3);
    assert_eq!(layer.keyframes[1].0, 5);
    assert_eq!(layer.keyframes[1].1.tween, TweenType::Hold);
    assert_eq!(layer.keyframes[1].1.objects[0].position, Vec2 { x: 25_000, y: 0 });
}

#[test]
fn ensure_keyframe_keeps_an_existing_key() {
    let mut layer = two_key_layer(TweenType::Linear);
    let before = format!("{:?}", layer);
    ensure_keyframe_at(&mut layer, 10);
    assert_eq!(format!("{:?}", layer), before);
}

#[test]
fn ensure_keyframe_before_any_key_is_empty() {
    let mut layer = Layer::new("Late".to_string());
    layer.insert_keyframe(4, keyframe(vec![object_at(1, 0, 0)], TweenType::Linear));
    ensure_keyframe_at(&mut layer, 2);
    assert_eq!(layer.keyframes.len(), 2);
    assert_eq!(layer.keyframes[0].0, 2);
    assert!(layer.keyframes[0].1.objects.is_empty());
    assert_eq!(layer.keyframes[1].0, 4);
}

#[test]
fn insert_keyframe_orders_and_replaces() {
    let mut layer = Layer::new("Order".to_string());
    layer.insert_keyframe(8, keyframe(vec![], TweenType::Hold));
    layer.insert_keyframe(2, keyframe(vec![], TweenType::Hold));
    layer.insert_keyframe(5, keyframe(vec![], TweenType::Hold));
    layer.insert_keyframe(5, keyframe(vec![object_at(3, 0, 0)], TweenType::EaseOut));
    let frames: Vec<u32> = layer.keyframes.iter().map(|e| e.0).collect();
    assert_eq!(frames, vec![2, 5, 8]);
    assert_eq!(layer.keyframes[1].1.tween, TweenType::EaseOut);
    assert_eq!(layer.keyframes[1].1.objects.len(), 1);
}

#[test]
fn new_items_have_fresh_identities() {
    let a = Layer::new("A".to_string());
    let b = Layer::new("B".to_string());
    assert_ne!(a.id, b.id);
    assert!(a.visible && !a.locked);
    assert_eq!(a.opacity, 1000);
    let shape = Shape::Line { end_x: 1000, end_y: 0 };
    let o = AnimObject::new(shape, Vec2 { x: 1, y: 2 }, color(1, 2, 3, 4), color(5, 6, 7, 8), 9);
    let p = AnimObject::new(Shape::Path { points: vec![], closed: false }, Vec2 { x: 0, y: 0 },
        color(0, 0, 0, 0), color(0, 0, 0, 0), 0);
    assert_ne!(o.id, p.id);
    assert_eq!(o.scale, Vec2 { x: 1000, y: 1000 });
    assert_eq!(o.rotation, 0);
}
