use animate::onion::{ghost_frames, tint_object, OnionSkinning};
use animate::selection::{hit_test, move_selected_objects, point_in_object};
use animate::{
    resolve_frame, AnimObject, Color, Keyframe, Layer, PathPoint, Project, Shape, TweenType, Vec2,
};

fn color(r: i32, g: i32, b: i32, a: i32) -> Color {
    Color { r, g, b, a }
}

fn object(id: u128, shape: Shape, x: i32, y: i32) -> AnimObject {
    AnimObject {
        id,
        shape,
        position: Vec2 { x, y },
        rotation: 0,
        scale: Vec2 { x: 1000, y: 1000 },
        fill: color(200, 500, 800, 1000),
        stroke: color(0, 0, 0, 1000),
        stroke_width: 1000,
    }
}

fn square(id: u128, x: i32, y: i32) -> AnimObject {
    object(id, Shape::Rectangle { width: 20_000, height: 20_000, corner_radius: 0 }, x, y)
}

fn at(x: i32, y: i32) -> Vec2 {
    Vec2 { x, y }
}

fn project_of(layers: Vec<Layer>) -> Project {
    Project {
        name: "Pick".to_string(),
        canvas_width: 100,
        canvas_height: 100,
        background_color: color(1000, 1000, 1000, 1000),
        frame_rate: 24,
        total_frames: 20,
        layers,
    }
}

fn layer_with(objects: Vec<AnimObject>) -> Layer {
    let mut layer = Layer::new("L".to_string());
    layer.insert_keyframe(0, Keyframe { objects, tween: TweenType::Hold });
    layer
}

#[test]
fn rectangle_picking() {
    let mut s = square(1, 50_000, 50_000);
    assert!(point_in_object(at(50_000, 50_000), &s));
    assert!(point_in_object(at(60_000, 40_000), &s));
    assert!(!point_in_object(at(60_001, 50_000), &s));
    s.rotation = 45_000;
    assert!(point_in_object(at(63_000, 50_000), &s));
    assert!(!point_in_object(at(59_500, 59_500), &s));
}

#[test]
fn ellipse_picking() {
    let e = object(2, Shape::Ellipse { radius_x: 10_000, radius_y: 5_000 }, 0, 0);
    assert!(point_in_object(at(9_000, 0), &e));
    assert!(!point_in_object(at(0, 6_000), &e));
    let tiny = object(3, Shape::Ellipse { radius_x: 0, radius_y: 5_000 }, 0, 0);
    assert!(!point_in_object(at(0, 0), &tiny));
}

#[test]
fn line_picking_within_five_units() {
    let mut l = object(4, Shape::Line { end_x: 30_000, end_y: 0 }, 10_000, 10_000);
    assert!(point_in_object(at(25_000, 15_000), &l));
    assert!(!point_in_object(at(25_000, 15_001), &l));
    assert!(point_in_object(at(44_000, 13_000), &l));
    l.rotation = 90_000;
    assert!(point_in_object(at(10_000, 35_000), &l));
    assert!(!point_in_object(at(35_000, 10_000), &l));
}

#[test]
fn path_picking_near_vertices_and_segments() {
    let point = |x: i32, y: i32| PathPoint { position: Vec2 { x, y }, control_in: None,
        control_out: None };
    let p = object(5, Shape::Path { points: vec![point(0, 0), point(40_000, 0)], closed: false },
        0, 0);
    assert!(point_in_object(at(7_000, 7_000), &p));
    assert!(point_in_object(at(20_000, 7_900), &p));
    assert!(!point_in_object(at(22_000, 8_100), &p));
    assert!(!point_in_object(at(-9_000, 0), &p));
    let empty = object(6, Shape::Path { points: vec![], closed: false }, 0, 0);
    assert!(!point_in_object(at(0, 0), &empty));
}

#[test]
fn hit_test_prefers_the_top_layer_and_the_last_object() {
    let top = layer_with(vec![square(1, 50_000, 50_000)]);
    let bottom = layer_with(vec![square(2, 55_000, 50_000), square(3, 58_000, 50_000)]);
    let mut project = project_of(vec![top, bottom]);
    assert_eq!(hit_test(&project, 0, at(50_000, 50_000)), Some(1));
    assert_eq!(hit_test(&project, 0, at(64_000, 50_000)), Some(3));
    assert_eq!(hit_test(&project, 0, at(90_000, 90_000)), None);
    project.layers[0].locked = true;
    assert_eq!(hit_test(&project, 0, at(50_000, 50_000)), Some(3));
    project.layers[1].visible = false;
    assert_eq!(hit_test(&project, 0, at(50_000, 50_000)), None);
}

#[test]
fn moving_between_keys_inserts_a_keyframe() {
    let mut layer = Layer::new("Moving".to_string());
    layer.insert_keyframe(0, Keyframe { objects: vec![square(7, 0, 0)], tween: TweenType::EaseIn });
    layer.insert_keyframe(10, Keyframe { objects: vec![square(7, 100_000, 0)],
        tween: TweenType::Hold });
    let other = layer_with(vec![square(8, 0, 0)]);
    let mut project = project_of(vec![layer, other]);
    move_selected_objects(&mut project, 5, 0, &vec![7], Vec2 { x: 1_000, y: -2_000 });
    let moved = &project.layers[0];
    assert_eq!(moved.keyframes.len(), 3);
    assert_eq!(moved.keyframes[1].0, 5);
    assert_eq!(moved.keyframes[1].1.objects[0].position, Vec2 { x: 26_000, y: -2_000 });
    assert_eq!(resolve_frame(moved, 5).unwrap()[0].position, Vec2 { x: 26_000, y: -2_000 });
    assert_eq!(moved.keyframes[0].1.objects[0].position, Vec2 { x: 0, y: 0 });
    assert_eq!(project.layers[1].keyframes.len(), 1);
    assert_eq!(project.layers[1].keyframes[0].1.objects[0].position, Vec2 { x: 0, y: 0 });
}

#[test]
fn moving_on_a_key_and_out_of_range_layer() {
    let mut project = project_of(vec![layer_with(vec![square(1, 0, 0), square(2, 0, 0)])]);
    move_selected_objects(&mut project, 0, 0, &vec![2], Vec2 { x: 5, y: 6 });
    let objects = &project.layers[0].keyframes[0].1.objects;
    assert_eq!(objects[0].position, Vec2 { x: 0, y: 0 });
    assert_eq!(objects[1].position, Vec2 { x: 5, y: 6 });
    let before = format!("{:?}", project);
    move_selected_objects(&mut project, 0, 3, &vec![1, 2], Vec2 { x: 5, y: 6 });
    assert_eq!(format!("{:?}", project), before);
    move_selected_objects(&mut project, 0, 0, &vec![2], Vec2 { x: i32::MAX, y: 0 });
    assert_eq!(project.layers[0].keyframes[0].1.objects[1].position.x, i32::MAX);
}

#[test]
fn onion_ghost_frames() {
    let mut onion = OnionSkinning::default();
    assert!(!onion.enabled);
    assert!(ghost_frames(&onion, 5, 20).is_empty());
    onion.enabled = true;
    assert_eq!(
        ghost_frames(&onion, 1, 3),
        vec![(0, color(1000, 300, 300, 300)), (2, color(300, 1000, 300, 300))]
    );
    assert_eq!(
        ghost_frames(&onion, 5, 20),
        vec![
            (4, color(1000, 300, 300, 300)),
            (3, color(1000, 300, 300, 150)),
            (6, color(300, 1000, 300, 300)),
            (7, color(300, 1000, 300, 150)),
        ]
    );
}

#[test]
fn onion_tint() {
    let o = square(1, 0, 0);
    let t = tint_object(&o, color(1000, 300, 300, 150));
    assert_eq!(t.fill, color(200, 150, 240, 150));
    assert_eq!(t.stroke, color(0, 0, 0, 150));
    assert_eq!(t.position, o.position);
    assert_eq!(t.id, o.id);
}

use animate::selection::{get_object_bounds, ObjectBounds};

fn bounds(half_width: i64, half_height: i64, center_x: i64, center_y: i64) -> ObjectBounds {
    ObjectBounds { half_width, half_height, center_x, center_y }
}

#[test]
fn selection_bounds_of_each_shape() {
    let rect = object(1, Shape::Rectangle { width: 20_000, height: 10_000, corner_radius: 0 }, 0, 0);
    assert_eq!(get_object_bounds(&rect), bounds(10_000, 5_000, 0, 0));
    let mut ellipse = object(2, Shape::Ellipse { radius_x: 3_000, radius_y: 1_000 }, 0, 0);
    ellipse.scale = Vec2 { x: 2_000, y: 1_000 };
    assert_eq!(get_object_bounds(&ellipse), bounds(6_000, 1_000, 0, 0));
    let line = object(3, Shape::Line { end_x: -20_000, end_y: 4_000 }, 0, 0);
    assert_eq!(get_object_bounds(&line), bounds(10_000, 5_000, -10_000, 2_000));
    let point = |x: i32, y: i32| PathPoint { position: Vec2 { x, y }, control_in: None,
        control_out: None };
    let path = object(4, Shape::Path {
        points: vec![point(0, 0), point(30_000, -4_000), point(10_000, 2_000)],
        closed: false,
    }, 0, 0);
    assert_eq!(get_object_bounds(&path), bounds(15_000, 5_000, 15_000, -1_000));
    let empty = object(5, Shape::Path { points: vec![], closed: true }, 0, 0);
    assert_eq!(get_object_bounds(&empty), bounds(10_000, 10_000, 0, 0));
}
