use animate::{cubic_bezier, path_outline, AnimObject, Color, PathPoint, Shape, Vec2};

fn v(x: i32, y: i32) -> Vec2 {
    Vec2 { x, y }
}

fn vertex(x: i32, y: i32, control_in: Option<Vec2>, control_out: Option<Vec2>) -> PathPoint {
    PathPoint { position: v(x, y), control_in, control_out }
}

fn path_object(points: Vec<PathPoint>, closed: bool) -> AnimObject {
    AnimObject {
        id: 1,
        shape: Shape::Path { points, closed },
        position: v(1_000, 2_000),
        rotation: 0,
        scale: v(2_000, 1_000),
        fill: Color { r: 0, g: 0, b: 0, a: 1000 },
        stroke: Color { r: 0, g: 0, b: 0, a: 1000 },
        stroke_width: 1000,
    }
}

#[test]
fn bezier_exact_values() {
    assert_eq!(cubic_bezier(v(0, 0), v(0, 0), v(1000, 1000), v(1000, 1000), 8, 16), v(500, 500));
    assert_eq!(cubic_bezier(v(0, 0), v(100, 0), v(200, 0), v(300, 0), 1, 3), v(100, 0));
    assert_eq!(cubic_bezier(v(7, 8), v(100, 0), v(200, 0), v(300, 9), 0, 16), v(7, 8));
    assert_eq!(cubic_bezier(v(7, 8), v(100, 0), v(200, 0), v(300, 9), 16, 16), v(300, 9));
    assert_eq!(cubic_bezier(v(-1, 0), v(0, 0), v(0, 0), v(0, 0), 8, 16), v(-1, 0));
}

#[test]
fn straight_path_outline() {
    let o = path_object(vec![vertex(0, 0, None, None), vertex(10_000, 0, None, None)], false);
    assert_eq!(path_outline(&o), vec![(1_000, 2_000), (21_000, 2_000)]);
}

#[test]
fn curved_segment_is_sampled() {
    let o = path_object(
        vec![vertex(0, 0, None, Some(v(0, 8_000))), vertex(10_000, 0, None, None)],
        false,
    );
    let outline = path_outline(&o);
    assert_eq!(outline.len(), 17);
    assert_eq!(outline[0], (1_000, 2_000));
    assert_eq!(outline[16], (21_000, 2_000));
    assert!(outline[8].1 > 2_000);
}

#[test]
fn closed_path_adds_the_curve_back() {
    let points = vec![
        vertex(0, 0, Some(v(-5_000, 0)), None),
        vertex(10_000, 0, None, None),
        vertex(10_000, 10_000, None, None),
    ];
    let closed = path_outline(&path_object(points.clone(), true));
    let open = path_outline(&path_object(points, false));
    assert_eq!(open.len(), 3);
    assert_eq!(closed.len(), 3 + 16);
    assert_eq!(closed[18], (1_000, 2_000));
}

#[test]
fn outlines_of_short_paths_and_other_shapes_are_empty() {
    assert!(path_outline(&path_object(vec![vertex(0, 0, None, None)], true)).is_empty());
    let mut o = path_object(vec![], false);
    o.shape = Shape::Ellipse { radius_x: 1000, radius_y: 1000 };
    assert!(path_outline(&o).is_empty());
}
