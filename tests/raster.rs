use animate::geometry::{ceil_sqrt, cos_fixed, sin_fixed, TRIG_ONE};
use animate::raster::scan_box;
use animate::{
    blend, paint_at, rasterize_frame, rasterize_object, AnimObject, Color, Keyframe, Layer,
    PixelBuffer, Project, Shape, TweenType, Vec2,
};

const WHITE: (u8, u8, u8, u8) = (255, 255, 255, 255);

fn color(r: i32, g: i32, b: i32, a: i32) -> Color {
    Color { r, g, b, a }
}

fn object(id: u128, shape: Shape, x: i32, y: i32, stroke_width: i32) -> AnimObject {
    AnimObject {
        id,
        shape,
        position: Vec2 { x, y },
        rotation: 0,
        scale: Vec2 { x: 1000, y: 1000 },
        fill: color(200, 500, 800, 1000),
        stroke: color(0, 0, 0, 1000),
        stroke_width,
    }
}

fn rectangle() -> AnimObject {
    let shape = Shape::Rectangle { width: 100_000, height: 50_000, corner_radius: 8_000 };
    object(1, shape, 50_000, 50_000, 2_000)
}

const FILL: (u8, u8, u8, u8) = (51, 127, 204, 255);
const STROKE: (u8, u8, u8, u8) = (0, 0, 0, 255);

#[test]
fn rectangle_fill_stroke_and_background() {
    let mut buffer = PixelBuffer::filled(200, 200, WHITE);
    rasterize_object(&mut buffer, &rectangle(), 1000);
    assert_eq!(buffer.get(50, 50), FILL);
    assert_eq!(buffer.get(51, 25), STROKE);
    assert_eq!(buffer.get(150, 150), WHITE);
    assert_eq!(buffer.get(0, 50), STROKE);
    assert_eq!(buffer.get(100, 75), STROKE);
    assert_eq!(buffer.get(101, 50), WHITE);
    assert_eq!(buffer.get(50, 24), WHITE);
    assert_eq!(buffer.get(2, 50), FILL);
}

#[test]
fn rectangle_scenario_through_a_whole_frame() {
    let mut layer = Layer::new("Shapes".to_string());
    layer.insert_keyframe(0, Keyframe { objects: vec![rectangle()], tween: TweenType::Hold });
    let project = Project {
        name: "Scene".to_string(),
        canvas_width: 200,
        canvas_height: 200,
        background_color: color(1000, 1000, 1000, 1000),
        frame_rate: 24,
        total_frames: 1,
        layers: vec![layer],
    };
    let image = rasterize_frame(&project, 0);
    assert_eq!(image.dimensions(), (200, 200));
    assert_eq!(image.get(50, 50), FILL);
    assert_eq!(image.get(51, 25), STROKE);
    assert_eq!(image.get(150, 150), WHITE);
}

#[test]
fn turned_rectangle_covers_its_rotated_corners() {
    let mut square = object(2, Shape::Rectangle { width: 40_000, height: 40_000, corner_radius: 0 },
        100_000, 100_000, 0);
    square.rotation = 45_000;
    assert_eq!(paint_at(&square, 100, 100), Some(square.fill));
    assert_eq!(paint_at(&square, 127, 100), Some(square.fill));
    assert_eq!(paint_at(&square, 119, 119), None);
    square.rotation = 0;
    assert_eq!(paint_at(&square, 119, 119), Some(square.fill));
    assert_eq!(paint_at(&square, 127, 100), None);
}

#[test]
fn ellipse_fill_and_ring() {
    let ellipse = object(3, Shape::Ellipse { radius_x: 20_000, radius_y: 10_000 }, 50_000, 50_000,
        3_000);
    assert_eq!(paint_at(&ellipse, 50, 50), Some(ellipse.fill));
    assert_eq!(paint_at(&ellipse, 69, 50), Some(ellipse.stroke));
    assert_eq!(paint_at(&ellipse, 50, 41), Some(ellipse.stroke));
    assert_eq!(paint_at(&ellipse, 71, 50), None);
    assert_eq!(paint_at(&ellipse, 50, 61), None);
}

#[test]
fn degenerate_ellipse_draws_nothing() {
    let ellipse = object(4, Shape::Ellipse { radius_x: 1, radius_y: 10_000 }, 50_000, 50_000, 0);
    assert_eq!(paint_at(&ellipse, 50, 50), None);
}

#[test]
fn line_covers_the_segment_only() {
    let line = object(5, Shape::Line { end_x: 40_000, end_y: 0 }, 10_000, 10_000, 2_000);
    assert_eq!(paint_at(&line, 10, 10), Some(line.stroke));
    assert_eq!(paint_at(&line, 30, 11), Some(line.stroke));
    assert_eq!(paint_at(&line, 50, 10), Some(line.stroke));
    assert_eq!(paint_at(&line, 30, 12), None);
    assert_eq!(paint_at(&line, 52, 10), None);
    assert_eq!(paint_at(&line, 8, 10), None);
}

#[test]
fn paths_are_not_rasterized() {
    let path = object(6, Shape::Path { points: vec![], closed: true }, 0, 0, 1000);
    assert_eq!(paint_at(&path, 0, 0), None);
    let b = scan_box(&path);
    assert!(b.0 > b.2);
}

#[test]
fn scan_boxes() {
    assert_eq!(scan_box(&rectangle()), (0, 25, 100, 75));
    let mut turned = rectangle();
    turned.rotation = 90_000;
    assert_eq!(scan_box(&turned), (-6, -6, 106, 106));
    let line = object(5, Shape::Line { end_x: -40_000, end_y: 0 }, 50_500, 10_000, 500);
    assert_eq!(scan_box(&line), (9, 9, 52, 11));
}

#[test]
fn blending_exact_values() {
    assert_eq!(blend(WHITE, color(1000, 0, 0, 500), 1000), (255, 127, 127, 254));
    assert_eq!(blend(WHITE, color(0, 0, 0, 1000), 500), (127, 127, 127, 254));
    assert_eq!(blend((10, 20, 30, 40), color(1000, 1000, 1000, 0), 1000), (10, 20, 30, 40));
    assert_eq!(blend((10, 20, 30, 40), color(1000, 1000, 1000, 1000), 0), (10, 20, 30, 40));
    assert_eq!(blend((0, 0, 0, 0), color(2000, -5, 500, 1000), 1000), (255, 0, 127, 255));
}

#[test]
fn layers_paint_bottom_to_top() {
    let square = |id: u128, fill: Color| {
        let mut o = object(id, Shape::Rectangle { width: 10_000, height: 10_000, corner_radius: 0 },
            5_000, 5_000, 0);
        o.fill = fill;
        o
    };
    let mut top = Layer::new("Top".to_string());
    top.insert_keyframe(0, Keyframe { objects: vec![square(1, color(1000, 0, 0, 1000))],
        tween: TweenType::Hold });
    let mut bottom = Layer::new("Bottom".to_string());
    bottom.insert_keyframe(0, Keyframe { objects: vec![square(2, color(0, 0, 1000, 1000))],
        tween: TweenType::Hold });
    let mut project = Project {
        name: "Order".to_string(),
        canvas_width: 10,
        canvas_height: 10,
        background_color: color(0, 0, 0, 0),
        frame_rate: 24,
        total_frames: 1,
        layers: vec![top, bottom],
    };
    assert_eq!(rasterize_frame(&project, 0).get(5, 5), (255, 0, 0, 255));
    project.layers[0].visible = false;
    assert_eq!(rasterize_frame(&project, 0).get(5, 5), (0, 0, 255, 255));
    project.layers[1].opacity = 0;
    assert_eq!(rasterize_frame(&project, 0).get(5, 5), (0, 0, 0, 0));
}

#[test]
fn later_objects_paint_over_earlier_ones() {
    let mut a = object(1, Shape::Ellipse { radius_x: 3_000, radius_y: 3_000 }, 4_000, 4_000, 0);
    a.fill = color(1000, 0, 0, 1000);
    let mut b = object(2, Shape::Ellipse { radius_x: 3_000, radius_y: 3_000 }, 5_000, 4_000, 0);
    b.fill = color(0, 1000, 0, 1000);
    let mut buffer = PixelBuffer::filled(10, 10, (0, 0, 0, 255));
    rasterize_object(&mut buffer, &a, 1000);
    rasterize_object(&mut buffer, &b, 1000);
    assert_eq!(buffer.get(4, 4), (0, 255, 0, 255));
    assert_eq!(buffer.get(1, 4), (255, 0, 0, 255));
}

#[test]
fn objects_off_the_canvas_change_nothing() {
    let far = object(1, Shape::Rectangle { width: 10_000, height: 10_000, corner_radius: 0 },
        -500_000, 900_000, 1000);
    let mut buffer = PixelBuffer::filled(20, 20, WHITE);
    rasterize_object(&mut buffer, &far, 1000);
    let bytes = buffer.to_bytes();
    assert!(bytes.iter().all(|b| *b == 255));
}

#[test]
fn pixel_buffer_round_trip() {
    let mut buffer = PixelBuffer::filled(3, 2, (1, 2, 3, 4));
    buffer.put(2, 1, (9, 8, 7, 6));
    assert_eq!(buffer.dimensions(), (3, 2));
    assert_eq!(buffer.get(2, 1), (9, 8, 7, 6));
    assert_eq!(buffer.get(0, 0), (1, 2, 3, 4));
    let bytes = buffer.to_bytes();
    assert_eq!(bytes.len(), 24);
    assert_eq!(&bytes[20..24], &[9, 8, 7, 6]);
    assert_eq!(&bytes[0..4], &[1, 2, 3, 4]);
}

#[test]
fn fixed_point_sine_and_cosine() {
    assert_eq!(sin_fixed(0), 0);
    assert_eq!(sin_fixed(90_000), TRIG_ONE);
    assert_eq!(sin_fixed(30_000), 8192);
    assert_eq!(sin_fixed(-90_000), -TRIG_ONE);
    assert_eq!(sin_fixed(180_000), 0);
    assert_eq!(cos_fixed(0), TRIG_ONE);
    assert_eq!(cos_fixed(180_000), -TRIG_ONE);
    assert_eq!(cos_fixed(60_000), 8192);
}

#[test]
fn rounded_up_square_roots() {
    assert_eq!(ceil_sqrt(0), 0);
    assert_eq!(ceil_sqrt(1), 1);
    assert_eq!(ceil_sqrt(10), 4);
    assert_eq!(ceil_sqrt(16), 4);
    assert_eq!(ceil_sqrt(17), 5);
    assert_eq!(ceil_sqrt(1 << 100), 1 << 50);
}
