use animate::{
    build_sprite_sheet, rasterize_frame, sprite_cell, sprite_grid, AnimObject, Color, History,
    Keyframe, Layer, Project, Shape, TweenType, Vec2,
};

fn moving_dot_project(total_frames: u32) -> Project {
    let dot = |x: i32| AnimObject {
        id: 1,
        shape: Shape::Rectangle { width: 1_000, height: 1_000, corner_radius: 0 },
        position: Vec2 { x, y: 1_000 },
        rotation: 0,
        scale: Vec2 { x: 1000, y: 1000 },
        fill: Color { r: 1000, g: 0, b: 0, a: 1000 },
        stroke: Color { r: 0, g: 0, b: 0, a: 1000 },
        stroke_width: 0,
    };
    let mut layer = Layer::new("Dot".to_string());
    layer.insert_keyframe(0, Keyframe { objects: vec![dot(0)], tween: TweenType::Linear });
    layer.insert_keyframe(total_frames - 1, Keyframe { objects: vec![dot(2_000)],
        tween: TweenType::Hold });
    Project {
        name: "Dots".to_string(),
        canvas_width: 3,
        canvas_height: 2,
        background_color: Color { r: 0, g: 0, b: 1000, a: 1000 },
        frame_rate: 12,
        total_frames,
        layers: vec![layer],
    }
}

#[test]
fn sprite_grid_for_ten_frames() {
    assert_eq!(sprite_grid(10), (4, 3));
    assert_eq!(sprite_cell(9, 4), (1, 2));
    assert_eq!(sprite_cell(0, 4), (0, 0));
    assert_eq!(sprite_cell(4, 4), (0, 1));
}

#[test]
fn sprite_grid_edges() {
    assert_eq!(sprite_grid(1), (1, 1));
    assert_eq!(sprite_grid(2), (2, 1));
    assert_eq!(sprite_grid(16), (4, 4));
    assert_eq!(sprite_grid(17), (5, 4));
    assert_eq!(sprite_grid(120), (11, 11));
}

#[test]
fn sprite_sheet_packs_every_frame() {
    let project = moving_dot_project(10);
    let sheet = build_sprite_sheet(&project);
    assert_eq!(sheet.dimensions(), (4 * 3, 3 * 2));
    for frame in 0..10u32 {
        let image = rasterize_frame(&project, frame);
        let (column, row) = sprite_cell(frame, 4);
        for y in 0..2 {
            for x in 0..3 {
                assert_eq!(sheet.get(column * 3 + x, row * 2 + y), image.get(x, y));
            }
        }
    }
    assert_eq!(sheet.get(3 * 3, 2 * 2), (0, 0, 0, 0));
    assert_eq!(sheet.get(11, 5), (0, 0, 0, 0));
}

#[test]
fn sprite_sheet_frames_differ_as_the_dot_moves() {
    let project = moving_dot_project(3);
    let sheet = build_sprite_sheet(&project);
    assert_eq!(sheet.dimensions(), (2 * 3, 2 * 2));
    let red = (255, 0, 0, 255);
    let blue = (0, 0, 255, 255);
    assert_eq!(sheet.get(0, 1), red);
    assert_eq!(sheet.get(2, 1), blue);
    assert_eq!(sheet.get(3 + 1, 1), red);
    assert_eq!(sheet.get(2, 2 + 1), red);
    assert_eq!(sheet.get(0, 2 + 1), blue);
}

#[test]
fn default_project() {
    let project = Project::default();
    assert_eq!(project.name, "Untitled");
    assert_eq!((project.canvas_width, project.canvas_height), (1920, 1080));
    assert_eq!(project.total_frames, 120);
    assert_eq!(project.frame_rate, 24);
    assert_eq!(project.layers.len(), 1);
    assert_eq!(project.layers[0].name, "Layer 1");
    assert_eq!(project.layers[0].keyframes.len(), 1);
    assert_eq!(project.layers[0].keyframes[0].0, 0);
    let empty = Keyframe::default();
    assert!(empty.objects.is_empty());
    assert_eq!(empty.tween, TweenType::Hold);
}

#[test]
fn history_undo_and_redo() {
    let named = |name: &str| {
        let mut p = Project::default();
        p.name = name.to_string();
        p
    };
    let mut history = History::new();
    let mut current = named("c");
    assert!(!history.undo(&mut current));
    assert!(!history.redo(&mut current));
    history.push(named("a"));
    history.push(named("b"));
    assert!(history.undo(&mut current));
    assert_eq!(current.name, "b");
    assert!(history.undo(&mut current));
    assert_eq!(current.name, "a");
    assert!(!history.undo(&mut current));
    assert!(history.redo(&mut current));
    assert_eq!(current.name, "b");
    assert!(history.redo(&mut current));
    assert_eq!(current.name, "c");
    assert!(!history.redo(&mut current));
    history.undo(&mut current);
    history.push(named("d"));
    assert!(history.redo_stack.is_empty());
}

#[test]
fn history_keeps_at_most_a_hundred() {
    let mut history = History::new();
    for i in 0..105 {
        let mut p = Project::default();
        p.name = format!("{}", i);
        history.push(p);
    }
    assert_eq!(history.undo_stack.len(), 100);
    assert_eq!(history.undo_stack[0].name, "5");
    assert_eq!(history.undo_stack[99].name, "104");
}
