//! The scene data model: projects, layers, keyframes and animated objects.
use vstd::prelude::*;

verus! {

/// Thousandths per whole unit (canvas unit, scale factor, color channel).
pub const MILLI: i32 = 1000;

/// A 2-vector in thousandths.
#[derive(Clone, Copy, Debug, PartialEq, Eq, Structural)]
pub struct Vec2 {
    pub x: i32,
    pub y: i32,
}

/// An RGBA color, each channel in thousandths (`0..=1000` is the meaningful range).
#[derive(Clone, Copy, Debug, PartialEq, Eq, Structural)]
pub struct Color {
    pub r: i32,
    pub g: i32,
    pub b: i32,
    pub a: i32,
}

/// How a keyframe blends toward the next keyframe of its layer.
#[derive(Clone, Copy, Debug, PartialEq, Eq, Structural)]
pub enum TweenType {
    /// No interpolation: the keyframe holds until the next one.
    Hold,
    Linear,
    EaseIn,
    EaseOut,
    EaseInOut,
}

/// A vertex of a path, with optional Bezier control offsets on either side.
#[derive(Clone, Copy, Debug, PartialEq, Eq, Structural)]
pub struct PathPoint {
    pub position: Vec2,
    pub control_in: Option<Vec2>,
    pub control_out: Option<Vec2>,
}

/// The geometry of an object, in its own unrotated, unscaled frame.
#[derive(Clone, Debug)]
pub enum Shape {
    Rectangle { width: i32, height: i32, corner_radius: i32 },
    Ellipse { radius_x: i32, radius_y: i32 },
    /// A segment from the object's position to the position plus `(end_x, end_y)`.
    Line { end_x: i32, end_y: i32 },
    Path { points: Vec<PathPoint>, closed: bool },
}

/// A shape with its transform and paint. `id` matches the same object across
/// the keyframes of one layer.
#[derive(Clone, Debug)]
pub struct AnimObject {
    pub id: u128,
    pub shape: Shape,
    pub position: Vec2,
    /// Thousandths of a degree.
    pub rotation: i32,
    pub scale: Vec2,
    pub fill: Color,
    pub stroke: Color,
    pub stroke_width: i32,
}

/// The objects of a layer at one authored frame, in paint order, and the
/// tween that leads from here to the next keyframe.
#[derive(Clone, Debug)]
pub struct Keyframe {
    pub objects: Vec<AnimObject>,
    pub tween: TweenType,
}

/// A layer: flags, opacity (thousandths) and a keyframe table, held as
/// `(frame, keyframe)` entries in strictly increasing frame order.
#[derive(Clone, Debug)]
pub struct Layer {
    pub id: u128,
    pub name: String,
    pub visible: bool,
    pub locked: bool,
    pub opacity: i32,
    pub keyframes: Vec<(u32, Keyframe)>,
}

/// A whole animation. `layers[0]` is the topmost layer.
#[derive(Clone, Debug)]
pub struct Project {
    pub name: String,
    pub canvas_width: u32,
    pub canvas_height: u32,
    pub background_color: Color,
    pub frame_rate: u32,
    pub total_frames: u32,
    pub layers: Vec<Layer>,
}

/// What a shape is, with its point list as a sequence.
pub ghost enum ShapeView {
    Rectangle { width: i32, height: i32, corner_radius: i32 },
    Ellipse { radius_x: i32, radius_y: i32 },
    Line { end_x: i32, end_y: i32 },
    Path { points: Seq<PathPoint>, closed: bool },
}

/// What an object is, field for field.
pub ghost struct ObjectView {
    pub id: u128,
    pub shape: ShapeView,
    pub position: Vec2,
    pub rotation: i32,
    pub scale: Vec2,
    pub fill: Color,
    pub stroke: Color,
    pub stroke_width: i32,
}

/// What a keyframe is: its objects in paint order and its tween.
pub ghost struct KeyframeView {
    pub objects: Seq<ObjectView>,
    pub tween: TweenType,
}

impl View for Shape {
    type V = ShapeView;

    open spec fn view(&self) -> ShapeView {
        match self {
            Shape::Rectangle { width, height, corner_radius } => ShapeView::Rectangle {
                width: *width,
                height: *height,
                corner_radius: *corner_radius,
            },
            Shape::Ellipse { radius_x, radius_y } => ShapeView::Ellipse {
                radius_x: *radius_x,
                radius_y: *radius_y,
            },
            Shape::Line { end_x, end_y } => ShapeView::Line { end_x: *end_x, end_y: *end_y },
            Shape::Path { points, closed } => ShapeView::Path { points: points@, closed: *closed },
        }
    }
}

impl View for AnimObject {
    type V = ObjectView;

    open spec fn view(&self) -> ObjectView {
        ObjectView {
            id: self.id,
            shape: self.shape@,
            position: self.position,
            rotation: self.rotation,
            scale: self.scale,
            fill: self.fill,
            stroke: self.stroke,
            stroke_width: self.stroke_width,
        }
    }
}

/// The view of each object of a list.
pub open spec fn objects_view(s: Seq<AnimObject>) -> Seq<ObjectView> {
    s.map_values(|o: AnimObject| o@)
}

impl View for Keyframe {
    type V = KeyframeView;

    open spec fn view(&self) -> KeyframeView {
        KeyframeView { objects: objects_view(self.objects@), tween: self.tween }
    }
}

/// A keyframe table as `(frame, keyframe)` pairs of views.
pub open spec fn table_view(s: Seq<(u32, Keyframe)>) -> Seq<(u32, KeyframeView)> {
    s.map_values(|e: (u32, Keyframe)| (e.0, e.1@))
}

impl Layer {
    /// The keyframe table of this layer.
    pub open spec fn table(&self) -> Seq<(u32, KeyframeView)> {
        table_view(self.keyframes@)
    }
}

/// Entries whose frame numbers strictly increase.
pub open spec fn frames_increasing(s: Seq<(u32, KeyframeView)>) -> bool {
    forall|i: int, j: int| 0 <= i < j < s.len() ==> s[i].0 < s[j].0
}

impl Layer {
    /// The keyframe table is ordered by frame with unique keys.
    pub open spec fn wf(&self) -> bool {
        frames_increasing(self.table())
    }
}

impl Project {
    /// At least one frame, and every layer's keyframe table in order.
    pub open spec fn wf(&self) -> bool {
        &&& self.total_frames >= 1
        &&& forall|i: int| 0 <= i < self.layers@.len() ==> (#[trigger] self.layers@[i]).wf()
    }
}

impl Shape {
    /// A copy of this shape.
    pub fn duplicate(&self) -> (r: Shape)
        ensures
            r@ == self@,
    {
        match self {
            Shape::Rectangle { width, height, corner_radius } => Shape::Rectangle {
                width: *width,
                height: *height,
                corner_radius: *corner_radius,
            },
            Shape::Ellipse { radius_x, radius_y } => Shape::Ellipse {
                radius_x: *radius_x,
                radius_y: *radius_y,
            },
            Shape::Line { end_x, end_y } => Shape::Line { end_x: *end_x, end_y: *end_y },
            Shape::Path { points, closed } => {
                let copied = points.clone();
                proof {
                    assert(copied@ =~= points@);
                }
                Shape::Path { points: copied, closed: *closed }
            },
        }
    }
}

impl AnimObject {
    /// A copy of this object.
    pub fn duplicate(&self) -> (r: AnimObject)
        ensures
            r@ == self@,
    {
        AnimObject {
            id: self.id,
            shape: self.shape.duplicate(),
            position: self.position,
            rotation: self.rotation,
            scale: self.scale,
            fill: self.fill,
            stroke: self.stroke,
            stroke_width: self.stroke_width,
        }
    }
}

/// A copy of a list of objects.
pub fn duplicate_objects(objects: &Vec<AnimObject>) -> (r: Vec<AnimObject>)
    ensures
        objects_view(r@) == objects_view(objects@),
{
    let mut r: Vec<AnimObject> = Vec::new();
    let mut i: usize = 0;
    while i < objects.len()
        invariant
            i <= objects@.len(),
            objects_view(r@) == objects_view(objects@.subrange(0, i as int)),
        decreases objects@.len() - i,
    {
        let o = objects[i].duplicate();
        proof {
            let before = r@;
            assert(objects_view(before.push(o)) =~= objects_view(before).push(o@));
            assert(objects_view(objects@.subrange(0, i + 1)) =~= objects_view(
                objects@.subrange(0, i as int),
            ).push(objects@[i as int]@));
        }
        r.push(o);
        i += 1;
    }
    proof {
        assert(objects@.subrange(0, i as int) =~= objects@);
    }
    r
}

impl Keyframe {
    /// A copy of this keyframe.
    pub fn duplicate(&self) -> (r: Keyframe)
        ensures
            r@ == self@,
    {
        Keyframe { objects: duplicate_objects(&self.objects), tween: self.tween }
    }
}

/// Relies on `uuid::Uuid::new_v4`: a fresh random identity, as its 128 bits.
#[verifier::external_body]
fn new_id() -> (r: u128) {
    uuid::Uuid::new_v4().as_u128()
}

impl Layer {
    /// A visible, unlocked, fully opaque layer with a fresh identity and no
    /// keyframes.
    pub fn new(name: String) -> (r: Layer)
        ensures
            r.name == name,
            r.visible,
            !r.locked,
            r.opacity == MILLI,
            r.keyframes@.len() == 0,
            r.wf(),
    {
        Layer {
            id: new_id(),
            name,
            visible: true,
            locked: false,
            opacity: MILLI,
            keyframes: Vec::new(),
        }
    }
}

impl AnimObject {
    /// An object with a fresh identity, unrotated and at unit scale.
    pub fn new(shape: Shape, position: Vec2, fill: Color, stroke: Color, stroke_width: i32) -> (r:
        AnimObject)
        ensures
            r.shape == shape,
            r.position == position,
            r.rotation == 0,
            r.scale == (Vec2 { x: MILLI, y: MILLI }),
            r.fill == fill,
            r.stroke == stroke,
            r.stroke_width == stroke_width,
    {
        AnimObject {
            id: new_id(),
            shape,
            position,
            rotation: 0,
            scale: Vec2 { x: MILLI, y: MILLI },
            fill,
            stroke,
            stroke_width,
        }
    }
}

impl Default for Keyframe {
    /// An empty keyframe that holds.
    fn default() -> (r: Keyframe)
        ensures
            r.objects@.len() == 0,
            r.tween == TweenType::Hold,
    {
        Keyframe { objects: Vec::new(), tween: TweenType::Hold }
    }
}

impl Default for Project {
    /// A 1920 by 1080 canvas on white, 24 frames a second for 120 frames,
    /// with one layer holding an empty keyframe at frame 0.
    fn default() -> (r: Project)
        ensures
            r.wf(),
            r.canvas_width == 1920,
            r.canvas_height == 1080,
            r.background_color == (Color { r: MILLI, g: MILLI, b: MILLI, a: MILLI }),
            r.frame_rate == 24,
            r.total_frames == 120,
            r.layers@.len() == 1,
            r.layers@[0].table() == seq![(0u32, KeyframeView { objects: Seq::empty(), tween: TweenType::Hold })],
    {
        let mut layer = Layer::new("Layer 1".to_owned());
        let keyframe = Keyframe { objects: Vec::new(), tween: TweenType::Hold };
        layer.keyframes.push((0, keyframe));
        let mut layers: Vec<Layer> = Vec::new();
        layers.push(layer);
        proof {
            assert(objects_view(Seq::<AnimObject>::empty()) =~= Seq::<ObjectView>::empty());
            assert(layers@[0].table() =~= seq![(0u32, KeyframeView { objects: Seq::empty(), tween: TweenType::Hold })]);
        }
        Project {
            name: "Untitled".to_owned(),
            canvas_width: 1920,
            canvas_height: 1080,
            background_color: Color { r: MILLI, g: MILLI, b: MILLI, a: MILLI },
            frame_rate: 24,
            total_frames: 120,
            layers,
        }
    }
}

} // verus!
