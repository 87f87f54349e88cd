//! A 2D vector-animation core: keyframed layers of vector shapes, resolved to
//! the scene at any frame and scan-converted into RGBA pixel buffers.
//!
//! All quantities are integers. Lengths, positions, scales, color channels and
//! opacities are counted in thousandths (`1000` is one canvas unit, a scale of
//! one, or a fully saturated channel); rotations in thousandths of a degree.
pub mod model;
pub mod easing;
pub mod timeline;
pub mod pixels;
pub mod geometry;
pub mod raster;
pub mod export;
pub mod history;
pub mod selection;
pub mod onion;
pub mod outline;

pub use easing::{apply_easing, lerp_angle, Fraction};
pub use export::{build_sprite_sheet, sprite_cell, sprite_grid};
pub use history::History;
pub use onion::{ghost_frames, tint_object, OnionSkinning};
pub use model::{AnimObject, Color, Keyframe, Layer, PathPoint, Project, Shape, TweenType, Vec2};
pub use outline::{cubic_bezier, path_outline};
pub use pixels::PixelBuffer;
pub use raster::{blend, paint_at, rasterize_frame, rasterize_object};
pub use selection::{hit_test, move_selected_objects, point_in_object};
pub use timeline::{ensure_keyframe_at, resolve_frame};
