//! A Whitted-style ray tracer over fixed-point arithmetic.
//!
//! Every length, coordinate, ray parameter, intensity and weight is an integer
//! count of thousandths (`math::SCALE`). Scenes live in a bounded box:
//! positions stay within `math::COORD_LIMIT` and ray directions within
//! `math::DIR_LIMIT`; a hit whose point would leave the box is not a hit.
//!
//! - `math`: points, vector arithmetic, integer square root.
//! - `color`: 8-bit colors, scaling by light, blending, averaging.
//! - `shapes`: rays, spheres, planes, the background, and their hits.
//! - `lighting`: lights, shadows, diffuse and highlight terms.
//! - `render`: nearest-hit search, recursive tracing, pixels.
//! - `laws`: properties that hold across these functions.
pub mod math;
pub mod color;
pub mod shapes;
pub mod lighting;
pub mod render;
pub mod laws;
