//! The rendering engine of a small path tracer: the pixel work queue and
//! image assembly, the constructive-solid-geometry region algebra, the shape
//! tree, the scene registry and the integrator's budget decisions.
//!
//! Real-valued geometry stays with the caller. The library orders hit
//! distances by `u64` keys that preserve the order of the distances they
//! stand for.

pub mod assembly;
pub mod csg;
pub mod integrator;
pub mod scene;
pub mod shape;
pub mod work;

pub use assembly::{ImageAssembly, Rgb};
pub use csg::{Bound, Boundary, CsgOp, Owner, Region};
pub use integrator::{light_unoccluded, nearest, RayProperties};
pub use scene::Scene;
pub use shape::Shape;
pub use work::{get_pixels, get_pixel_batch, BATCH_SIZE, THREAD_COUNT};
