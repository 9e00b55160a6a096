//! A progressive path tracer for scenes of spheres.
//!
//! A [`Renderer`] shoots one ray per pixel of a [`Camera`] into a [`Scene`],
//! follows it over diffuse surfaces until it leaves the scene or is absorbed,
//! and adds what it gathers to the pixel's sum. Frame after frame the picture,
//! the average of the sums, loses its noise.
//!
//! All arithmetic is fixed-point: a scalar is an `i64` that counts units of
//! `1 / 65536` (see [`fixed`]), and every operation rounds towards negative
//! infinity. Each type says in its `wf` which values the arithmetic covers,
//! and tells with `is_valid` whether a value is one of them.

pub mod camera;
pub mod fixed;
pub mod geom;
pub mod halton;
pub mod hittable;
pub mod material;
pub mod renderer;
pub mod scene;
pub mod timer;
pub mod util;
pub mod vec3;

pub use camera::Camera;
pub use hittable::Hittable;
pub use material::Material;
pub use renderer::Renderer;
pub use scene::{Scene, Sphere};
