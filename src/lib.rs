//! Ray casting of flat-coloured spheres into a row-major colour buffer,
//! over fixed-point arithmetic.
pub mod algebra;
pub mod fixed;
pub mod render;
pub mod scene;

pub use algebra::quadratic::compute_quadratic;
pub use algebra::vec3::Vec3;
pub use render::{render, to_rgba_bytes};
pub use scene::{Color, Ray, Sphere, World};
