//! Vector algebra and the quadratic solver.
pub mod quadratic;
pub mod vec3;
