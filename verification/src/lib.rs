//! A small ray-tracing core over fixed-point coordinates.
//!
//! Geometry is carried in 64-bit fixed-point values: an `i64` component
//! stands for the real number `component / SCALE`.  All algebra on vectors,
//! rays, sphere intersection and the recursive diffuse shading is verified
//! against exact integer contracts.

pub mod fixed;
pub mod hittable;
pub mod math;
pub mod render;

pub use fixed::SCALE;
pub use hittable::HitRecord;
pub use hittable::Hittable;
pub use hittable::HittableList;
pub use hittable::Sphere;
pub use math::Ray;
pub use math::Vec3;
pub use render::random_in_unit_sphere;
pub use render::ray_color;
