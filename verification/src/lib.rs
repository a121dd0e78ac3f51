//! A minimal ray-tracing core: vector algebra, ray/primitive intersection and
//! shading, carried out in fixed-point arithmetic so that every result is an
//! exactly specified integer computation.
//!
//! Real quantities are represented as `i64` values scaled by `SCALE` (a raw
//! value `v` stands for the real number `v / SCALE`).

pub mod color;
pub mod fixed;
pub mod hit;
pub mod plane;
pub mod point;
pub mod ppm;
pub mod ray;
pub mod render;
pub mod sphere;
pub mod traits;
pub mod vec;

pub use fixed::SCALE;
pub use vec::Vec3;
