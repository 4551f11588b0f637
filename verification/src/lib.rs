//! Integer and scheduling logic of a small CPU ray tracer ("Ray Tracing in One
//! Weekend" and "The Next Week"): PPM text encoding, Perlin lattice tables,
//! bounding-volume-hierarchy shapes, pixel work partitioning, and the decision
//! logic of the task runner and thread pool that render the image.
//!
//! Everything that computes on floating point (vectors, rays, materials) lives
//! in the application around this library.

mod random;
pub use random::rand_i8_r;

pub mod bvh;
pub mod chapters;
pub mod lights;
pub mod materials;
pub mod perlin;
pub mod pixels;
pub mod ppm;
pub mod taskrunner;
pub mod threadpool;
