//! Verified core of a Monte-Carlo path tracer.
//!
//! A path tracer computes with floating-point vectors, which are not
//! reasoned about here. What this library holds, and proves, is everything
//! that decides which pixel, which bounce, which surface or which byte comes
//! next; the arithmetic on colours and directions is handed in by the
//! caller as functions and read back as values.
//!
//! - [`raster`] lays the pixels out in the output and renders them in
//!   parallel.
//! - [`tracer`] follows a light path through the scene within its budget of
//!   bounces.
//! - [`scene`] finds the object that a ray hits first.
//! - [`sphere`] picks the root at which a ray hits a sphere.
//! - [`scalar`] turns a distance into a key by which it can be ordered.
//! - [`ppm`] writes the image in its plain-text format.

pub mod ppm;
pub mod raster;
pub mod scalar;
pub mod scene;
pub mod sphere;
pub mod tracer;
