//! The integer side of a Monte Carlo path tracer: the scene's ordered
//! collection of objects, the scanline order in which pixels are produced, the
//! 8-bit image buffer, the bounce decisions of the color integrator, and the
//! plain-text PPM encoding of a finished image.
pub mod hittable_list;
pub mod image;
pub mod ppm;
pub mod integrator;
