//! The verified core of a path tracer: the bounding-volume hierarchy over a
//! scene's primitives, the state machine that bounds each traced path, the
//! pixel buffer with its PPM encoding, and the integer parts of camera rays,
//! polygon fans and OBJ tokens. Geometry in floating point lives with the
//! program that uses this library.

pub mod bvh;
pub mod image;
pub mod polygon;
pub mod ppm;
pub mod tokens;
pub mod tracer;
pub mod viewport;
