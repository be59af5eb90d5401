//! The integer and decision logic of a stochastic path tracer: how the
//! radiance integrator continues after each traced ray, which surface a ray
//! hits first, how rendered pixels are laid out as image bytes, and how each
//! pixel's random stream is seeded.
//!
//! Ray parameters reach this library as order keys: unsigned integers whose
//! order is the order of the parameters.
pub mod frame;
pub mod integrator;
pub mod nearest;
