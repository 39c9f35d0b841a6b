//! A dense row-major matrix container with a verified, cache-tiled,
//! parallel matrix multiplication.

pub mod laws;
pub mod matrix;
pub mod multiply;
