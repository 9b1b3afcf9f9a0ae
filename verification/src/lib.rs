//! A verified Conway's Game of Life engine: a fixed-size double-buffered
//! grid, the edge-clipped neighborhood update rule, and a lenient
//! run-length-encoded pattern decoder.

pub mod life;
pub mod rle;
pub mod laws;
