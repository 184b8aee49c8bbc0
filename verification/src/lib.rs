//! Escape-time fractal rendering over an integer sample grid: region
//! splitting, strip reassembly, palette construction and colour averaging.

pub mod colour;
pub mod distribute;
pub mod escape;
pub mod image;
pub mod parallel;
pub mod region;
pub mod render;
pub mod vector3d;
