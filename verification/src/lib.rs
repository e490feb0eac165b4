//! Scanline polygon filling and line rasterization on a rectangular pixel grid.

pub mod canvas;
pub mod counting;
pub mod export;
pub mod fill;
pub mod geometry;
pub mod inside;
pub mod laws;
pub mod line;
pub mod outline;
