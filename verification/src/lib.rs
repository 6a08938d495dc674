//! Greedy quadtree approximation of a raster image.
//!
//! The engine repeatedly selects the leaf region contributing the most visual
//! error, splits it into four quadrants, colors each child with its average
//! color, and paints it (with a black border) onto an output canvas.

pub mod engine;
pub mod geometry;
pub mod math;
pub mod quad;
pub mod raster;
pub mod render;
pub mod stats;
