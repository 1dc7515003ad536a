//! Approximates a raster image by a quadtree of flat-coloured rectangles.
//!
//! A [`Model`] starts from one rectangle that covers the whole picture and,
//! step by step, quarters the leaf that is currently the worst approximation.
//! The leaves always tile the picture, and the compositor paints them into a
//! raster of any size.

pub mod candidate;
pub mod compositor;
pub mod frontier;
pub mod model;
pub mod quads;
pub mod raster;
pub mod stats;
pub mod tiling;

pub use model::Model;
pub use quads::Quad;
pub use stats::Color;
