//! Oblique software rasterizer for a four-by-four territory board: a depth
//! cache over a projected height field, town anchors, stamp and line
//! primitives and convex territory outlines.

pub mod cache;
pub mod towns;
pub mod renderer;
