//! A software rasterizer for static triangle meshes.
//!
//! Triangles arrive in screen space, each with one depth and one lighting
//! term, and are filled scanline by scanline into a [`canvas::Canvas`]: a
//! colour buffer paired with a depth buffer that lets the closer surface win
//! whatever the drawing order. Every function is stated against a
//! mathematical model of the canvas, [`canvas::Frame`], and proved to compute
//! what that model says.
pub mod depth;
pub mod canvas;
pub mod raster;
pub mod coverage;
pub mod occlusion;
pub mod text;
pub mod number;
pub mod obj;
