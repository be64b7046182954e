//! A CPU rasterizer core: fixed-point colors, a depth-tested framebuffer,
//! triangle scan conversion with barycentric interpolation, and the helpers that
//! procedural shaders blend colors with.
pub mod color;
pub mod fixed;
pub mod framebuffer;
pub mod geometry;
pub mod pipeline;
pub mod raster;
pub mod shading;
