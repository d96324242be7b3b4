//! Integer core of a small Monte-Carlo path tracer: the bounding-volume
//! hierarchy over primitive indices, the layout of the RGBA output buffer,
//! the mesh importer's text structure, and polygon fan triangulation.
//! The floating-point geometry that drives them lives with the caller.

pub mod bvh;
pub mod framebuffer;
pub mod triangulate;
pub mod text;
pub mod import;
pub mod material;
pub mod animation;
