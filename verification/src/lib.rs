//! The exact core of a software rasterizer: the frame and depth buffers, the
//! scan conversion of triangles with its depth test, the walk that clips a
//! polygon against the view volume, fan triangulation, texture lookup and the
//! byte layout of the finished picture.
//!
//! Everything here works on whole numbers and on values that it only moves
//! about. Geometry in floating point enters as functions that the caller hands
//! in: which side of a plane a vertex is on, where an edge is cut, which
//! columns of a row a triangle covers, how deep and of what colour it is at a
//! pixel.

pub mod colors;
pub mod frame;
pub mod geometry;
pub mod math;
pub mod rasterizer;
pub mod render;
pub mod surface;
pub mod textures;
