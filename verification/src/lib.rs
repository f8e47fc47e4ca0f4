//! Procedural voxel terrain: a fractal height field feeding a boolean voxel
//! volume, from which a boundary-surface extractor derives a triangle mesh
//! with outward-facing normals.
//!
//! All geometry is carried in integers: grid coordinates are plain `usize`
//! triples and normals are fixed-point vectors scaled by `NORMAL_FP`.
//! Scaling positions by a floating-point voxel size is left to callers.

pub mod extract;
pub mod geometry;
pub mod height_field;
pub mod mesh;
pub mod vertex;
pub mod terrain;
pub mod volume;
