//! The emitted vertex: a grid-space position with the world's axis swap
//! applied, a fixed-point normal, and a texture coordinate. Scaling the
//! position by a floating-point voxel size is the renderer's job.

use vstd::prelude::*;

verus! {

use crate::geometry::{Point, Vec3i};

/// One vertex of the output triangle stream. `position` is in grid units
/// with the vertical fill axis moved to the middle slot (world-Y is the
/// voxel Z axis); `normal` is fixed-point, scaled by `NORMAL_FP`; texture
/// coordinates are 0-or-1 corner coordinates.
#[derive(Clone, Copy, PartialEq, Eq, Structural, Debug)]
pub struct Vertex {
    pub position: Point,
    pub normal: Vec3i,
    pub tex_u: u8,
    pub tex_v: u8,
}

/// The vertex a grid point and a normal produce: the point's y and z swap,
/// so the vertical fill axis becomes the world's up axis; the normal is
/// carried unswapped, as the renderer's shaders expect it.
pub open spec fn vertex_from(p: Point, n: Vec3i, tex_u: u8, tex_v: u8) -> Vertex {
    Vertex { position: Point { x: p.x, y: p.z, z: p.y }, normal: n, tex_u, tex_v }
}

impl Vertex {
    pub fn new(point: &Point, normal: &Vec3i, tex_u: u8, tex_v: u8) -> (v: Vertex)
        ensures
            v == vertex_from(*point, *normal, tex_u, tex_v),
    {
        Vertex {
            position: Point { x: point.x, y: point.z, z: point.y },
            normal: *normal,
            tex_u,
            tex_v,
        }
    }
}

} // verus!
