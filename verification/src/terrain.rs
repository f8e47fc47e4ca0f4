//! The terrain model: a cubic voxel volume filled from a fractal height
//! field, and a cached vertex list rebuilt only when empty.

use vstd::prelude::*;

verus! {

use crate::extract::{add_vertices, extracted};
use crate::height_field::{gen_spec, generate_hight_map, perturb_ok, valid_grid_size, MAX_GRID};
use crate::vertex::Vertex;
use crate::volume::{filled_cell, rows_view, VoxelVolume};

/// One terrain instance: a cubic volume of side `map_size` (a power of two
/// plus one) and the vertex list derived from it. The mesh is rebuilt only
/// when the cached list is empty.
pub struct Terrain {
    pub map_size: usize,
    pub volume: VoxelVolume,
    pub vertices: Vec<Vertex>,
}

impl Terrain {
    /// The volume is cubic, of a valid fractal side, and internally
    /// consistent.
    pub open spec fn wf(self) -> bool {
        &&& self.volume.wf()
        &&& self.volume.size_x == self.map_size
        &&& self.volume.size_y == self.map_size
        &&& self.volume.size_z == self.map_size
        &&& self.map_size <= MAX_GRID
        &&& valid_grid_size(self.map_size as int)
    }

    /// A terrain over an empty cubic volume, nothing cached.
    pub fn new(map_size: usize) -> (t: Terrain)
        requires
            valid_grid_size(map_size as int),
            map_size <= MAX_GRID,
            (map_size * map_size) * map_size <= usize::MAX,
        ensures
            t.wf(),
            t.map_size == map_size,
            forall|x: int, y: int, z: int| !t.volume.occupied(x, y, z),
            t.vertices@.len() == 0,
    {
        proof {
            crate::volume::lemma_plane_small(map_size as int, map_size as int);
        }
        let volume = VoxelVolume::new(map_size, map_size, map_size);
        Terrain { map_size, volume, vertices: Vec::new() }
    }

    /// Generate a fresh fractal height field and fill the volume's columns
    /// from it: afterwards a cell is occupied exactly when it was before or
    /// its height field column covers it, for some perturbation sequence the
    /// random source chose.
    pub fn build_voxels(&mut self)
        requires
            old(self).wf(),
        ensures
            final(self).wf(),
            final(self).map_size == old(self).map_size,
            final(self).vertices == old(self).vertices,
            exists|p: Seq<i64>|
                #[trigger] perturb_ok(p) && forall|x: int, y: int, z: int|
                    final(self).volume.occupied(x, y, z) == filled_cell(
                        old(self).volume, gen_spec(old(self).map_size as int, p), x, y, z),
    {
        let hf = generate_hight_map(self.map_size);
        let ghost p = choose|p: Seq<i64>|
            #[trigger] perturb_ok(p)
                && rows_view(hf@) == gen_spec(self.map_size as int, p);
        self.volume.fill_from_height_field(&hf);
        proof {
            assert(perturb_ok(p) && forall|x: int, y: int, z: int|
                self.volume.occupied(x, y, z) == filled_cell(
                    old(self).volume, gen_spec(old(self).map_size as int, p), x, y, z));
        }
    }

    /// The cached vertex list, rebuilt from scratch when it is empty: a
    /// fresh height field fills the volume and the extractor's vertex stream
    /// is cached and returned. A non-empty cache is returned unchanged.
    pub fn get_vertices(&mut self) -> (r: Vec<Vertex>)
        requires
            old(self).wf(),
        ensures
            final(self).wf(),
            final(self).map_size == old(self).map_size,
            r@ == final(self).vertices@,
            old(self).vertices@.len() > 0 ==> *final(self) == *old(self),
            old(self).vertices@.len() == 0 ==> exists|p: Seq<i64>|
                #[trigger] perturb_ok(p)
                    && (forall|x: int, y: int, z: int|
                        final(self).volume.occupied(x, y, z) == filled_cell(
                            old(self).volume, gen_spec(old(self).map_size as int, p), x, y, z))
                    && final(self).vertices@ == extracted(final(self).volume, Seq::empty()),
    {
        if self.vertices.len() == 0 {
            self.build_voxels();
            let mut shape: Vec<Vertex> = Vec::new();
            add_vertices(&self.volume, &mut shape);
            self.vertices = shape;
        }
        let r = self.vertices.clone();
        proof {
            assert(r@ =~= self.vertices@);
        }
        r
    }
}

} // verus!
