//! A dense 3D boolean voxel volume: a flat buffer with strided indexing,
//! occupancy and bounds queries, the boundary-voxel test, the 26-neighborhood
//! query, and filling from a height field.

use vstd::prelude::*;

verus! {

use crate::geometry::{Point, MAX_DIM};

/// A dense mapping from grid coordinate to boolean occupancy, with dimensions
/// fixed at construction. Cell `(x, y, z)` lives at flat index
/// `x + y * size_x + z * size_x * size_y`.
pub struct VoxelVolume {
    pub size_x: usize,
    pub size_y: usize,
    pub size_z: usize,
    pub voxels: Vec<bool>,
}

/// The height-field rows as mathematical sequences.
pub open spec fn rows_view(hf: Seq<Vec<usize>>) -> Seq<Seq<usize>> {
    Seq::new(hf.len(), |i: int| hf[i]@)
}

/// What one fill pass leaves in a cell: occupied if it was occupied before,
/// or if it is a column cell at or below the column's height. Row `y`, then
/// column `x`, indexes the height field.
pub open spec fn filled_cell(v: VoxelVolume, hf: Seq<Seq<usize>>, x: int, y: int, z: int) -> bool {
    v.occupied(x, y, z) || (v.in_bounds(x, y, z) && z <= hf[y][x])
}

/// A height field matching the volume's horizontal dimensions, every value
/// within `[0, size_z)`.
pub open spec fn height_field_fits(hf: Seq<Seq<usize>>, v: VoxelVolume) -> bool {
    &&& hf.len() == v.size_y
    &&& forall|y: int| 0 <= y < hf.len() ==> (#[trigger] hf[y]).len() == v.size_x
    &&& forall|y: int, x: int|
        0 <= y < hf.len() && 0 <= x < hf[y].len() ==> (#[trigger] hf[y][x]) < v.size_z
}

impl VoxelVolume {
    /// Dimensions are small enough for the integer geometry and the flat
    /// buffer holds exactly one cell per coordinate.
    pub open spec fn wf(self) -> bool {
        &&& self.size_x <= MAX_DIM
        &&& self.size_y <= MAX_DIM
        &&& self.size_z <= MAX_DIM
        &&& self.size_x * self.size_y * self.size_z <= usize::MAX
        &&& self.voxels.len() == self.size_x * self.size_y * self.size_z
    }

    pub open spec fn in_bounds(self, x: int, y: int, z: int) -> bool {
        0 <= x < self.size_x && 0 <= y < self.size_y && 0 <= z < self.size_z
    }

    pub open spec fn flat_index(self, x: int, y: int, z: int) -> int {
        x + y * self.size_x + z * (self.size_x * self.size_y)
    }

    /// Occupancy of a cell; out-of-bounds coordinates are never occupied.
    pub open spec fn occupied(self, x: int, y: int, z: int) -> bool {
        self.in_bounds(x, y, z) && self.voxels[self.flat_index(x, y, z)]
    }

    /// A boundary voxel: occupied, and on a volume face or with at least one
    /// of its 6 face-adjacent neighbors unoccupied.
    pub open spec fn boundary(self, x: int, y: int, z: int) -> bool {
        self.occupied(x, y, z) && (
            x == 0 || y == 0 || z == 0
            || x == self.size_x - 1 || y == self.size_y - 1 || z == self.size_z - 1
            || !self.occupied(x - 1, y, z) || !self.occupied(x + 1, y, z)
            || !self.occupied(x, y - 1, z) || !self.occupied(x, y + 1, z)
            || !self.occupied(x, y, z - 1) || !self.occupied(x, y, z + 1)
        )
    }

    /// An empty volume: all cells unoccupied.
    pub fn new(size_x: usize, size_y: usize, size_z: usize) -> (v: VoxelVolume)
        requires
            size_x <= MAX_DIM,
            size_y <= MAX_DIM,
            size_z <= MAX_DIM,
            size_x * size_y * size_z <= usize::MAX,
        ensures
            v.wf(),
            v.size_x == size_x,
            v.size_y == size_y,
            v.size_z == size_z,
            forall|x: int, y: int, z: int| !v.occupied(x, y, z),
    {
        proof {
            assert(size_x * size_y <= MAX_DIM * MAX_DIM) by (nonlinear_arith)
                requires
                    size_x <= MAX_DIM,
                    size_y <= MAX_DIM,
            ;
        }
        let plane: usize = size_x * size_y;
        let total: usize = plane * size_z;
        let mut voxels: Vec<bool> = Vec::new();
        let mut i: usize = 0;
        while i < total
            invariant
                voxels.len() == i,
                i <= total,
                forall|k: int| 0 <= k < i ==> !voxels[k],
            decreases total - i,
        {
            voxels.push(false);
            i = i + 1;
        }
        let v = VoxelVolume { size_x, size_y, size_z, voxels };
        proof {
            assert forall|x: int, y: int, z: int| !v.occupied(x, y, z) by {
                if v.in_bounds(x, y, z) {
                    lemma_flat_index_in_range(v, x, y, z);
                }
            }
        }
        v
    }

    /// Occupancy query; `false` for out-of-range coordinates.
    pub fn is_occupied(&self, x: usize, y: usize, z: usize) -> (b: bool)
        requires
            self.wf(),
        ensures
            b == self.occupied(x as int, y as int, z as int),
    {
        if x < self.size_x && y < self.size_y && z < self.size_z {
            proof {
                lemma_flat_index_in_range(*self, x as int, y as int, z as int);
                lemma_plane_small(self.size_x as int, self.size_y as int);
            }
            let idx: usize = x + y * self.size_x + z * (self.size_x * self.size_y);
            self.voxels[idx]
        } else {
            false
        }
    }

    /// Bounds test on signed coordinates, as neighbor arithmetic produces them.
    pub fn is_in_map(&self, x: i64, y: i64, z: i64) -> (b: bool)
        requires
            self.wf(),
        ensures
            b == self.in_bounds(x as int, y as int, z as int),
    {
        0 <= x && x < self.size_x as i64
            && 0 <= y && y < self.size_y as i64
            && 0 <= z && z < self.size_z as i64
    }

    /// Boundary-voxel test; `false` for unoccupied or out-of-range cells.
    pub fn is_boundary(&self, x: usize, y: usize, z: usize) -> (b: bool)
        requires
            self.wf(),
        ensures
            b == self.boundary(x as int, y as int, z as int),
    {
        if !self.is_occupied(x, y, z) {
            return false;
        }
        if x == 0 || y == 0 || z == 0
            || x == self.size_x - 1 || y == self.size_y - 1 || z == self.size_z - 1 {
            return true;
        }
        !(self.is_occupied(x - 1, y, z) && self.is_occupied(x + 1, y, z)
            && self.is_occupied(x, y - 1, z) && self.is_occupied(x, y + 1, z)
            && self.is_occupied(x, y, z - 1) && self.is_occupied(x, y, z + 1))
    }

    /// The `i`-th 26-neighborhood offset, `i` in `[0, 27)`, in the scan order
    /// `dx` slowest, `dz` fastest; `i == 13` is the center itself.
    pub open spec fn offset(i: int) -> (int, int, int) {
        (i / 9 - 1, (i % 9) / 3 - 1, i % 3 - 1)
    }

    /// The occupied neighbors found from offset `i` onward.
    pub open spec fn neighbors_from(self, x: int, y: int, z: int, i: int) -> Seq<Point>
        decreases 27 - i,
    {
        if i < 0 || i >= 27 {
            Seq::empty()
        } else {
            let (dx, dy, dz) = Self::offset(i);
            let rest = self.neighbors_from(x, y, z, i + 1);
            if dx == 0 && dy == 0 && dz == 0 {
                rest
            } else if self.occupied(x + dx, y + dy, z + dz) {
                seq![Point {
                    x: (x + dx) as usize,
                    y: (y + dy) as usize,
                    z: (z + dz) as usize,
                }] + rest
            } else {
                rest
            }
        }
    }

    /// The in-bounds occupied cells 3D-adjacent (diagonals included) to
    /// `(x, y, z)`, in scan order.
    pub open spec fn neighbors_seq(self, x: int, y: int, z: int) -> Seq<Point> {
        self.neighbors_from(x, y, z, 0)
    }

    /// The (up to 26) occupied neighbors of a cell, diagonals included.
    pub fn occupied_neighbors(&self, x: usize, y: usize, z: usize) -> (r: Vec<Point>)
        requires
            self.wf(),
            x < MAX_DIM,
            y < MAX_DIM,
            z < MAX_DIM,
        ensures
            r@ == self.neighbors_seq(x as int, y as int, z as int),
    {
        let mut r: Vec<Point> = Vec::new();
        let mut i: usize = 0;
        while i < 27
            invariant
                self.wf(),
                x < MAX_DIM,
                y < MAX_DIM,
                z < MAX_DIM,
                i <= 27,
                self.neighbors_seq(x as int, y as int, z as int)
                    == r@ + self.neighbors_from(x as int, y as int, z as int, i as int),
            decreases 27 - i,
        {
            let dx: i64 = (i / 9) as i64 - 1;
            let dy: i64 = ((i % 9) / 3) as i64 - 1;
            let dz: i64 = (i % 3) as i64 - 1;
            let nx: i64 = x as i64 + dx;
            let ny: i64 = y as i64 + dy;
            let nz: i64 = z as i64 + dz;
            if !(dx == 0 && dy == 0 && dz == 0) && self.is_in_map(nx, ny, nz) {
                if self.is_occupied(nx as usize, ny as usize, nz as usize) {
                    r.push(Point { x: nx as usize, y: ny as usize, z: nz as usize });
                }
            }
            i = i + 1;
        }
        r
    }

    /// Mark every column cell at or below its height occupied: for every
    /// column `(x, y)`, every `z` in `[0, height]` (inclusive) becomes
    /// occupied; a height of 0 still occupies one voxel layer. Cells occupied
    /// before stay occupied.
    pub fn fill_from_height_field(&mut self, hf: &Vec<Vec<usize>>)
        requires
            old(self).wf(),
            height_field_fits(rows_view(hf@), *old(self)),
        ensures
            final(self).wf(),
            final(self).size_x == old(self).size_x,
            final(self).size_y == old(self).size_y,
            final(self).size_z == old(self).size_z,
            forall|x: int, y: int, z: int|
                #[trigger] final(self).occupied(x, y, z)
                    == filled_cell(*old(self), rows_view(hf@), x, y, z),
    {
        let ghost rows: Seq<Seq<usize>> = rows_view(hf@);
        let mut y: usize = 0;
        while y < hf.len()
            invariant
                self.wf(),
                self.size_x == old(self).size_x,
                self.size_y == old(self).size_y,
                self.size_z == old(self).size_z,
                rows == rows_view(hf@),
                height_field_fits(rows, *old(self)),
                hf@.len() == rows.len(),
                forall|yy: int| 0 <= yy < hf@.len() ==> (#[trigger] hf@[yy])@ == rows[yy],
                y <= hf.len(),
                forall|a: int, b: int, c: int|
                    #[trigger] self.occupied(a, b, c) == (
                        old(self).occupied(a, b, c)
                        || (old(self).in_bounds(a, b, c) && b < y && c <= rows[b][a])
                    ),
            decreases hf.len() - y,
        {
            let row: &Vec<usize> = &hf[y];
            let mut x: usize = 0;
            while x < row.len()
                invariant
                    self.wf(),
                    self.size_x == old(self).size_x,
                    self.size_y == old(self).size_y,
                    self.size_z == old(self).size_z,
                    rows == rows_view(hf@),
                    height_field_fits(rows, *old(self)),
                    hf@.len() == rows.len(),
                    y < hf@.len(),
                    row@ == rows[y as int],
                    x <= row.len(),
                    forall|a: int, b: int, c: int|
                        #[trigger] self.occupied(a, b, c) == (
                            old(self).occupied(a, b, c)
                            || (old(self).in_bounds(a, b, c)
                                && (b < y || (b == y && a < x)) && c <= rows[b][a])
                        ),
                decreases row.len() - x,
            {
                let h: usize = row[x];
                let mut z: usize = 0;
                while z < h + 1
                    invariant
                        self.wf(),
                        self.size_x == old(self).size_x,
                        self.size_y == old(self).size_y,
                        self.size_z == old(self).size_z,
                        rows == rows_view(hf@),
                        height_field_fits(rows, *old(self)),
                        hf@.len() == rows.len(),
                        y < hf@.len(),
                        row@ == rows[y as int],
                        x < row.len(),
                        h == rows[y as int][x as int],
                        h < self.size_z,
                        z <= h + 1,
                        forall|a: int, b: int, c: int|
                            #[trigger] self.occupied(a, b, c) == (
                                old(self).occupied(a, b, c)
                                || (old(self).in_bounds(a, b, c)
                                    && ((b < y || (b == y && a < x)) && c <= rows[b][a]
                                        || (b == y && a == x && c < z)))
                            ),
                    decreases h + 1 - z,
                {
                    self.set_occupied(x, y, z);
                    z = z + 1;
                }
                x = x + 1;
            }
            y = y + 1;
        }
    }

    /// Set one in-bounds cell occupied, leaving every other cell as it was.
    fn set_occupied(&mut self, x: usize, y: usize, z: usize)
        requires
            old(self).wf(),
            old(self).in_bounds(x as int, y as int, z as int),
        ensures
            final(self).wf(),
            final(self).size_x == old(self).size_x,
            final(self).size_y == old(self).size_y,
            final(self).size_z == old(self).size_z,
            forall|a: int, b: int, c: int|
                #[trigger] final(self).occupied(a, b, c) == (
                    old(self).occupied(a, b, c) || (a == x && b == y && c == z)
                ),
    {
        proof {
            lemma_flat_index_in_range(*self, x as int, y as int, z as int);
            lemma_plane_small(self.size_x as int, self.size_y as int);
        }
        let idx: usize = x + y * self.size_x + z * (self.size_x * self.size_y);
        self.voxels.set(idx, true);
        proof {
            assert forall|a: int, b: int, c: int|
                #[trigger] self.occupied(a, b, c) == (
                    old(self).occupied(a, b, c) || (a == x && b == y && c == z)
                ) by {
                if self.in_bounds(a, b, c) {
                    lemma_flat_index_in_range(*old(self), a, b, c);
                    if a == x && b == y && c == z {
                    } else {
                        lemma_flat_index_injective(
                            *old(self), a, b, c, x as int, y as int, z as int);
                    }
                }
            }
        }
    }
}

/// A horizontal plane of cells is small: `size_x * size_y <= MAX_DIM^2`.
pub proof fn lemma_plane_small(sx: int, sy: int)
    requires
        0 <= sx <= MAX_DIM,
        0 <= sy <= MAX_DIM,
    ensures
        0 <= sx * sy <= MAX_DIM * MAX_DIM,
{
    assert(0 <= sx * sy <= MAX_DIM * MAX_DIM) by (nonlinear_arith)
        requires
            0 <= sx <= MAX_DIM,
            0 <= sy <= MAX_DIM,
    ;
}

/// The flat index of an in-bounds cell lies within the buffer.
pub proof fn lemma_flat_index_in_range(v: VoxelVolume, x: int, y: int, z: int)
    requires
        v.wf(),
        v.in_bounds(x, y, z),
    ensures
        0 <= v.flat_index(x, y, z) < v.size_x * v.size_y * v.size_z,
{
    assert(0 <= x + y * v.size_x + z * (v.size_x * v.size_y)
        < v.size_x * v.size_y * v.size_z) by (nonlinear_arith)
        requires
            0 <= x < v.size_x,
            0 <= y < v.size_y,
            0 <= z < v.size_z,
    ;
}

/// Distinct in-bounds cells have distinct flat indices.
pub proof fn lemma_flat_index_injective(
    v: VoxelVolume, x1: int, y1: int, z1: int, x2: int, y2: int, z2: int)
    requires
        v.wf(),
        v.in_bounds(x1, y1, z1),
        v.in_bounds(x2, y2, z2),
        !(x1 == x2 && y1 == y2 && z1 == z2),
    ensures
        v.flat_index(x1, y1, z1) != v.flat_index(x2, y2, z2),
{
    assert(x1 + y1 * v.size_x + z1 * (v.size_x * v.size_y)
        != x2 + y2 * v.size_x + z2 * (v.size_x * v.size_y)) by (nonlinear_arith)
        requires
            0 <= x1 < v.size_x,
            0 <= y1 < v.size_y,
            0 <= z1 < v.size_z,
            0 <= x2 < v.size_x,
            0 <= y2 < v.size_y,
            0 <= z2 < v.size_z,
            !(x1 == x2 && y1 == y2 && z1 == z2),
    ;
}

/// Every member of the 26-neighborhood query is an in-bounds occupied cell
/// adjacent to the queried cell (each coordinate within 1) and distinct from
/// it.
pub proof fn lemma_neighbors_props(v: VoxelVolume, x: int, y: int, z: int, i: int)
    requires
        v.wf(),
        0 <= x < MAX_DIM,
        0 <= y < MAX_DIM,
        0 <= z < MAX_DIM,
    ensures
        v.neighbors_from(x, y, z, i).len() <= if i < 27 { 27 - i } else { 0 },
        forall|j: int| 0 <= j < v.neighbors_from(x, y, z, i).len() ==> {
            let q = #[trigger] v.neighbors_from(x, y, z, i)[j];
            &&& v.occupied(q.x as int, q.y as int, q.z as int)
            &&& q.in_range()
            &&& -1 <= q.x - x <= 1
            &&& -1 <= q.y - y <= 1
            &&& -1 <= q.z - z <= 1
            &&& !(q.x == x && q.y == y && q.z == z)
        },
    decreases 27 - i,
{
    if i < 0 || i >= 27 {
    } else {
        lemma_neighbors_props(v, x, y, z, i + 1);
        let (dx, dy, dz) = VoxelVolume::offset(i);
        if !(dx == 0 && dy == 0 && dz == 0) && v.occupied(x + dx, y + dy, z + dz) {
            let q = Point {
                x: (x + dx) as usize,
                y: (y + dy) as usize,
                z: (z + dz) as usize,
            };
            assert(v.in_bounds(x + dx, y + dy, z + dz));
            assert(q.x == x + dx && q.y == y + dy && q.z == z + dz);
            assert forall|j: int|
                0 <= j < v.neighbors_from(x, y, z, i).len() implies {
                    let q2 = #[trigger] v.neighbors_from(x, y, z, i)[j];
                    &&& v.occupied(q2.x as int, q2.y as int, q2.z as int)
                    &&& q2.in_range()
                    &&& -1 <= q2.x - x <= 1
                    &&& -1 <= q2.y - y <= 1
                    &&& -1 <= q2.z - z <= 1
                    &&& !(q2.x == x && q2.y == y && q2.z == z)
                } by {
                if j == 0 {
                } else {
                    assert(v.neighbors_from(x, y, z, i)[j]
                        == v.neighbors_from(x, y, z, i + 1)[j - 1]);
                }
            }
        }
    }
}

/// Filling is idempotent: a second pass with the same height field changes
/// no cell's occupancy.
pub proof fn lemma_fill_idempotent(
    v0: VoxelVolume, v1: VoxelVolume, v2: VoxelVolume, hf: Seq<Seq<usize>>)
    requires
        v1.size_x == v0.size_x,
        v1.size_y == v0.size_y,
        v1.size_z == v0.size_z,
        v2.size_x == v1.size_x,
        v2.size_y == v1.size_y,
        v2.size_z == v1.size_z,
        forall|x: int, y: int, z: int|
            #[trigger] v1.occupied(x, y, z) == filled_cell(v0, hf, x, y, z),
        forall|x: int, y: int, z: int|
            #[trigger] v2.occupied(x, y, z) == filled_cell(v1, hf, x, y, z),
    ensures
        forall|x: int, y: int, z: int|
            #[trigger] v2.occupied(x, y, z) == v1.occupied(x, y, z),
{
    assert forall|x: int, y: int, z: int|
        #[trigger] v2.occupied(x, y, z) == v1.occupied(x, y, z) by {
        assert(v1.occupied(x, y, z) == filled_cell(v0, hf, x, y, z));
        assert(v2.occupied(x, y, z) == filled_cell(v1, hf, x, y, z));
        assert(v1.in_bounds(x, y, z) == v0.in_bounds(x, y, z));
    }
}

/// Occupying one more cell never turns an enclosed voxel into a boundary
/// voxel: if `(x, y, z)` is occupied and not a boundary voxel, and `w` is `v`
/// with one other cell `(ux, uy, uz)` additionally occupied, then `(x, y, z)`
/// is still not a boundary voxel in `w`.
pub proof fn lemma_boundary_monotone(
    v: VoxelVolume, w: VoxelVolume,
    ux: int, uy: int, uz: int, x: int, y: int, z: int)
    requires
        w.size_x == v.size_x,
        w.size_y == v.size_y,
        w.size_z == v.size_z,
        forall|a: int, b: int, c: int|
            #[trigger] w.occupied(a, b, c)
                == (v.occupied(a, b, c) || (a == ux && b == uy && c == uz)),
        v.occupied(x, y, z),
        !v.boundary(x, y, z),
        !(x == ux && y == uy && z == uz),
    ensures
        !w.boundary(x, y, z),
{
    assert(w.occupied(x, y, z));
    assert(w.occupied(x - 1, y, z));
    assert(w.occupied(x + 1, y, z));
    assert(w.occupied(x, y - 1, z));
    assert(w.occupied(x, y + 1, z));
    assert(w.occupied(x, y, z - 1));
    assert(w.occupied(x, y, z + 1));
}

} // verus!
