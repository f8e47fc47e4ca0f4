//! The surface extractor: walk the volume in coordinate order, and for every
//! boundary voxel not yet consumed as a neighbor, compute its outward normal
//! (the sum of the vectors from its occupied neighbors to it, normalized),
//! sort its occupied-neighbor ring angularly around that normal, and emit a
//! triangle fan as a raw vertex stream.
//!
//! The angular order compares, exactly in integers, the quantity the sine of
//! the angle between the plane normal and each neighbor offset would give:
//! `dot(plane, u) / (|plane| * |u|) < dot(plane, w) / (|plane| * |w|)` holds
//! iff the signs say so or the squared cross-multiplied dots do, so no
//! rounding ever reorders the ring. Ties keep discovery order.

use vstd::prelude::*;

verus! {

use crate::geometry::{norm_fixed_spec, normalize_fixed, Point, Vec3i};
use crate::vertex::{vertex_from, Vertex};
use crate::volume::{lemma_flat_index_in_range, lemma_neighbors_props, VoxelVolume};

/// Whether neighbor `a` comes strictly before neighbor `b` in the angular
/// order around `base`, measured against `plane`: the comparison
/// `dot(plane, a - base) / |a - base| < dot(plane, b - base) / |b - base|`
/// carried out exactly on integers (signs first, then squares).
pub open spec fn angle_lt(plane: Vec3i, base: Point, a: Point, b: Point) -> bool {
    let da = plane.spec_dot(a.spec_sub(base));
    let db = plane.spec_dot(b.spec_sub(base));
    let na = a.spec_sub(base).spec_dot(a.spec_sub(base));
    let nb = b.spec_sub(base).spec_dot(b.spec_sub(base));
    if da < 0 && db >= 0 {
        true
    } else if da >= 0 && db < 0 {
        false
    } else if da >= 0 {
        da * da * nb < db * db * na
    } else {
        da * da * nb > db * db * na
    }
}

/// The exact integer comparison behind the angular sort.
fn angle_less(plane: &Vec3i, base: &Point, a: &Point, b: &Point) -> (r: bool)
    requires
        plane.bounded(0x10000),
        base.in_range(),
        a.in_range(),
        b.in_range(),
        a.spec_sub(*base).bounded(2),
        b.spec_sub(*base).bounded(2),
    ensures
        r == angle_lt(*plane, *base, *a, *b),
{
    let ua = a.sub(base);
    let ub = b.sub(base);
    let da = plane.dot(&ua);
    let db = plane.dot(&ub);
    let na = ua.dot(&ua);
    let nb = ub.dot(&ub);
    proof {
        lemma_dot_small(*plane, ua);
        lemma_dot_small(*plane, ub);
        assert(0 <= na <= 12 && 0 <= nb <= 12) by (nonlinear_arith)
            requires
                na == ua.x * ua.x + ua.y * ua.y + ua.z * ua.z,
                nb == ub.x * ub.x + ub.y * ub.y + ub.z * ub.z,
                -2 <= ua.x <= 2,
                -2 <= ua.y <= 2,
                -2 <= ua.z <= 2,
                -2 <= ub.x <= 2,
                -2 <= ub.y <= 2,
                -2 <= ub.z <= 2,
        ;
        lemma_sq_small(da as int, nb as int);
        lemma_sq_small(db as int, na as int);
    }
    if da < 0 && db >= 0 {
        true
    } else if da >= 0 && db < 0 {
        false
    } else if da >= 0 {
        da * da * nb < db * db * na
    } else {
        da * da * nb > db * db * na
    }
}

/// A dot product of a `0x10000`-bounded vector with a `2`-bounded one is
/// small.
proof fn lemma_dot_small(p: Vec3i, u: Vec3i)
    requires
        p.bounded(0x10000),
        u.bounded(2),
    ensures
        -0x60000 <= p.spec_dot(u) <= 0x60000,
{
    assert(-0x60000 <= p.x * u.x + p.y * u.y + p.z * u.z <= 0x60000) by (nonlinear_arith)
        requires
            -0x10000 <= p.x <= 0x10000,
            -0x10000 <= p.y <= 0x10000,
            -0x10000 <= p.z <= 0x10000,
            -2 <= u.x <= 2,
            -2 <= u.y <= 2,
            -2 <= u.z <= 2,
    ;
}

/// The squared-dot comparison terms stay far inside `i64`.
proof fn lemma_sq_small(d: int, n: int)
    requires
        -0x60000 <= d <= 0x60000,
        0 <= n <= 12,
    ensures
        -0x1_0000_0000_0000 <= d * d * n <= 0x1_0000_0000_0000,
        0 <= d * d <= 0x1_0000_0000_0000,
{
    assert(0 <= d * d <= 0x2400_0000_0000 && d * d * n <= 0x1_0000_0000_0000
        && -0x1_0000_0000_0000 <= d * d * n) by (nonlinear_arith)
        requires
            -0x60000 <= d <= 0x60000,
            0 <= n <= 12,
    ;
}

/// Insert `v` into the already-sorted `s`, before the first member it
/// precedes angularly; ties keep the existing order.
pub open spec fn insert_sorted(
    v: Point, s: Seq<Point>, plane: Vec3i, base: Point) -> Seq<Point>
    decreases s.len(),
{
    if s.len() == 0 {
        seq![v]
    } else if angle_lt(plane, base, v, s[0]) {
        seq![v] + s
    } else {
        seq![s[0]] + insert_sorted(v, s.drop_first(), plane, base)
    }
}

/// Stable insertion sort by the angular order: members are inserted in
/// discovery order, so equal keys keep it.
pub open spec fn isort(s: Seq<Point>, plane: Vec3i, base: Point) -> Seq<Point>
    decreases s.len(),
{
    if s.len() == 0 {
        Seq::empty()
    } else {
        insert_sorted(s.last(), isort(s.drop_last(), plane, base), plane, base)
    }
}

/// Inserting at the first position whose member `v` precedes is what
/// `insert_sorted` does.
proof fn lemma_insert_sorted_at(v: Point, s: Seq<Point>, plane: Vec3i, base: Point, j: int)
    requires
        0 <= j <= s.len(),
        forall|jj: int| 0 <= jj < j ==> !angle_lt(plane, base, v, #[trigger] s[jj]),
        j < s.len() ==> angle_lt(plane, base, v, s[j]),
    ensures
        insert_sorted(v, s, plane, base) == s.take(j) + seq![v] + s.skip(j),
    decreases s.len(),
{
    if s.len() == 0 {
        assert(insert_sorted(v, s, plane, base) =~= s.take(j) + seq![v] + s.skip(j));
    } else if j == 0 {
        assert(insert_sorted(v, s, plane, base) =~= s.take(0) + seq![v] + s.skip(0));
    } else {
        assert(!angle_lt(plane, base, v, s[0]));
        let d = s.drop_first();
        assert forall|jj: int| 0 <= jj < j - 1 implies !angle_lt(plane, base, v, #[trigger] d[jj])
            by {
            assert(d[jj] == s[jj + 1]);
        }
        assert(j - 1 < d.len() ==> angle_lt(plane, base, v, d[j - 1]));
        lemma_insert_sorted_at(v, d, plane, base, j - 1);
        assert(seq![s[0]] + (d.take(j - 1) + seq![v] + d.skip(j - 1))
            =~= s.take(j) + seq![v] + s.skip(j));
    }
}

/// The position before the first member `v` precedes angularly.
#[verifier::loop_isolation(false)]
fn insert_position(r: &Vec<Point>, v: &Point, plane: &Vec3i, base: &Point) -> (j: usize)
    requires
        plane.bounded(0x10000),
        base.in_range(),
        v.in_range(),
        v.spec_sub(*base).bounded(2),
        forall|i: int| 0 <= i < r@.len() ==> (#[trigger] r@[i]).in_range()
            && r@[i].spec_sub(*base).bounded(2),
    ensures
        j <= r@.len(),
        forall|jj: int| 0 <= jj < j ==> !angle_lt(*plane, *base, *v, #[trigger] r@[jj]),
        j < r@.len() ==> angle_lt(*plane, *base, *v, r@[j as int]),
{
    let mut j: usize = 0;
    while j < r.len()
        invariant
            j <= r@.len(),
            forall|jj: int| 0 <= jj < j ==> !angle_lt(*plane, *base, *v, #[trigger] r@[jj]),
        decreases r@.len() - j,
    {
        if angle_less(plane, base, v, &r[j]) {
            return j;
        }
        j = j + 1;
    }
    j
}

/// Sort the ring members by the angular order, stably.
#[verifier::loop_isolation(false)]
fn sort_by_angle(input: &Vec<Point>, plane: &Vec3i, base: &Point) -> (r: Vec<Point>)
    requires
        plane.bounded(0x10000),
        base.in_range(),
        forall|i: int| 0 <= i < input@.len() ==> (#[trigger] input@[i]).in_range()
            && input@[i].spec_sub(*base).bounded(2),
    ensures
        r@ == isort(input@, *plane, *base),
{
    let mut r: Vec<Point> = Vec::new();
    let mut i: usize = 0;
    while i < input.len()
        invariant
            i <= input@.len(),
            r@ == isort(input@.take(i as int), *plane, *base),
            forall|k: int| 0 <= k < r@.len() ==> (#[trigger] r@[k]).in_range()
                && r@[k].spec_sub(*base).bounded(2),
        decreases input@.len() - i,
    {
        let v = input[i];
        let j = insert_position(&r, &v, plane, base);
        let ghost r_before = r@;
        r.insert(j, v);
        proof {
            lemma_insert_sorted_at(v, r_before, *plane, *base, j as int);
            assert(r@ =~= insert_sorted(v, r_before, *plane, *base));
            assert(input@.take(i + 1).drop_last() =~= input@.take(i as int));
            assert(input@.take(i + 1).last() == input@[i as int]);
        }
        i = i + 1;
    }
    proof {
        assert(input@.take(input@.len() as int) =~= input@);
    }
    r
}

/// The sum of the vectors from each ring member to the voxel: the outward
/// normal before normalization.
pub open spec fn diff_sum(p: Point, ring: Seq<Point>) -> Vec3i
    decreases ring.len(),
{
    if ring.len() == 0 {
        Vec3i { x: 0, y: 0, z: 0 }
    } else {
        diff_sum(p, ring.drop_last()).spec_add(p.spec_sub(ring.last()))
    }
}

/// The triangle fan over the sorted ring, from member `i` on: each triangle
/// is (voxel, ring[i-1], ring[i]), every corner carrying the voxel's normal.
pub open spec fn fan_from(p: Point, ring: Seq<Point>, n: Vec3i, i: int) -> Seq<Vertex>
    decreases ring.len() - i,
{
    if 1 <= i && i < ring.len() {
        seq![
            vertex_from(p, n, 0, 1),
            vertex_from(ring[i - 1], n, 1, 1),
            vertex_from(ring[i], n, 0, 0),
        ] + fan_from(p, ring, n, i + 1)
    } else {
        Seq::empty()
    }
}

/// Mark every ring member visited, in ring order.
pub open spec fn mark_from(v: VoxelVolume, vis: Seq<bool>, ring: Seq<Point>, i: int) -> Seq<bool>
    decreases ring.len() - i,
{
    if 0 <= i < ring.len() {
        let q = ring[i];
        mark_from(
            v, vis.update(v.flat_index(q.x as int, q.y as int, q.z as int), true), ring, i + 1)
    } else {
        vis
    }
}

/// What one cell of the scan does: nothing unless the cell is an unvisited
/// boundary voxel; otherwise mark its ring and itself visited and, when the
/// ring is non-empty, append the fan over the angularly sorted ring (the
/// first-found member stays the reference), each vertex carrying the voxel's
/// normalized outward normal. A ring of fewer than 2 members emits nothing.
pub open spec fn visit_cell(
    v: VoxelVolume, vis: Seq<bool>, out: Seq<Vertex>, x: int, y: int, z: int)
    -> (Seq<bool>, Seq<Vertex>) {
    if v.boundary(x, y, z) && !vis[v.flat_index(x, y, z)] {
        let p = Point { x: x as usize, y: y as usize, z: z as usize };
        let ring = v.neighbors_seq(x, y, z);
        let vis2 = mark_from(v, vis, ring, 0).update(v.flat_index(x, y, z), true);
        if ring.len() == 0 {
            (vis2, out)
        } else {
            let nsum = diff_sum(p, ring);
            let plane = nsum.spec_cross(ring[0].spec_sub(p));
            let sorted = seq![ring[0]] + isort(ring.drop_first(), plane, p);
            (vis2, out + fan_from(p, sorted, norm_fixed_spec(nsum), 1))
        }
    } else {
        (vis, out)
    }
}

/// The scan down one column.
pub open spec fn walk_z(
    v: VoxelVolume, vis: Seq<bool>, out: Seq<Vertex>, x: int, y: int, z: int)
    -> (Seq<bool>, Seq<Vertex>)
    decreases v.size_z - z,
{
    if z < v.size_z {
        let (vis2, out2) = visit_cell(v, vis, out, x, y, z);
        walk_z(v, vis2, out2, x, y, z + 1)
    } else {
        (vis, out)
    }
}

/// The scan over one slice.
pub open spec fn walk_y(
    v: VoxelVolume, vis: Seq<bool>, out: Seq<Vertex>, x: int, y: int)
    -> (Seq<bool>, Seq<Vertex>)
    decreases v.size_y - y,
{
    if y < v.size_y {
        let (vis2, out2) = walk_z(v, vis, out, x, y, 0);
        walk_y(v, vis2, out2, x, y + 1)
    } else {
        (vis, out)
    }
}

/// The scan over the whole volume, `x` slowest, `z` fastest.
pub open spec fn walk_x(
    v: VoxelVolume, vis: Seq<bool>, out: Seq<Vertex>, x: int) -> (Seq<bool>, Seq<Vertex>)
    decreases v.size_x - x,
{
    if x < v.size_x {
        let (vis2, out2) = walk_y(v, vis, out, x, 0);
        walk_x(v, vis2, out2, x + 1)
    } else {
        (vis, out)
    }
}

/// The fresh visited buffer: one flag per cell, all clear.
pub open spec fn init_visited(v: VoxelVolume) -> Seq<bool> {
    Seq::new((v.size_x * v.size_y * v.size_z) as nat, |i: int| false)
}

/// Everything the extractor appends after `out0`: the deterministic scan of
/// the whole volume.
pub open spec fn extracted(v: VoxelVolume, out0: Seq<Vertex>) -> Seq<Vertex> {
    walk_x(v, init_visited(v), out0, 0).1
}

/// One cell of the extraction scan.
#[verifier::loop_isolation(false)]
fn visit_cell_exec(
    volume: &VoxelVolume, visited: &mut Vec<bool>, shape: &mut Vec<Vertex>,
    x: usize, y: usize, z: usize)
    requires
        volume.wf(),
        old(visited)@.len() == volume.size_x * volume.size_y * volume.size_z,
        x < volume.size_x,
        y < volume.size_y,
        z < volume.size_z,
    ensures
        (final(visited)@, final(shape)@)
            == visit_cell(*volume, old(visited)@, old(shape)@, x as int, y as int, z as int),
        final(visited)@.len() == old(visited)@.len(),
{
    if !volume.is_boundary(x, y, z) {
        return;
    }
    proof {
        lemma_flat_index_in_range(*volume, x as int, y as int, z as int);
        crate::volume::lemma_plane_small(volume.size_x as int, volume.size_y as int);
    }
    let idx: usize = x + y * volume.size_x + z * (volume.size_x * volume.size_y);
    if visited[idx] {
        return;
    }
    let p = Point::new(x, y, z);
    let ring = volume.occupied_neighbors(x, y, z);
    proof {
        lemma_neighbors_props(*volume, x as int, y as int, z as int, 0);
    }
    let ghost vis0 = visited@;
    let ghost ringv = ring@;
    // mark the ring visited
    let mut i: usize = 0;
    while i < ring.len()
        invariant
            i <= ringv.len(),
            visited@.len() == vis0.len(),
            mark_from(*volume, vis0, ringv, 0) == mark_from(*volume, visited@, ringv, i as int),
        decreases ringv.len() - i,
    {
        let q = ring[i];
        proof {
            lemma_flat_index_in_range(
                *volume, q.x as int, q.y as int, q.z as int);
        }
        let qidx: usize = q.x + q.y * volume.size_x + q.z * (volume.size_x * volume.size_y);
        visited.set(qidx, true);
        i = i + 1;
    }
    // mark the voxel itself visited
    visited.set(idx, true);
    let ghost vis_marked = visited@;
    proof {
        assert(vis_marked == mark_from(*volume, vis0, ringv, 0).update(
            volume.flat_index(x as int, y as int, z as int), true));
    }
    if ring.len() == 0 {
        return;
    }
    // outward normal: the sum of (voxel - neighbor)
    let mut nsum = Vec3i { x: 0, y: 0, z: 0 };
    let mut i2: usize = 0;
    while i2 < ring.len()
        invariant
            i2 <= ringv.len(),
            nsum == diff_sum(p, ringv.take(i2 as int)),
            nsum.bounded(i2 as int),
        decreases ringv.len() - i2,
    {
        let d = p.sub(&ring[i2]);
        nsum = nsum.add(&d);
        proof {
            assert(ringv.take(i2 + 1).drop_last() =~= ringv.take(i2 as int));
            assert(ringv.take(i2 + 1).last() == ringv[i2 as int]);
        }
        i2 = i2 + 1;
    }
    proof {
        assert(ringv.take(ringv.len() as int) =~= ringv);
        assert(ringv.len() <= 27);
    }
    let rv = ring[0].sub(&p);
    let plane = nsum.cross(&rv);
    proof {
        crate::geometry::lemma_cross_bounded(nsum, rv, 27);
        assert(plane.bounded(0x10000));
    }
    let nfix = normalize_fixed(&nsum);
    // the ring members after the reference, sorted angularly
    let mut rest: Vec<Point> = Vec::new();
    let mut i3: usize = 1;
    while i3 < ring.len()
        invariant
            1 <= i3 <= ringv.len(),
            rest@ == ringv.subrange(1, i3 as int),
        decreases ringv.len() - i3,
    {
        rest.push(ring[i3]);
        i3 = i3 + 1;
    }
    proof {
        assert(rest@ =~= ringv.drop_first());
        assert forall|i4: int|
            0 <= i4 < rest@.len() implies (#[trigger] rest@[i4]).in_range()
                && rest@[i4].spec_sub(p).bounded(2) by {
            assert(rest@[i4] == ringv[i4 + 1]);
        }
    }
    let sorted_rest = sort_by_angle(&rest, &plane, &p);
    let mut ring_sorted: Vec<Point> = Vec::new();
    ring_sorted.push(ring[0]);
    let mut i5: usize = 0;
    let n_rest = sorted_rest.len();
    while i5 < n_rest
        invariant
            i5 <= sorted_rest@.len(),
            n_rest == sorted_rest@.len(),
            ring_sorted@ == seq![ringv[0]] + sorted_rest@.take(i5 as int),
        decreases n_rest - i5,
    {
        ring_sorted.push(sorted_rest[i5]);
        i5 = i5 + 1;
    }
    let ghost sortedv = seq![ringv[0]] + isort(ringv.drop_first(), plane, p);
    proof {
        assert(sorted_rest@.take(sorted_rest@.len() as int) =~= sorted_rest@);
        assert(ring_sorted@ == sortedv);
    }
    // the fan
    let ghost out_mid = shape@;
    let mut i6: usize = 1;
    let n_sorted = ring_sorted.len();
    while i6 < n_sorted
        invariant
            1 <= i6,
            n_sorted == ring_sorted@.len(),
            ring_sorted@ == sortedv,
            out_mid + fan_from(p, sortedv, nfix, 1)
                == shape@ + fan_from(p, sortedv, nfix, i6 as int),
        decreases n_sorted - i6,
    {
        shape.push(Vertex::new(&p, &nfix, 0, 1));
        shape.push(Vertex::new(&ring_sorted[i6 - 1], &nfix, 1, 1));
        shape.push(Vertex::new(&ring_sorted[i6], &nfix, 0, 0));
        i6 = i6 + 1;
    }
    proof {
        assert(fan_from(p, sortedv, nfix, i6 as int) =~= Seq::<Vertex>::empty());
        assert(shape@ =~= out_mid + fan_from(p, sortedv, nfix, 1));
        assert((visited@, shape@) == visit_cell(
            *volume, vis0, out_mid, x as int, y as int, z as int));
    }
}

/// Walk the whole volume in coordinate order and append the extracted
/// surface to `shape`: for every boundary voxel not already consumed as a
/// neighbor of an earlier one, a triangle fan over its angularly sorted
/// occupied-neighbor ring, every vertex carrying the voxel's outward normal.
#[verifier::loop_isolation(false)]
pub fn add_vertices(volume: &VoxelVolume, shape: &mut Vec<Vertex>)
    requires
        volume.wf(),
    ensures
        final(shape)@ == extracted(*volume, old(shape)@),
{
    proof {
        crate::volume::lemma_plane_small(volume.size_x as int, volume.size_y as int);
    }
    let total: usize = (volume.size_x * volume.size_y) * volume.size_z;
    let mut visited: Vec<bool> = Vec::new();
    let mut i: usize = 0;
    while i < total
        invariant
            i <= total,
            visited@.len() == i,
            forall|j: int| 0 <= j < i ==> !(#[trigger] visited@[j]),
        decreases total - i,
    {
        visited.push(false);
        i = i + 1;
    }
    proof {
        assert(visited@ =~= init_visited(*volume));
    }
    let ghost vis0 = visited@;
    let ghost out0 = shape@;
    let mut x: usize = 0;
    while x < volume.size_x
        invariant
            x <= volume.size_x,
            visited@.len() == vis0.len(),
            walk_x(*volume, vis0, out0, 0) == walk_x(*volume, visited@, shape@, x as int),
        decreases volume.size_x - x,
    {
        let ghost vis_x = visited@;
        let ghost out_x = shape@;
        let mut y: usize = 0;
        while y < volume.size_y
            invariant
                x < volume.size_x,
                y <= volume.size_y,
                visited@.len() == vis0.len(),
                walk_y(*volume, vis_x, out_x, x as int, 0)
                    == walk_y(*volume, visited@, shape@, x as int, y as int),
            decreases volume.size_y - y,
        {
            let ghost vis_y = visited@;
            let ghost out_y = shape@;
            let mut z: usize = 0;
            while z < volume.size_z
                invariant
                    x < volume.size_x,
                    y < volume.size_y,
                    z <= volume.size_z,
                    visited@.len() == vis0.len(),
                    walk_z(*volume, vis_y, out_y, x as int, y as int, 0)
                        == walk_z(*volume, visited@, shape@, x as int, y as int, z as int),
                decreases volume.size_z - z,
            {
                visit_cell_exec(volume, &mut visited, shape, x, y, z);
                z = z + 1;
            }
            y = y + 1;
        }
        x = x + 1;
    }
}

} // verus!
