//! Tests of the integer geometry, the unordered triangles and edges, and the
//! mesh-adjacency structure.

use voxel_terrain::geometry::{isqrt, normalize_fixed, Point, Vec3i, NORMAL_FP};
use voxel_terrain::mesh::{Edge, Mesh, Triangle};
use voxel_terrain::vertex::Vertex;

#[test]
fn isqrt_exact_and_floor() {
    assert_eq!(isqrt(0), 0);
    assert_eq!(isqrt(1), 1);
    assert_eq!(isqrt(3), 1);
    assert_eq!(isqrt(4), 2);
    assert_eq!(isqrt(10), 3);
    assert_eq!(isqrt(144), 12);
    assert_eq!(isqrt(145), 12);
    assert_eq!(isqrt(u64::MAX as u128), 4294967295);
}

#[test]
fn normalize_axis_vector() {
    let v = Vec3i { x: 0, y: 0, z: 5 };
    let n = normalize_fixed(&v);
    assert_eq!(n, Vec3i { x: 0, y: 0, z: NORMAL_FP });
}

#[test]
fn normalize_zero_vector_falls_back_up() {
    let v = Vec3i { x: 0, y: 0, z: 0 };
    let n = normalize_fixed(&v);
    assert_eq!(n, Vec3i { x: 0, y: 0, z: NORMAL_FP });
}

#[test]
fn normalize_diagonal_has_unit_length() {
    let v = Vec3i { x: 3, y: -4, z: 0 };
    let n = normalize_fixed(&v);
    // 3-4-5 triangle: components are exactly 3/5 and -4/5 of the scale
    assert_eq!(n.x, NORMAL_FP * 3 / 5);
    assert_eq!(n.y, -(NORMAL_FP * 4 / 5));
    assert_eq!(n.z, 0);
}

#[test]
fn triangle_equality_ignores_point_order() {
    let a = Point { x: 0, y: 0, z: 0 };
    let b = Point { x: 1, y: 0, z: 0 };
    let c = Point { x: 0, y: 1, z: 0 };
    let t1 = Triangle::new(&[a, b, c]);
    let t2 = Triangle::new(&[c, a, b]);
    let t3 = Triangle::new(&[b, a, c]);
    let t4 = Triangle::new(&[c, b, a]);
    assert!(t1 == t2);
    assert!(t1 == t3);
    assert!(t1 == t4);
    let d = Point { x: 2, y: 2, z: 2 };
    let t5 = Triangle::new(&[a, b, d]);
    assert!(t1 != t5);
}

#[test]
fn edge_equality_ignores_point_order() {
    let a = Point { x: 4, y: 5, z: 6 };
    let b = Point { x: 1, y: 2, z: 3 };
    let e1 = Edge::new(&a, &b);
    let e2 = Edge::new(&b, &a);
    assert!(e1 == e2);
    let c = Point { x: 9, y: 9, z: 9 };
    let e3 = Edge::new(&a, &c);
    assert!(e1 != e3);
}

#[test]
fn single_triangle_vertices_carry_face_normal() {
    // one unit triangle in the z = 0 plane: three vertices come out, each
    // carrying the triangle's own face normal (nothing to average against)
    let a = Point { x: 0, y: 0, z: 0 };
    let b = Point { x: 1, y: 0, z: 0 };
    let c = Point { x: 0, y: 1, z: 0 };
    let mut mesh = Mesh::new();
    mesh.add_triangle(&[a, b, c]);
    let t = Triangle::new(&[a, b, c]);
    let face = t.get_normal();
    let verts = mesh.get_vertices();
    assert_eq!(verts.len(), 3);
    for v in &verts {
        assert_eq!(v.normal, face);
    }
    // cross((1,0,0), (0,1,0)) points along +z
    assert_eq!(face, Vec3i { x: 0, y: 0, z: NORMAL_FP });
}

#[test]
fn re_adding_an_equal_triangle_changes_nothing() {
    let a = Point { x: 0, y: 0, z: 0 };
    let b = Point { x: 1, y: 0, z: 0 };
    let c = Point { x: 0, y: 1, z: 0 };
    let mut mesh = Mesh::new();
    mesh.add_triangle(&[a, b, c]);
    mesh.add_triangle(&[c, a, b]);
    mesh.add_triangle(&[b, c, a]);
    let verts = mesh.get_vertices();
    assert_eq!(verts.len(), 3);
}

#[test]
fn two_triangles_share_smoothed_normals() {
    // two faces of a tent sharing the ridge edge: the shared points' normals
    // average the two face normals
    let a = Point { x: 0, y: 0, z: 0 };
    let b = Point { x: 2, y: 0, z: 0 };
    let c = Point { x: 1, y: 1, z: 1 };
    let d = Point { x: 1, y: 2, z: 0 };
    let mut mesh = Mesh::new();
    mesh.add_triangle(&[a, b, c]);
    mesh.add_triangle(&[b, d, c]);
    let verts = mesh.get_vertices();
    assert_eq!(verts.len(), 6);
    let t1 = Triangle::new(&[a, b, c]);
    // corner a belongs to only the first triangle: its normal is that face's
    assert_eq!(verts[0].normal, t1.get_normal());
    // corner b belongs to both: its normal differs from either face normal
    let t2 = Triangle::new(&[b, d, c]);
    assert!(verts[1].normal != t1.get_normal() || t1.get_normal() == t2.get_normal());
}

#[test]
fn vertex_swaps_vertical_axis() {
    let p = Point { x: 3, y: 7, z: 11 };
    let n = Vec3i { x: 0, y: 0, z: NORMAL_FP };
    let v = Vertex::new(&p, &n, 1, 0);
    assert_eq!(v.position, Point { x: 3, y: 11, z: 7 });
    assert_eq!(v.normal, n);
    assert_eq!(v.tex_u, 1);
    assert_eq!(v.tex_v, 0);
}
