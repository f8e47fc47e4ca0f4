//! Tests of the height-field generator, the voxel volume, and the terrain
//! model.

use voxel_terrain::height_field::{generate_hight_map, generate_hight_map_from, is_valid_grid_size};
use voxel_terrain::terrain::Terrain;
use voxel_terrain::volume::VoxelVolume;

#[test]
fn valid_grid_sizes() {
    assert!(is_valid_grid_size(3));
    assert!(is_valid_grid_size(5));
    assert!(is_valid_grid_size(9));
    assert!(is_valid_grid_size(257));
    assert!(is_valid_grid_size(4097));
    assert!(!is_valid_grid_size(0));
    assert!(!is_valid_grid_size(1));
    assert!(!is_valid_grid_size(2));
    assert!(!is_valid_grid_size(4));
    assert!(!is_valid_grid_size(6));
    assert!(!is_valid_grid_size(256));
}

#[test]
fn generate_shape_and_range() {
    let size = 17;
    let hm = generate_hight_map(size);
    assert_eq!(hm.len(), size);
    for row in &hm {
        assert_eq!(row.len(), size);
        for &h in row {
            assert!(h < size);
        }
    }
}

#[test]
fn generate_from_is_deterministic() {
    let perturb: Vec<i64> = vec![17, -300, 4096, -4096, 0, 2048, 99, -1];
    let a = generate_hight_map_from(9, &perturb);
    let b = generate_hight_map_from(9, &perturb);
    assert_eq!(a, b);
}

#[test]
fn generate_zero_perturbations_is_midpoint_averaging() {
    // with all-zero perturbations the algorithm reduces to plain averaging:
    // every cell keeps the seed value 2.5, which rounds to 3
    let perturb: Vec<i64> = vec![0];
    let hm = generate_hight_map_from(5, &perturb);
    assert_eq!(hm.len(), 5);
    for row in &hm {
        for &h in row {
            assert_eq!(h, 3);
        }
    }
    // corners keep the seed value, and the center is their average
    let corners = [hm[0][0], hm[0][4], hm[4][0], hm[4][4]];
    let avg = (corners[0] + corners[1] + corners[2] + corners[3]) / 4;
    assert_eq!(hm[2][2], avg);
}

#[test]
fn fill_marks_columns_inclusive() {
    let mut v = VoxelVolume::new(2, 2, 4);
    let hf = vec![vec![0, 2], vec![1, 3]];
    v.fill_from_height_field(&hf);
    // hf[y][x] gives the column height of (x, y); z in [0, height] occupied
    assert!(v.is_occupied(0, 0, 0));
    assert!(!v.is_occupied(0, 0, 1));
    assert!(v.is_occupied(1, 0, 2));
    assert!(!v.is_occupied(1, 0, 3));
    assert!(v.is_occupied(0, 1, 1));
    assert!(!v.is_occupied(0, 1, 2));
    assert!(v.is_occupied(1, 1, 3));
    // out of range is never occupied
    assert!(!v.is_occupied(2, 0, 0));
    assert!(!v.is_occupied(0, 2, 0));
    assert!(!v.is_occupied(0, 0, 4));
}

#[test]
fn fill_twice_is_idempotent() {
    let hf = vec![vec![0, 2], vec![1, 3]];
    let mut once = VoxelVolume::new(2, 2, 4);
    once.fill_from_height_field(&hf);
    let mut twice = VoxelVolume::new(2, 2, 4);
    twice.fill_from_height_field(&hf);
    twice.fill_from_height_field(&hf);
    for x in 0..2 {
        for y in 0..2 {
            for z in 0..4 {
                assert_eq!(once.is_occupied(x, y, z), twice.is_occupied(x, y, z));
            }
        }
    }
}

#[test]
fn solid_cube_boundary_is_perimeter() {
    // a 3x3x3 fully solid volume: the 26 perimeter voxels are boundary
    // voxels, the single interior voxel is not
    let mut v = VoxelVolume::new(3, 3, 3);
    let hf = vec![vec![2, 2, 2], vec![2, 2, 2], vec![2, 2, 2]];
    v.fill_from_height_field(&hf);
    let mut boundary_count = 0;
    for x in 0..3 {
        for y in 0..3 {
            for z in 0..3 {
                if v.is_boundary(x, y, z) {
                    boundary_count += 1;
                }
            }
        }
    }
    assert_eq!(boundary_count, 26);
    assert!(!v.is_boundary(1, 1, 1));
}

#[test]
fn center_voxel_is_boundary_with_empty_ring() {
    // a 3x3x3 volume with only the center voxel occupied: it is a boundary
    // voxel, its occupied-neighbor ring is empty, and extraction emits no
    // triangle for it
    let mut v = VoxelVolume::new(3, 3, 3);
    v.voxels[1 + 1 * 3 + 1 * 9] = true;
    assert!(v.is_boundary(1, 1, 1));
    assert!(v.occupied_neighbors(1, 1, 1).is_empty());
    let mut shape = Vec::new();
    voxel_terrain::extract::add_vertices(&v, &mut shape);
    assert!(shape.is_empty());
}

#[test]
fn occupying_a_neighbor_keeps_enclosed_voxel_enclosed() {
    // monotonicity: the center of a solid cube is not a boundary voxel, and
    // occupying a previously empty diagonal neighbor cannot change that
    let mut v = VoxelVolume::new(3, 3, 3);
    let hf = vec![vec![2, 2, 2], vec![2, 2, 2], vec![2, 2, 2]];
    v.fill_from_height_field(&hf);
    v.voxels[0] = false; // corner (0, 0, 0) unoccupied
    assert!(v.is_occupied(1, 1, 1));
    assert!(!v.is_boundary(1, 1, 1));
    v.voxels[0] = true; // flip the corner back to occupied
    assert!(!v.is_boundary(1, 1, 1));
}

#[test]
fn occupied_neighbors_full_neighborhood() {
    let mut v = VoxelVolume::new(3, 3, 3);
    let hf = vec![vec![2, 2, 2], vec![2, 2, 2], vec![2, 2, 2]];
    v.fill_from_height_field(&hf);
    // the center sees all 26 neighbors, a corner sees 7
    assert_eq!(v.occupied_neighbors(1, 1, 1).len(), 26);
    assert_eq!(v.occupied_neighbors(0, 0, 0).len(), 7);
}

#[test]
fn terrain_caches_vertices() {
    let mut t = Terrain::new(5);
    let first = t.get_vertices();
    assert!(!first.is_empty());
    assert_eq!(first.len() % 3, 0);
    let second = t.get_vertices();
    assert_eq!(first, second);
}

#[test]
fn extraction_is_deterministic_per_volume() {
    let mut v = VoxelVolume::new(3, 3, 3);
    let hf = vec![vec![2, 2, 2], vec![2, 2, 2], vec![2, 2, 2]];
    v.fill_from_height_field(&hf);
    let mut a = Vec::new();
    voxel_terrain::extract::add_vertices(&v, &mut a);
    let mut b = Vec::new();
    voxel_terrain::extract::add_vertices(&v, &mut b);
    assert!(!a.is_empty());
    assert_eq!(a.len() % 3, 0);
    assert_eq!(a, b);
}

#[test]
fn extraction_of_a_flat_quad() {
    // a 2x2x1 solid slab: the scan reaches (0, 0, 0) first, consumes all
    // four voxels as one fan over the ring [(0,1,0), (1,0,0), (1,1,0)]
    // (discovery order; all angular keys tie, so the order is kept), and
    // emits exactly two triangles
    let mut v = VoxelVolume::new(2, 2, 1);
    let hf = vec![vec![0, 0], vec![0, 0]];
    v.fill_from_height_field(&hf);
    let mut shape = Vec::new();
    voxel_terrain::extract::add_vertices(&v, &mut shape);
    assert_eq!(shape.len(), 6);
    // positions come out with the vertical fill axis swapped into the middle
    let pos: Vec<(usize, usize, usize)> = shape
        .iter()
        .map(|w| (w.position.x, w.position.y, w.position.z))
        .collect();
    assert_eq!(
        pos,
        vec![
            (0, 0, 0),
            (0, 0, 1),
            (1, 0, 0),
            (0, 0, 0),
            (1, 0, 0),
            (1, 0, 1),
        ]
    );
    // every vertex carries the voxel's outward normal, away from the mass
    let n = shape[0].normal;
    assert!(n.x < 0 && n.y < 0 && n.z == 0);
    for w in &shape {
        assert_eq!(w.normal, n);
    }
    // texture coordinates cycle by corner slot
    assert_eq!((shape[0].tex_u, shape[0].tex_v), (0, 1));
    assert_eq!((shape[1].tex_u, shape[1].tex_v), (1, 1));
    assert_eq!((shape[2].tex_u, shape[2].tex_v), (0, 0));
}
