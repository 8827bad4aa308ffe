//! Surface voxelization: scan ranges, the separating-axis test, error
//! handling, and order independence.
//!
//! World coordinates are fixed-point: these tests use 1024 units per world
//! unit unless noted otherwise.

use meshvox::{Cell, Triangle, Vector3, Voxels, VoxelizeError, AABB};

/// Cube mesh spanning [lo, hi] on every axis: 8 vertices, 12 triangles.
fn cube_mesh(lo: i64, hi: i64) -> (Vec<[i64; 3]>, Vec<usize>) {
    let vertices = vec![
        [lo, lo, lo],
        [hi, lo, lo],
        [hi, hi, lo],
        [lo, hi, lo],
        [lo, lo, hi],
        [hi, lo, hi],
        [hi, hi, hi],
        [lo, hi, hi],
    ];
    let indices = vec![
        0, 1, 2, 0, 2, 3, // z = lo
        4, 6, 5, 4, 7, 6, // z = hi
        0, 5, 1, 0, 4, 5, // y = lo
        3, 2, 6, 3, 6, 7, // y = hi
        0, 3, 7, 0, 7, 4, // x = lo
        1, 5, 6, 1, 6, 2, // x = hi
    ];
    (vertices, indices)
}

fn occupied(v: &Voxels) -> Vec<(i64, i64, i64)> {
    let mut cells: Vec<(i64, i64, i64)> = v
        .cell_list()
        .iter()
        .map(|c| (c.x, c.y, c.z))
        .collect();
    cells.sort();
    cells
}

#[test]
fn unit_cube_one_cell() {
    // A unit cube kept strictly inside one grid cell occupies exactly that
    // cell: corners at 1 and 1023, step 1024 (1.0 world units).
    let (vertices, indices) = cube_mesh(1, 1023);
    let v = Voxels::voxelize(&vertices, &indices, 1024).unwrap();
    assert_eq!(occupied(&v), vec![(0, 0, 0)]);
}

#[test]
fn unit_cube_reconstruction_twelve_triangles() {
    let (vertices, indices) = cube_mesh(1, 1023);
    let v = Voxels::voxelize(&vertices, &indices, 1024).unwrap();
    let (verts, inds) = v.vertices_indices();
    // 6 faces, 2 triangles each, 3 vertices per triangle
    assert_eq!(verts.len(), 36);
    assert_eq!(inds, (0..36).collect::<Vec<usize>>());
}

#[test]
fn cube_on_boundaries_touches_neighbors() {
    // Overlap is boundary-inclusive: a cube lying exactly on cell boundaries
    // also touches the cells of the next layer inside the scan range.
    let (vertices, indices) = cube_mesh(0, 1024);
    let v = Voxels::voxelize(&vertices, &indices, 1024).unwrap();
    // scan range is 0..=1 per axis and every candidate box touches a face
    assert_eq!(v.len(), 8);
    for x in 0..2 {
        for y in 0..2 {
            for z in 0..2 {
                assert!(v.contains(&Cell::new(x, y, z)));
            }
        }
    }
}

#[test]
fn no_false_positives_brute_force() {
    // Every cell kept by the per-triangle voxelizer passes an independent
    // run of the separating-axis test on its world box.
    let p1 = Vector3::new(100, 200, 300);
    let p2 = Vector3::new(1900, 700, 500);
    let p3 = Vector3::new(800, 1800, 1700);
    let tri = Triangle::new(&p1, &p2, &p3);
    let step: i64 = 256;
    let cells = tri.voxelize(step, 0);
    assert!(!cells.is_empty());
    for c in &cells {
        let aabb = AABB {
            min: Vector3::new((c.x * step) as i128, (c.y * step) as i128, (c.z * step) as i128),
            max: Vector3::new(
                (c.x * step + step) as i128,
                (c.y * step + step) as i128,
                (c.z * step + step) as i128,
            ),
        };
        assert!(meshvox::triangle_aabb_intersects(&tri, &aabb));
    }
}

#[test]
fn no_false_negatives_exhaustive_scan() {
    // Every cell of the scan range whose box passes the separating-axis test
    // is present: compare the voxelizer against an exhaustive scan.
    let p1 = Vector3::new(50, 60, 70);
    let p2 = Vector3::new(2000, 100, 900);
    let p3 = Vector3::new(900, 1700, 100);
    let tri = Triangle::new(&p1, &p2, &p3);
    let step: i64 = 512;
    let cells = tri.voxelize(step, 0);
    let (lo, hi) = tri.grid_aabb(step);
    let mut expected = 0usize;
    for x in lo.x..hi.x + 1 {
        for y in lo.y..hi.y + 1 {
            for z in lo.z..hi.z + 1 {
                let aabb = AABB {
                    min: Vector3::new(
                        (x * step) as i128,
                        (y * step) as i128,
                        (z * step) as i128,
                    ),
                    max: Vector3::new(
                        (x * step + step) as i128,
                        (y * step + step) as i128,
                        (z * step + step) as i128,
                    ),
                };
                let hit = meshvox::triangle_aabb_intersects(&tri, &aabb);
                if hit {
                    expected += 1;
                }
                assert_eq!(hit, cells.iter().any(|c| c.x == x && c.y == y && c.z == z));
            }
        }
    }
    assert_eq!(cells.len(), expected);
}

#[test]
fn axis_aligned_thin_triangle() {
    // A triangle lying exactly in the grid plane x = 2*step is kept by the
    // cells of column x = 2 that it crosses.
    let step: i64 = 1024;
    let p1 = Vector3::new(2048, 100, 100);
    let p2 = Vector3::new(2048, 1900, 100);
    let p3 = Vector3::new(2048, 100, 1900);
    let tri = Triangle::new(&p1, &p2, &p3);
    let cells = tri.voxelize(step, 0);
    assert!(!cells.is_empty());
    for c in &cells {
        assert_eq!(c.x, 2);
    }
    assert!(cells.iter().any(|c| c.y == 0 && c.z == 0));
    assert!(cells.iter().any(|c| c.y == 1 && c.z == 0));
    assert!(cells.iter().any(|c| c.y == 0 && c.z == 1));
}

#[test]
fn degenerate_point_triangle() {
    // A zero-area triangle projects to zero on every tested axis, so it is
    // reported overlapping with every cell of its (one cell plus padding)
    // scan range.
    let p = Vector3::new(512, 512, 512);
    let tri = Triangle::new(&p, &p, &p);
    let cells = tri.voxelize(1024, 0);
    assert!(cells.iter().any(|c| c.x == 0 && c.y == 0 && c.z == 0));
    for c in &cells {
        assert!(0 <= c.x && c.x <= 1);
        assert!(0 <= c.y && c.y <= 1);
        assert!(0 <= c.z && c.z <= 1);
    }
}

#[test]
fn order_independence_permuted_faces() {
    let (vertices, indices) = cube_mesh(1, 2047);
    // permute the faces: reverse the order of the 12 index triples
    let mut permuted = Vec::new();
    for f in (0..indices.len() / 3).rev() {
        permuted.push(indices[3 * f]);
        permuted.push(indices[3 * f + 1]);
        permuted.push(indices[3 * f + 2]);
    }
    let a = Voxels::voxelize(&vertices, &indices, 512).unwrap();
    let b = Voxels::voxelize(&vertices, &permuted, 512).unwrap();
    assert_eq!(occupied(&a), occupied(&b));
}

#[test]
fn zero_step_fails_fast() {
    let (vertices, indices) = cube_mesh(0, 1024);
    let r = Voxels::voxelize(&vertices, &indices, 0);
    assert_eq!(r.unwrap_err(), VoxelizeError::InvalidStep);
}

#[test]
fn negative_step_fails_fast() {
    let (vertices, indices) = cube_mesh(0, 1024);
    let r = Voxels::voxelize(&vertices, &indices, -5);
    assert_eq!(r.unwrap_err(), VoxelizeError::InvalidStep);
}

#[test]
fn index_out_of_range_fails_fast() {
    let (vertices, mut indices) = cube_mesh(0, 1024);
    indices[5] = 8; // only vertices 0..=7 exist
    let r = Voxels::voxelize(&vertices, &indices, 1024);
    assert_eq!(r.unwrap_err(), VoxelizeError::InvalidIndices);
}

#[test]
fn ragged_index_list_fails_fast() {
    let (vertices, mut indices) = cube_mesh(0, 1024);
    indices.pop();
    let r = Voxels::voxelize(&vertices, &indices, 1024);
    assert_eq!(r.unwrap_err(), VoxelizeError::InvalidIndices);
}

#[test]
fn oversized_coordinate_fails_fast() {
    let (mut vertices, indices) = cube_mesh(0, 1024);
    vertices[3] = [meshvox::COORD_LIMIT + 1, 0, 0];
    let r = Voxels::voxelize(&vertices, &indices, 1024);
    assert_eq!(r.unwrap_err(), VoxelizeError::CoordinateOverflow);
}

#[test]
fn new_merges_duplicates() {
    let cells = vec![
        Cell::new(1, 2, 3),
        Cell::new(4, 5, 6),
        Cell::new(1, 2, 3),
    ];
    let v = Voxels::new(&cells, 10).unwrap();
    assert_eq!(v.len(), 2);
    assert_eq!(v.step(), 10);
    assert!(v.contains(&Cell::new(1, 2, 3)));
    assert!(v.contains(&Cell::new(4, 5, 6)));
    assert!(!v.contains(&Cell::new(0, 0, 0)));
}

#[test]
fn new_rejects_bad_input() {
    let cells = vec![Cell::new(0, 0, 0)];
    assert_eq!(Voxels::new(&cells, 0).unwrap_err(), VoxelizeError::InvalidStep);
    let far = vec![Cell::new(meshvox::GRID_LIMIT + 1, 0, 0)];
    assert_eq!(
        Voxels::new(&far, 10).unwrap_err(),
        VoxelizeError::CoordinateOverflow
    );
}

#[test]
fn min_max_extremes_and_empty() {
    let empty = Voxels::new(&Vec::new(), 7).unwrap();
    assert!(empty.min_max().is_none());
    let cells = vec![
        Cell::new(-3, 9, 1),
        Cell::new(5, -2, 1),
        Cell::new(0, 0, 8),
    ];
    let v = Voxels::new(&cells, 7).unwrap();
    let (lo, hi) = v.min_max().unwrap();
    assert_eq!((lo.x, lo.y, lo.z), (-3, -2, 1));
    assert_eq!((hi.x, hi.y, hi.z), (5, 9, 8));
}

#[test]
fn point_cloud_scales_cells() {
    let cells = vec![Cell::new(2, -1, 0), Cell::new(0, 3, 5)];
    let v = Voxels::new(&cells, 100).unwrap();
    let mut points = v.point_cloud();
    points.sort();
    assert_eq!(points, vec![[0, 300, 500], [200, -100, 0]]);
}
