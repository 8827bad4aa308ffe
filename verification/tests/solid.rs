//! Interior fill and face-culled reconstruction on closed meshes.

use meshvox::{Cell, Voxels};

/// Cube mesh spanning [lo, hi] on every axis: 8 vertices, 12 triangles.
fn cube_mesh(lo: i64, hi: i64) -> (Vec<[i64; 3]>, Vec<usize>) {
    let vertices = vec![
        [lo, lo, lo],
        [hi, lo, lo],
        [hi, hi, lo],
        [lo, hi, lo],
        [lo, lo, hi],
        [hi, lo, hi],
        [hi, hi, hi],
        [lo, hi, hi],
    ];
    let indices = vec![
        0, 1, 2, 0, 2, 3, // z = lo
        4, 6, 5, 4, 7, 6, // z = hi
        0, 5, 1, 0, 4, 5, // y = lo
        3, 2, 6, 3, 6, 7, // y = hi
        0, 3, 7, 0, 7, 4, // x = lo
        1, 5, 6, 1, 6, 2, // x = hi
    ];
    (vertices, indices)
}

fn occupied(v: &Voxels) -> Vec<(i64, i64, i64)> {
    let mut cells: Vec<(i64, i64, i64)> = v
        .cell_list()
        .iter()
        .map(|c| (c.x, c.y, c.z))
        .collect();
    cells.sort();
    cells
}

#[test]
fn fill_cube_interior() {
    // Cube [0, 4096] at step 1024: the surface occupies every cell of the
    // 5x5x5 scan block that touches a face plane (all cells with some
    // coordinate 0 or 4), and fill adds the 3x3x3 enclosed block.
    let (vertices, indices) = cube_mesh(0, 4096);
    let mut v = Voxels::voxelize(&vertices, &indices, 1024).unwrap();
    assert_eq!(v.len(), 125 - 27);
    v.fill();
    assert_eq!(v.len(), 125);
    for x in 1..4 {
        for y in 1..4 {
            for z in 1..4 {
                assert!(v.contains(&Cell::new(x, y, z)));
            }
        }
    }
}

#[test]
fn fill_is_idempotent_on_cube() {
    let (vertices, indices) = cube_mesh(0, 4096);
    let mut v = Voxels::voxelize(&vertices, &indices, 1024).unwrap();
    v.fill();
    let once = occupied(&v);
    v.fill();
    assert_eq!(occupied(&v), once);
}

#[test]
fn fill_never_removes_cells() {
    let (vertices, indices) = cube_mesh(3, 3900);
    let mut v = Voxels::voxelize(&vertices, &indices, 512).unwrap();
    let before = occupied(&v);
    v.fill();
    let after = occupied(&v);
    assert!(after.len() >= before.len());
    for c in &before {
        assert!(after.contains(c));
    }
}

#[test]
fn filled_volume_approximates_cube_volume() {
    // Analytic volume of the cube is 4^3 = 64 cells; boundary-touching cells
    // inflate the filled block to at most (4+1)^3 = 125 cells at this
    // resolution.
    let (vertices, indices) = cube_mesh(0, 4096);
    let mut v = Voxels::voxelize(&vertices, &indices, 1024).unwrap();
    v.fill();
    assert!(64 <= v.len() && v.len() <= 125);
}

#[test]
fn fill_on_empty_set_is_noop() {
    let mut v = Voxels::new(&Vec::new(), 5).unwrap();
    v.fill();
    assert_eq!(v.len(), 0);
}

#[test]
fn fill_single_cell_is_noop() {
    let mut v = Voxels::new(&vec![Cell::new(2, 2, 2)], 5).unwrap();
    v.fill();
    assert_eq!(occupied(&v), vec![(2, 2, 2)]);
}

#[test]
fn reconstruction_culls_shared_faces() {
    // Two adjacent cells: 10 of the 12 cube faces are visible, the shared
    // pair is culled; each face emits 2 triangles = 6 vertices.
    let v = Voxels::new(&vec![Cell::new(0, 0, 0), Cell::new(1, 0, 0)], 100).unwrap();
    let (verts, inds) = v.vertices_indices();
    assert_eq!(verts.len(), 10 * 6);
    assert_eq!(inds, (0..60).collect::<Vec<usize>>());
}

#[test]
fn reconstruction_of_filled_block_has_no_internal_faces() {
    // A filled 5x5x5 block shows exactly its outer surface: 6 * 25 faces,
    // each as two triangles with an unoccupied outward neighbor.
    let (vertices, indices) = cube_mesh(0, 4096);
    let mut v = Voxels::voxelize(&vertices, &indices, 1024).unwrap();
    v.fill();
    let (verts, _inds) = v.vertices_indices();
    assert_eq!(verts.len(), 6 * 25 * 6);
    // and the per-cell face count matches the visible-neighbor count
    let mut visible = 0usize;
    for c in v.cell_list() {
        let neighbors = [
            Cell::new(c.x + 1, c.y, c.z),
            Cell::new(c.x - 1, c.y, c.z),
            Cell::new(c.x, c.y + 1, c.z),
            Cell::new(c.x, c.y - 1, c.z),
            Cell::new(c.x, c.y, c.z + 1),
            Cell::new(c.x, c.y, c.z - 1),
        ];
        for nb in &neighbors {
            if !v.contains(nb) {
                visible += 1;
            }
        }
    }
    assert_eq!(verts.len(), 6 * visible);
}

#[test]
fn reconstruction_normals_point_outward() {
    // Every emitted triangle lies in one face plane of its cell's cube and
    // is wound so that its right-hand-rule normal points out of the cell.
    let step: i64 = 100;
    let v = Voxels::new(&vec![Cell::new(0, 0, 0)], step).unwrap();
    let (verts, _inds) = v.vertices_indices();
    assert_eq!(verts.len(), 36);
    for tri in verts.chunks(3) {
        let a = tri[0];
        let b = tri[1];
        let c = tri[2];
        let u = [b[0] - a[0], b[1] - a[1], b[2] - a[2]];
        let w = [c[0] - a[0], c[1] - a[1], c[2] - a[2]];
        let n = [
            u[1] * w[2] - u[2] * w[1],
            u[2] * w[0] - u[0] * w[2],
            u[0] * w[1] - u[1] * w[0],
        ];
        let mut matched = false;
        for axis in 0..3 {
            if a[axis] == b[axis] && a[axis] == c[axis] {
                matched = true;
                if a[axis] == step {
                    assert!(n[axis] > 0, "axis {} face at +step, normal {:?}", axis, n);
                } else {
                    assert_eq!(a[axis], 0);
                    assert!(n[axis] < 0, "axis {} face at 0, normal {:?}", axis, n);
                }
                for other in 0..3 {
                    if other != axis {
                        assert_eq!(n[other], 0);
                    }
                }
            }
        }
        assert!(matched);
    }
}

#[test]
fn pyramid_cell_count_in_tolerance_band() {
    // 5-vertex, 6-face pyramid: base 0.5 x 0.5 in the y = 0 plane, apex at
    // height 0.5, with 1000 units per world unit and step 50 (0.05).
    // Surface area is 0.25 + 4 * 0.5 * 0.25 * sqrt(1.25) ~ 0.809, so
    // area / step^2 ~ 324 cells; slanted faces overcount by up to ~3x.
    let vertices = vec![
        [0, 0, 0],
        [500, 0, 0],
        [500, 0, 500],
        [0, 0, 500],
        [250, 500, 250],
    ];
    let indices = vec![
        0, 1, 2, 0, 2, 3, // base
        0, 1, 4, 1, 2, 4, 2, 3, 4, 3, 0, 4, // sides
    ];
    let v = Voxels::voxelize(&vertices, &indices, 50).unwrap();
    let n = v.len();
    assert!(250 <= n && n <= 1100, "pyramid occupied {} cells", n);
}
