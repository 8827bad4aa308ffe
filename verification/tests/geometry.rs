//! Vector arithmetic, triangle bounding boxes, and the separating-axis test
//! on concrete values.

use meshvox::{Cell, Triangle, Vector3, Voxels, AABB};

#[test]
fn dot_and_cross_exact_values() {
    let a = Vector3::new(1, 2, 3);
    let b = Vector3::new(4, -5, 6);
    assert_eq!(a.dot(&b), 1 * 4 + 2 * (-5) + 3 * 6);
    let c = a.cross(&b);
    assert_eq!((c.x, c.y, c.z), (2 * 6 - 3 * (-5), 3 * 4 - 1 * 6, 1 * (-5) - 2 * 4));
    let x = Vector3::x_axis();
    let y = Vector3::y_axis();
    let z = Vector3::z_axis();
    let xy = x.cross(&y);
    assert_eq!((xy.x, xy.y, xy.z), (z.x, z.y, z.z));
}

#[test]
fn vector_add_sub_neg_mul() {
    let a = Vector3::new(10, 20, 30);
    let b = Vector3::new(1, 2, 3);
    let s = a.add(&b);
    assert_eq!((s.x, s.y, s.z), (11, 22, 33));
    let d = a.sub(&b);
    assert_eq!((d.x, d.y, d.z), (9, 18, 27));
    let n = a.neg();
    assert_eq!((n.x, n.y, n.z), (-10, -20, -30));
    let m = b.mul(-4);
    assert_eq!((m.x, m.y, m.z), (-4, -8, -12));
}

#[test]
fn triangle_tight_bounding_box() {
    let p1 = Vector3::new(5, -7, 100);
    let p2 = Vector3::new(-3, 50, 2);
    let p3 = Vector3::new(40, 0, -9);
    let t = Triangle::new(&p1, &p2, &p3);
    assert_eq!((t.aabb.min.x, t.aabb.min.y, t.aabb.min.z), (-3, -7, -9));
    assert_eq!((t.aabb.max.x, t.aabb.max.y, t.aabb.max.z), (40, 50, 100));
}

#[test]
fn grid_aabb_floor_and_ceiling() {
    let p1 = Vector3::new(-250, 0, 100);
    let p2 = Vector3::new(730, 99, 100);
    let p3 = Vector3::new(0, 350, 400);
    let t = Triangle::new(&p1, &p2, &p3);
    let (lo, hi) = t.grid_aabb(100);
    // floor(-250/100) = -3, ceiling(730/100) = 8, and so on per axis
    assert_eq!((lo.x, lo.y, lo.z), (-3, 0, 1));
    assert_eq!((hi.x, hi.y, hi.z), (8, 4, 4));
}

#[test]
fn aabb_from_center_and_size() {
    let b = AABB::from_center_size(&Vector3::new(10, 20, -30), &Vector3::new(8, 6, 4));
    assert_eq!((b.min.x, b.min.y, b.min.z), (6, 17, -32));
    assert_eq!((b.max.x, b.max.y, b.max.z), (14, 23, -28));
    // an odd edge length rounds the half size down
    let odd = AABB::from_center_size(&Vector3::new(0, 0, 0), &Vector3::new(5, 5, 5));
    assert_eq!((odd.min.x, odd.max.x), (-2, 2));
}

#[test]
fn sat_reports_overlap_and_separation() {
    let p1 = Vector3::new(10, 10, 10);
    let p2 = Vector3::new(90, 20, 10);
    let p3 = Vector3::new(40, 80, 60);
    let t = Triangle::new(&p1, &p2, &p3);
    let inside = AABB {
        min: Vector3::new(0, 0, 0),
        max: Vector3::new(100, 100, 100),
    };
    assert!(meshvox::triangle_aabb_intersects(&t, &inside));
    // the triangle's supporting plane separates it from this far-away box
    let far = AABB {
        min: Vector3::new(5000, 5000, 5000),
        max: Vector3::new(5100, 5100, 5100),
    };
    assert!(!meshvox::triangle_aabb_intersects(&t, &far));
}

#[test]
fn sat_touching_counts_as_overlap() {
    // triangle in the plane x = 100, touching the box whose face is x = 100
    let p1 = Vector3::new(100, 0, 0);
    let p2 = Vector3::new(100, 50, 0);
    let p3 = Vector3::new(100, 0, 50);
    let t = Triangle::new(&p1, &p2, &p3);
    let touching = AABB {
        min: Vector3::new(0, 0, 0),
        max: Vector3::new(100, 100, 100),
    };
    assert!(meshvox::triangle_aabb_intersects(&t, &touching));
}

#[test]
fn fill_parity_unreliable_without_watertightness() {
    // The scan lines of this scattered set cross its occupied cells an odd
    // number of times, violating the watertight-at-grid-resolution
    // assumption of fill.  Classification is then unreliable: the first fill
    // adds (0, 0, 5), which flips the run parity of the z line above it, and
    // a second fill adds (0, 0, 15).  On closed surfaces (see the cube
    // tests) fill is idempotent.
    let cells = vec![
        Cell::new(0, 0, 0),
        Cell::new(0, 0, 10),
        Cell::new(0, 0, 20),
        Cell::new(-2, 0, 5),
        Cell::new(2, 0, 5),
        Cell::new(0, -2, 5),
        Cell::new(0, 2, 5),
        Cell::new(-2, 0, 15),
        Cell::new(2, 0, 15),
        Cell::new(0, -2, 15),
        Cell::new(0, 2, 15),
    ];
    let mut v = Voxels::new(&cells, 10).unwrap();
    v.fill();
    assert_eq!(v.len(), 12);
    assert!(v.contains(&Cell::new(0, 0, 5)));
    v.fill();
    assert_eq!(v.len(), 13);
    assert!(v.contains(&Cell::new(0, 0, 15)));
}
