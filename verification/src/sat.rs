//! Triangle–box overlap test by the separating-axis theorem
//! (Akenine-Möller's 13-axis test, with the 3 box-face axes — a redundant
//! pre-filter — omitted): one triangle-plane test and nine box-axis x
//! triangle-edge tests.  All comparisons are non-strict, so touching counts
//! as overlap.
//!
//! To stay in integers, every projection is carried out in a frame scaled by
//! two around the box center: a point `p` becomes `2*p - (min + max)`, and
//! the box half-extent becomes `max - min`.  Scaling both sides of each
//! comparison by the same positive factor does not change its outcome, so
//! the test is exact.

use vstd::prelude::*;
use crate::vector::{
    abs_i128, cross_i, dot_i, iabs, imax3, imin3, lemma_cross_in_range, lemma_dot_in_range,
    lemma_mul_bound, max3, min3, sub_i, vec_in_bound, Vec3i, Vector3,
};
use crate::voxelize::{aabb_in_bound, aabb_wf, tri_in_bound, AabbI, Triangle, TriI, AABB, SAT_BOUND};

verus! {

/// A triangle corner in the doubled box frame: `2*p - (min + max)`, that is,
/// twice the offset of `p` from the box center.
pub open spec fn rel2(p: Vec3i, b: AabbI) -> Vec3i {
    Vec3i {
        x: 2 * p.x - (b.min.x + b.max.x),
        y: 2 * p.y - (b.min.y + b.max.y),
        z: 2 * p.z - (b.min.z + b.max.z),
    }
}

/// The box half-extent in the doubled frame: `max - min`.
pub open spec fn half2(b: AabbI) -> Vec3i {
    Vec3i { x: b.max.x - b.min.x, y: b.max.y - b.min.y, z: b.max.z - b.min.z }
}

/// Projected radius of a box of half-extent `h` onto the axis `a`:
/// `h.x*|a.x| + h.y*|a.y| + h.z*|a.z|`.
pub open spec fn radius(h: Vec3i, a: Vec3i) -> int {
    h.x * iabs(a.x) + h.y * iabs(a.y) + h.z * iabs(a.z)
}

/// The axis `a` separates the box (half-extent `h`, centered) from the
/// triangle corners `v0, v1, v2` (given relative to the box center): the
/// corner projections all lie outside `[-radius, radius]` on the same side.
pub open spec fn axis_separates(a: Vec3i, v0: Vec3i, v1: Vec3i, v2: Vec3i, h: Vec3i) -> bool {
    let p0 = dot_i(a, v0);
    let p1 = dot_i(a, v1);
    let p2 = dot_i(a, v2);
    let r = radius(h, a);
    imin3(p0, p1, p2) > r || imax3(p0, p1, p2) < -r
}

/// The triangle's supporting plane separates it from the box: the distance
/// of the box center from the plane exceeds the box's projected radius on
/// the plane normal.
pub open spec fn plane_separates(t: TriI, b: AabbI) -> bool {
    let v0 = rel2(t.p0, b);
    let v1 = rel2(t.p1, b);
    let v2 = rel2(t.p2, b);
    let n = cross_i(sub_i(v1, v0), sub_i(v2, v0));
    iabs(dot_i(n, v0)) > radius(half2(b), n)
}

/// The unit x axis.
pub open spec fn unit_x() -> Vec3i {
    Vec3i { x: 1, y: 0, z: 0 }
}

/// The unit y axis.
pub open spec fn unit_y() -> Vec3i {
    Vec3i { x: 0, y: 1, z: 0 }
}

/// The unit z axis.
pub open spec fn unit_z() -> Vec3i {
    Vec3i { x: 0, y: 0, z: 1 }
}

/// The separating-axis overlap predicate between a triangle and a box: no
/// separation by the triangle plane nor by any of the nine box-axis x
/// triangle-edge cross products.
pub open spec fn sat_intersects(t: TriI, b: AabbI) -> bool {
    let v0 = rel2(t.p0, b);
    let v1 = rel2(t.p1, b);
    let v2 = rel2(t.p2, b);
    let f0 = sub_i(v1, v0);
    let f1 = sub_i(v2, v1);
    let f2 = sub_i(v0, v2);
    let h = half2(b);
    &&& !plane_separates(t, b)
    &&& !axis_separates(cross_i(unit_x(), f0), v0, v1, v2, h)
    &&& !axis_separates(cross_i(unit_x(), f1), v0, v1, v2, h)
    &&& !axis_separates(cross_i(unit_x(), f2), v0, v1, v2, h)
    &&& !axis_separates(cross_i(unit_y(), f0), v0, v1, v2, h)
    &&& !axis_separates(cross_i(unit_y(), f1), v0, v1, v2, h)
    &&& !axis_separates(cross_i(unit_y(), f2), v0, v1, v2, h)
    &&& !axis_separates(cross_i(unit_z(), f0), v0, v1, v2, h)
    &&& !axis_separates(cross_i(unit_z(), f1), v0, v1, v2, h)
    &&& !axis_separates(cross_i(unit_z(), f2), v0, v1, v2, h)
}

/// A triangle corner in the doubled box frame.
fn rel2_exec(p: &Vector3, aabb: &AABB) -> (r: Vector3)
    requires
        vec_in_bound(p@, SAT_BOUND as int),
        aabb_in_bound(aabb@, SAT_BOUND as int),
    ensures
        r@ == rel2(p@, aabb@),
{
    Vector3::new(
        2 * p.x - (aabb.min.x + aabb.max.x),
        2 * p.y - (aabb.min.y + aabb.max.y),
        2 * p.z - (aabb.min.z + aabb.max.z),
    )
}

/// The box half-extent in the doubled frame.
fn half2_exec(aabb: &AABB) -> (r: Vector3)
    requires
        aabb_in_bound(aabb@, SAT_BOUND as int),
    ensures
        r@ == half2(aabb@),
{
    Vector3::new(
        aabb.max.x - aabb.min.x,
        aabb.max.y - aabb.min.y,
        aabb.max.z - aabb.min.z,
    )
}

/// Projected radius of the box half-extent `h` on the axis `a`.
fn radius_exec(h: &Vector3, a: &Vector3) -> (r: i128)
    requires
        0 <= h@.x <= 0x8_0000_0000,
        0 <= h@.y <= 0x8_0000_0000,
        0 <= h@.z <= 0x8_0000_0000,
        vec_in_bound(a@, 0x1000_0000_0000_0000_0000),
    ensures
        r == radius(h@, a@),
        0 <= r <= 3 * (0x8_0000_0000 * 0x1000_0000_0000_0000_0000),
{
    proof {
        lemma_mul_bound(h@.x, iabs(a@.x), 0x8_0000_0000, 0x1000_0000_0000_0000_0000);
        lemma_mul_bound(h@.y, iabs(a@.y), 0x8_0000_0000, 0x1000_0000_0000_0000_0000);
        lemma_mul_bound(h@.z, iabs(a@.z), 0x8_0000_0000, 0x1000_0000_0000_0000_0000);
        assert(h@.x * iabs(a@.x) >= 0) by (nonlinear_arith)
            requires
                h@.x >= 0,
                iabs(a@.x) >= 0,
        ;
        assert(h@.y * iabs(a@.y) >= 0) by (nonlinear_arith)
            requires
                h@.y >= 0,
                iabs(a@.y) >= 0,
        ;
        assert(h@.z * iabs(a@.z) >= 0) by (nonlinear_arith)
            requires
                h@.z >= 0,
                iabs(a@.z) >= 0,
        ;
    }
    h.x * abs_i128(a.x) + h.y * abs_i128(a.y) + h.z * abs_i128(a.z)
}

/// One axis test: reports `false` when `a` separates the box from the
/// triangle corners `v0, v1, v2` (all relative to the box center).
fn axis_test(a: &Vector3, v0: &Vector3, v1: &Vector3, v2: &Vector3, h: &Vector3) -> (r: bool)
    requires
        vec_in_bound(a@, 0x1000_0000_0000_0000_0000),
        vec_in_bound(v0@, 0x10_0000_0000),
        vec_in_bound(v1@, 0x10_0000_0000),
        vec_in_bound(v2@, 0x10_0000_0000),
        0 <= h@.x <= 0x8_0000_0000,
        0 <= h@.y <= 0x8_0000_0000,
        0 <= h@.z <= 0x8_0000_0000,
    ensures
        r == !axis_separates(a@, v0@, v1@, v2@, h@),
{
    proof {
        lemma_dot_in_range(a@, v0@, 0x1000_0000_0000_0000_0000, 0x10_0000_0000);
        lemma_dot_in_range(a@, v1@, 0x1000_0000_0000_0000_0000, 0x10_0000_0000);
        lemma_dot_in_range(a@, v2@, 0x1000_0000_0000_0000_0000, 0x10_0000_0000);
    }
    let p0 = a.dot(v0);
    let p1 = a.dot(v1);
    let p2 = a.dot(v2);
    let r = radius_exec(h, a);
    !(min3(p0, p1, p2) > r || max3(p0, p1, p2) < -r)
}

/// The triangle-plane half of the test: reports `false` when the triangle's
/// supporting plane separates it from the box.
fn plane_aabb_intersects(triangle: &Triangle, aabb: &AABB) -> (r: bool)
    requires
        tri_in_bound(triangle@, SAT_BOUND as int),
        aabb_in_bound(aabb@, SAT_BOUND as int),
        aabb_wf(aabb@),
    ensures
        r == !plane_separates(triangle@, aabb@),
{
    let v0 = rel2_exec(&triangle.points[0], aabb);
    let v1 = rel2_exec(&triangle.points[1], aabb);
    let v2 = rel2_exec(&triangle.points[2], aabb);
    let e0 = v1.sub(&v0);
    let e1 = v2.sub(&v0);
    proof {
        lemma_cross_in_range(e0@, e1@, 0x20_0000_0000, 0x20_0000_0000);
    }
    let n = e0.cross(&e1);
    proof {
        lemma_dot_in_range(n@, v0@, 0x1000_0000_0000_0000_0000, 0x10_0000_0000);
    }
    let s = n.dot(&v0);
    let h = half2_exec(aabb);
    let e = radius_exec(&h, &n);
    !(abs_i128(s) > e)
}

/// The nine box-axis x triangle-edge tests: reports `false` when any of them
/// separates the box from the triangle.
fn tri_edge_aabb_intersects(triangle: &Triangle, aabb: &AABB) -> (r: bool)
    requires
        tri_in_bound(triangle@, SAT_BOUND as int),
        aabb_in_bound(aabb@, SAT_BOUND as int),
        aabb_wf(aabb@),
    ensures
        r == {
            let v0 = rel2(triangle@.p0, aabb@);
            let v1 = rel2(triangle@.p1, aabb@);
            let v2 = rel2(triangle@.p2, aabb@);
            let f0 = sub_i(v1, v0);
            let f1 = sub_i(v2, v1);
            let f2 = sub_i(v0, v2);
            let h = half2(aabb@);
            &&& !axis_separates(cross_i(unit_x(), f0), v0, v1, v2, h)
            &&& !axis_separates(cross_i(unit_x(), f1), v0, v1, v2, h)
            &&& !axis_separates(cross_i(unit_x(), f2), v0, v1, v2, h)
            &&& !axis_separates(cross_i(unit_y(), f0), v0, v1, v2, h)
            &&& !axis_separates(cross_i(unit_y(), f1), v0, v1, v2, h)
            &&& !axis_separates(cross_i(unit_y(), f2), v0, v1, v2, h)
            &&& !axis_separates(cross_i(unit_z(), f0), v0, v1, v2, h)
            &&& !axis_separates(cross_i(unit_z(), f1), v0, v1, v2, h)
            &&& !axis_separates(cross_i(unit_z(), f2), v0, v1, v2, h)
        },
{
    let v0 = rel2_exec(&triangle.points[0], aabb);
    let v1 = rel2_exec(&triangle.points[1], aabb);
    let v2 = rel2_exec(&triangle.points[2], aabb);
    let f0 = v1.sub(&v0);
    let f1 = v2.sub(&v1);
    let f2 = v0.sub(&v2);
    let h = half2_exec(aabb);
    let ex = Vector3::x_axis();
    let ey = Vector3::y_axis();
    let ez = Vector3::z_axis();
    proof {
        lemma_cross_in_range(ex@, f0@, 1, 0x20_0000_0000);
    }
    let a = ex.cross(&f0);
    if !axis_test(&a, &v0, &v1, &v2, &h) {
        return false;
    }
    proof {
        lemma_cross_in_range(ex@, f1@, 1, 0x20_0000_0000);
    }
    let a = ex.cross(&f1);
    if !axis_test(&a, &v0, &v1, &v2, &h) {
        return false;
    }
    proof {
        lemma_cross_in_range(ex@, f2@, 1, 0x20_0000_0000);
    }
    let a = ex.cross(&f2);
    if !axis_test(&a, &v0, &v1, &v2, &h) {
        return false;
    }
    proof {
        lemma_cross_in_range(ey@, f0@, 1, 0x20_0000_0000);
    }
    let a = ey.cross(&f0);
    if !axis_test(&a, &v0, &v1, &v2, &h) {
        return false;
    }
    proof {
        lemma_cross_in_range(ey@, f1@, 1, 0x20_0000_0000);
    }
    let a = ey.cross(&f1);
    if !axis_test(&a, &v0, &v1, &v2, &h) {
        return false;
    }
    proof {
        lemma_cross_in_range(ey@, f2@, 1, 0x20_0000_0000);
    }
    let a = ey.cross(&f2);
    if !axis_test(&a, &v0, &v1, &v2, &h) {
        return false;
    }
    proof {
        lemma_cross_in_range(ez@, f0@, 1, 0x20_0000_0000);
    }
    let a = ez.cross(&f0);
    if !axis_test(&a, &v0, &v1, &v2, &h) {
        return false;
    }
    proof {
        lemma_cross_in_range(ez@, f1@, 1, 0x20_0000_0000);
    }
    let a = ez.cross(&f1);
    if !axis_test(&a, &v0, &v1, &v2, &h) {
        return false;
    }
    proof {
        lemma_cross_in_range(ez@, f2@, 1, 0x20_0000_0000);
    }
    let a = ez.cross(&f2);
    axis_test(&a, &v0, &v1, &v2, &h)
}

/// The full overlap test between a triangle and a box: true exactly when no
/// separating axis exists among the tested ten.
pub fn triangle_aabb_intersects(triangle: &Triangle, aabb: &AABB) -> (r: bool)
    requires
        tri_in_bound(triangle@, SAT_BOUND as int),
        aabb_in_bound(aabb@, SAT_BOUND as int),
        aabb_wf(aabb@),
    ensures
        r == sat_intersects(triangle@, aabb@),
{
    let plane_aabb_sat = plane_aabb_intersects(triangle, aabb);
    if !plane_aabb_sat {
        return false;
    }
    tri_edge_aabb_intersects(triangle, aabb)
}

} // verus!
