//! Grid voxelization of triangle meshes, interior fill, and mesh
//! reconstruction.
//!
//! All geometry is exact: world coordinates are fixed-point integers and the
//! grid step is a positive integer of the same unit.  A grid cell `(i, j, k)`
//! addresses the cube `[i*step, (i+1)*step] x ... x [k*step, (k+1)*step]`
//! (minimum-corner convention, used uniformly).

use vstd::prelude::*;
use vstd::arithmetic::div_mod::{
    lemma_fundamental_div_mod, lemma_fundamental_div_mod_converse_div, lemma_mod_bound,
};
use crate::vector::{
    imax3, imin3, lemma_mul_bound, max3, min3, vec_in_bound, Vec3i, Vector3,
};
use crate::sat::{sat_intersects, triangle_aabb_intersects};
use vstd::arithmetic::mul::{lemma_mul_inequality, lemma_mul_is_commutative};

verus! {

/// Largest magnitude accepted for an input vertex coordinate (in fixed-point
/// units), and for the grid step.  Keeping both inside this bound keeps every
/// intermediate product of the geometry inside `i128`.
pub const COORD_LIMIT: i64 = 1_073_741_824;

/// Bound within which the separating-axis test accepts its operands; triangle
/// corners and candidate cell boxes stay inside it whenever the inputs obey
/// [`COORD_LIMIT`].
pub const SAT_BOUND: i128 = 17_179_869_184;

/// Largest magnitude a stored grid-cell coordinate can take: twice the
/// coordinate limit, which covers every scan range the voxelizer produces.
pub const GRID_LIMIT: i64 = 2_147_483_648;

/// Mathematical grid-cell coordinate, used in specifications only.
pub ghost struct CellI {
    pub x: int,
    pub y: int,
    pub z: int,
}

/// A grid-cell coordinate: the cell occupies the world-space cube whose
/// minimum corner is `(x*step, y*step, z*step)` and whose edge length is
/// `step`.
#[derive(Clone, Copy, PartialEq, Eq, Structural, Hash, Debug)]
pub struct Cell {
    pub x: i64,
    pub y: i64,
    pub z: i64,
}

impl View for Cell {
    type V = CellI;

    open spec fn view(&self) -> CellI {
        CellI { x: self.x as int, y: self.y as int, z: self.z as int }
    }
}

impl Cell {
    /// Builds the cell `(x, y, z)`.
    pub fn new(x: i64, y: i64, z: i64) -> (r: Self)
        ensures
            r@ == (CellI { x: x as int, y: y as int, z: z as int }),
    {
        Cell { x, y, z }
    }
}

/// Mathematical axis-aligned box, used in specifications only.
pub ghost struct AabbI {
    pub min: Vec3i,
    pub max: Vec3i,
}

/// Axis-aligned bounding box given by its minimum and maximum corners.
pub struct AABB {
    pub min: Vector3,
    pub max: Vector3,
}

impl View for AABB {
    type V = AabbI;

    open spec fn view(&self) -> AabbI {
        AabbI { min: self.min@, max: self.max@ }
    }
}

impl AABB {
    /// Builds the box centered at `center` with edge lengths `size`:
    /// `min = center - size/2`, `max = center + size/2` (odd components
    /// round the half size down).
    pub fn from_center_size(center: &Vector3, size: &Vector3) -> (r: AABB)
        requires
            0 <= size@.x,
            0 <= size@.y,
            0 <= size@.z,
            i128::MIN <= center@.x - size@.x / 2 && center@.x + size@.x / 2 <= i128::MAX,
            i128::MIN <= center@.y - size@.y / 2 && center@.y + size@.y / 2 <= i128::MAX,
            i128::MIN <= center@.z - size@.z / 2 && center@.z + size@.z / 2 <= i128::MAX,
        ensures
            r@.min.x == center@.x - size@.x / 2,
            r@.min.y == center@.y - size@.y / 2,
            r@.min.z == center@.z - size@.z / 2,
            r@.max.x == center@.x + size@.x / 2,
            r@.max.y == center@.y + size@.y / 2,
            r@.max.z == center@.z + size@.z / 2,
    {
        let hx = size.x / 2;
        let hy = size.y / 2;
        let hz = size.z / 2;
        AABB {
            min: Vector3::new(center.x - hx, center.y - hy, center.z - hz),
            max: Vector3::new(center.x + hx, center.y + hy, center.z + hz),
        }
    }
}

/// The box is well formed: componentwise `min <= max`.
pub open spec fn aabb_wf(b: AabbI) -> bool {
    &&& b.min.x <= b.max.x
    &&& b.min.y <= b.max.y
    &&& b.min.z <= b.max.z
}

/// Both corners of the box lie within `[-m, m]` componentwise.
pub open spec fn aabb_in_bound(b: AabbI, m: int) -> bool {
    vec_in_bound(b.min, m) && vec_in_bound(b.max, m)
}

/// Floor division (rounds toward minus infinity); for a positive divisor this
/// is exactly the mathematical `/` of the specification language.
pub open spec fn floor_div_i(a: int, b: int) -> int {
    a / b
}

/// Ceiling division for a positive divisor.
pub open spec fn ceil_div_i(a: int, b: int) -> int {
    (a + b - 1) / b
}

/// A quotient by a positive divisor keeps the magnitude bound of the
/// dividend.
pub proof fn lemma_div_bound(a: int, b: int, m: int)
    requires
        1 <= b,
        -m <= a <= m,
    ensures
        -m <= a / b <= m,
{
    lemma_fundamental_div_mod(a, b);
    lemma_mod_bound(a, b);
    assert(-m <= a / b <= m) by (nonlinear_arith)
        requires
            a == b * (a / b) + a % b,
            0 <= a % b < b,
            1 <= b,
            -m <= a <= m,
    ;
}

/// Floor division of `a` by the positive `b`.
fn floor_div(a: i128, b: i128) -> (r: i128)
    requires
        1 <= b,
        -0x4000_0000_0000_0000_0000_0000_0000_0000 < a,
    ensures
        r == floor_div_i(a as int, b as int),
{
    let q = a / b;
    if a >= 0 {
        q
    } else {
        // Exec division truncates toward zero; adjust when it did round up.
        let rm = a % b;
        proof {
            lemma_fundamental_div_mod(-(a as int), b as int);
            lemma_mod_bound(-(a as int), b as int);
            let qn = (-(a as int)) / (b as int);
            let rn = (-(a as int)) % (b as int);
            if rn == 0 {
                assert(a as int == (-qn) * (b as int) + 0) by (nonlinear_arith)
                    requires
                        -(a as int) == (b as int) * qn + rn,
                        rn == 0,
                ;
                lemma_fundamental_div_mod_converse_div(a as int, b as int, -qn, 0);
            } else {
                assert(a as int == (-qn - 1) * (b as int) + (b as int - rn)) by (nonlinear_arith)
                    requires
                        -(a as int) == (b as int) * qn + rn,
                ;
                lemma_fundamental_div_mod_converse_div(
                    a as int,
                    b as int,
                    -qn - 1,
                    b as int - rn,
                );
            }
        }
        if rm == 0 {
            q
        } else {
            q - 1
        }
    }
}

/// Ceiling division of `a` by the positive `b`.
fn ceil_div(a: i128, b: i128) -> (r: i128)
    requires
        1 <= b <= 0x1_0000_0000_0000_0000,
        -0x1000_0000_0000_0000_0000_0000_0000_0000 < a < 0x1000_0000_0000_0000_0000_0000_0000_0000,
    ensures
        r == ceil_div_i(a as int, b as int),
{
    floor_div(a + b - 1, b)
}

/// Mathematical triangle together with its axis-aligned bounding box, used in
/// specifications only.
pub ghost struct TriI {
    pub p0: Vec3i,
    pub p1: Vec3i,
    pub p2: Vec3i,
    pub aabb: AabbI,
}

/// The triangle's stored box is the tight bounding box of its three corners.
pub open spec fn tri_wf(t: TriI) -> bool {
    &&& t.aabb.min.x == imin3(t.p0.x, t.p1.x, t.p2.x)
    &&& t.aabb.min.y == imin3(t.p0.y, t.p1.y, t.p2.y)
    &&& t.aabb.min.z == imin3(t.p0.z, t.p1.z, t.p2.z)
    &&& t.aabb.max.x == imax3(t.p0.x, t.p1.x, t.p2.x)
    &&& t.aabb.max.y == imax3(t.p0.y, t.p1.y, t.p2.y)
    &&& t.aabb.max.z == imax3(t.p0.z, t.p1.z, t.p2.z)
}

/// All three corners lie within `[-m, m]` componentwise.
pub open spec fn tri_in_bound(t: TriI, m: int) -> bool {
    vec_in_bound(t.p0, m) && vec_in_bound(t.p1, m) && vec_in_bound(t.p2, m)
}

/// A triangle, with its tight axis-aligned bounding box precomputed.
pub struct Triangle {
    pub points: [Vector3; 3],
    pub aabb: AABB,
}

impl View for Triangle {
    type V = TriI;

    open spec fn view(&self) -> TriI {
        TriI { p0: self.points[0]@, p1: self.points[1]@, p2: self.points[2]@, aabb: self.aabb@ }
    }
}

impl Triangle {
    /// Builds a triangle from its three corners and precomputes the tight
    /// bounding box.
    pub fn new(p1: &Vector3, p2: &Vector3, p3: &Vector3) -> (r: Self)
        ensures
            r@.p0 == p1@,
            r@.p1 == p2@,
            r@.p2 == p3@,
            tri_wf(r@),
    {
        let points = [p1.clone(), p2.clone(), p3.clone()];
        let min_x = min3(p1.x, p2.x, p3.x);
        let min_y = min3(p1.y, p2.y, p3.y);
        let min_z = min3(p1.z, p2.z, p3.z);
        let max_x = max3(p1.x, p2.x, p3.x);
        let max_y = max3(p1.y, p2.y, p3.y);
        let max_z = max3(p1.z, p2.z, p3.z);
        let aabb = AABB {
            min: Vector3::new(min_x, min_y, min_z),
            max: Vector3::new(max_x, max_y, max_z),
        };
        Triangle { points, aabb }
    }

    /// The inclusive grid-coordinate range whose cells can touch the
    /// triangle: floor of the box minimum and ceiling of the box maximum,
    /// divided by the step.
    pub fn grid_aabb(&self, step: i64) -> (r: (Cell, Cell))
        requires
            1 <= step <= COORD_LIMIT,
            tri_wf(self@),
            tri_in_bound(self@, COORD_LIMIT as int),
        ensures
            r.0@ == grid_lo(self@.aabb, step as int),
            r.1@ == grid_hi(self@.aabb, step as int),
            -2 * COORD_LIMIT as int <= r.0@.x <= 2 * COORD_LIMIT as int,
            -2 * COORD_LIMIT as int <= r.0@.y <= 2 * COORD_LIMIT as int,
            -2 * COORD_LIMIT as int <= r.0@.z <= 2 * COORD_LIMIT as int,
            -2 * COORD_LIMIT as int <= r.1@.x <= 2 * COORD_LIMIT as int,
            -2 * COORD_LIMIT as int <= r.1@.y <= 2 * COORD_LIMIT as int,
            -2 * COORD_LIMIT as int <= r.1@.z <= 2 * COORD_LIMIT as int,
    {
        proof {
            lemma_div_bound(self@.aabb.min.x, step as int, COORD_LIMIT as int);
            lemma_div_bound(self@.aabb.min.y, step as int, COORD_LIMIT as int);
            lemma_div_bound(self@.aabb.min.z, step as int, COORD_LIMIT as int);
            lemma_div_bound(self@.aabb.max.x + step - 1, step as int, 2 * COORD_LIMIT as int);
            lemma_div_bound(self@.aabb.max.y + step - 1, step as int, 2 * COORD_LIMIT as int);
            lemma_div_bound(self@.aabb.max.z + step - 1, step as int, 2 * COORD_LIMIT as int);
        }
        let s = step as i128;
        let lo = Cell::new(
            floor_div(self.aabb.min.x, s) as i64,
            floor_div(self.aabb.min.y, s) as i64,
            floor_div(self.aabb.min.z, s) as i64,
        );
        let hi = Cell::new(
            ceil_div(self.aabb.max.x, s) as i64,
            ceil_div(self.aabb.max.y, s) as i64,
            ceil_div(self.aabb.max.z, s) as i64,
        );
        (lo, hi)
    }

    /// Enumerates every grid cell of the scan range whose padded box passes
    /// the separating-axis test against this triangle.  The scan is
    /// exhaustive: the returned cells are exactly the hits, no heuristic
    /// early exit is taken.
    #[verifier::loop_isolation(false)]
    #[verifier::rlimit(50)]
    pub fn voxelize(&self, step: i64, eps: i64) -> (r: Vec<Cell>)
        requires
            1 <= step <= COORD_LIMIT,
            0 <= eps <= step,
            tri_wf(self@),
            tri_in_bound(self@, COORD_LIMIT as int),
        ensures
            forall|n: int|
                0 <= n < r@.len() ==> tri_cell_hit(self@, step as int, eps as int, #[trigger] r@[n]@),
            forall|c: Cell|
                tri_cell_hit(self@, step as int, eps as int, #[trigger] c@) ==> r@.contains(c),
            cells_view(r@).no_duplicates(),
    {
        let ghost t = self@;
        let ghost s = step as int;
        let ghost e = eps as int;
        let (lo, hi) = self.grid_aabb(step);
        let mut voxels: Vec<Cell> = Vec::new();
        let mut i = lo.x;
        while i <= hi.x
            invariant
                lo.x <= i,
                cells_view(voxels@).no_duplicates(),
                forall|n: int|
                    0 <= n < voxels@.len() ==> tri_cell_hit(t, s, e, #[trigger] voxels@[n]@)
                        && lex_before(voxels@[n]@, i as int, lo.y as int, lo.z as int),
                forall|c: Cell|
                    tri_cell_hit(t, s, e, #[trigger] c@)
                        && lex_before(c@, i as int, lo.y as int, lo.z as int)
                        ==> voxels@.contains(c),
            decreases hi.x - i + 1,
        {
            let mut j = lo.y;
            while j <= hi.y
                invariant
                    lo.y <= j,
                    lo.x <= i <= hi.x,
                    cells_view(voxels@).no_duplicates(),
                    forall|n: int|
                        0 <= n < voxels@.len() ==> tri_cell_hit(t, s, e, #[trigger] voxels@[n]@)
                            && lex_before(voxels@[n]@, i as int, j as int, lo.z as int),
                    forall|c: Cell|
                        tri_cell_hit(t, s, e, #[trigger] c@)
                            && lex_before(c@, i as int, j as int, lo.z as int)
                            ==> voxels@.contains(c),
                decreases hi.y - j + 1,
            {
                let mut k = lo.z;
                while k <= hi.z
                    invariant
                        lo.z <= k,
                        lo.x <= i <= hi.x,
                        lo.y <= j <= hi.y,
                        cells_view(voxels@).no_duplicates(),
                        forall|n: int|
                            0 <= n < voxels@.len() ==> tri_cell_hit(t, s, e, #[trigger] voxels@[n]@)
                                && lex_before(voxels@[n]@, i as int, j as int, k as int),
                        forall|c: Cell|
                            tri_cell_hit(t, s, e, #[trigger] c@)
                                && lex_before(c@, i as int, j as int, k as int)
                                ==> voxels@.contains(c),
                    decreases hi.z - k + 1,
                {
                    let cur = Cell::new(i, j, k);
                    proof {
                        lemma_cell_box_bounds(t, s, e, cur@);
                    }
                    let xs = i * step;
                    let ys = j * step;
                    let zs = k * step;
                    let bx = AABB {
                        min: Vector3::new(
                            (xs - eps) as i128,
                            (ys - eps) as i128,
                            (zs - eps) as i128,
                        ),
                        max: Vector3::new(
                            (xs + step + eps) as i128,
                            (ys + step + eps) as i128,
                            (zs + step + eps) as i128,
                        ),
                    };
                    proof {
                        assert(bx@ == cell_box(cur@, s, e));
                    }
                    let ghost old_voxels = voxels@;
                    if triangle_aabb_intersects(self, &bx) {
                        proof {
                            // the current cell was never visited before: every
                            // stored cell comes strictly earlier in scan order
                            assert(!cells_view(old_voxels).contains(cur@)) by {
                                if cells_view(old_voxels).contains(cur@) {
                                    let n = choose|n: int|
                                        0 <= n < old_voxels.len() && cells_view(old_voxels)[n]
                                            == cur@;
                                    assert(old_voxels[n]@ == cur@);
                                    assert(lex_before(
                                        old_voxels[n]@,
                                        i as int,
                                        j as int,
                                        k as int,
                                    ));
                                }
                            }
                            lemma_push_no_dup(cells_view(old_voxels), cur@);
                        }
                        voxels.push(cur);
                        proof {
                            assert(cells_view(voxels@) =~= cells_view(old_voxels).push(cur@));
                        }
                    }
                    proof {
                        assert forall|c: Cell|
                            tri_cell_hit(t, s, e, #[trigger] c@)
                                && lex_before(c@, i as int, j as int, k as int + 1)
                                implies voxels@.contains(c) by {
                            if lex_before(c@, i as int, j as int, k as int) {
                                assert(old_voxels.contains(c));
                                let n = choose|n: int| 0 <= n < old_voxels.len() && old_voxels[n] == c;
                                assert(voxels@[n] == c);
                            } else {
                                assert(c@ == cur@);
                                assert(c == cur);
                                assert(voxels@.last() == cur);
                            }
                        }
                    }
                    k = k + 1;
                }
                j = j + 1;
            }
            i = i + 1;
        }
        voxels
    }
}

/// The world-space box of the grid cell `c`, padded by `eps` on every side:
/// minimum corner `c * step`, edge length `step`.
pub open spec fn cell_box(c: CellI, step: int, eps: int) -> AabbI {
    AabbI {
        min: Vec3i { x: c.x * step - eps, y: c.y * step - eps, z: c.z * step - eps },
        max: Vec3i {
            x: c.x * step + step + eps,
            y: c.y * step + step + eps,
            z: c.z * step + step + eps,
        },
    }
}

/// The cell lies in the triangle's scan range: between the floor of the
/// box minimum and the ceiling of the box maximum, divided by the step.
pub open spec fn in_scan_range(t: TriI, step: int, c: CellI) -> bool {
    let lo = grid_lo(t.aabb, step);
    let hi = grid_hi(t.aabb, step);
    &&& lo.x <= c.x <= hi.x
    &&& lo.y <= c.y <= hi.y
    &&& lo.z <= c.z <= hi.z
}

/// The voxelization of one triangle keeps the cell `c`: `c` lies in the scan
/// range and the separating-axis test reports overlap between the triangle
/// and the cell's padded box.
pub open spec fn tri_cell_hit(t: TriI, step: int, eps: int, c: CellI) -> bool {
    in_scan_range(t, step, c) && sat_intersects(t, cell_box(c, step, eps))
}

/// Lexicographic order of scan positions: `c` was visited strictly before
/// position `(i, j, k)`.
spec fn lex_before(c: CellI, i: int, j: int, k: int) -> bool {
    ||| c.x < i
    ||| (c.x == i && (c.y < j || (c.y == j && c.z < k)))
}

/// For a grid coordinate `g` in the scan range of the interval
/// `[a_min, a_max]`, the world coordinate `g * step` stays within one step of
/// the interval.
proof fn lemma_scan_coordinate_bounds(a_min: int, a_max: int, g: int, step: int)
    requires
        1 <= step,
        a_min <= a_max,
        floor_div_i(a_min, step) <= g <= ceil_div_i(a_max, step),
    ensures
        a_min - step < g * step,
        g * step <= a_max + step,
{
    let lo = a_min / step;
    let hi = (a_max + step - 1) / step;
    lemma_fundamental_div_mod(a_min, step);
    lemma_mod_bound(a_min, step);
    lemma_fundamental_div_mod(a_max + step - 1, step);
    lemma_mod_bound(a_max + step - 1, step);
    lemma_mul_inequality(lo, g, step);
    lemma_mul_inequality(g, hi, step);
    lemma_mul_is_commutative(lo, step);
    lemma_mul_is_commutative(hi, step);
}

/// Inside the scan range the padded cell box is well formed and all its
/// corners stay within the bound that the separating-axis test accepts.
proof fn lemma_cell_box_bounds(t: TriI, step: int, eps: int, c: CellI)
    requires
        tri_wf(t),
        tri_in_bound(t, COORD_LIMIT as int),
        1 <= step <= COORD_LIMIT,
        0 <= eps <= step,
        in_scan_range(t, step, c),
    ensures
        t.aabb.min.x - step < c.x * step <= t.aabb.max.x + step,
        t.aabb.min.y - step < c.y * step <= t.aabb.max.y + step,
        t.aabb.min.z - step < c.z * step <= t.aabb.max.z + step,
        aabb_wf(cell_box(c, step, eps)),
        aabb_in_bound(cell_box(c, step, eps), SAT_BOUND as int),
{
    lemma_scan_coordinate_bounds(t.aabb.min.x, t.aabb.max.x, c.x, step);
    lemma_scan_coordinate_bounds(t.aabb.min.y, t.aabb.max.y, c.y, step);
    lemma_scan_coordinate_bounds(t.aabb.min.z, t.aabb.max.z, c.z, step);
}

/// Every cell of a triangle's scan range has coordinates within twice the
/// coordinate limit.
proof fn lemma_hit_cell_bounds(t: TriI, step: int, c: CellI)
    requires
        tri_wf(t),
        tri_in_bound(t, COORD_LIMIT as int),
        1 <= step <= COORD_LIMIT,
        in_scan_range(t, step, c),
    ensures
        -(GRID_LIMIT as int) <= c.x <= GRID_LIMIT as int,
        -(GRID_LIMIT as int) <= c.y <= GRID_LIMIT as int,
        -(GRID_LIMIT as int) <= c.z <= GRID_LIMIT as int,
{
    lemma_div_bound(t.aabb.min.x, step, COORD_LIMIT as int);
    lemma_div_bound(t.aabb.min.y, step, COORD_LIMIT as int);
    lemma_div_bound(t.aabb.min.z, step, COORD_LIMIT as int);
    lemma_div_bound(t.aabb.max.x + step - 1, step, 2 * COORD_LIMIT as int);
    lemma_div_bound(t.aabb.max.y + step - 1, step, 2 * COORD_LIMIT as int);
    lemma_div_bound(t.aabb.max.z + step - 1, step, 2 * COORD_LIMIT as int);
}

/// Minimum grid coordinate of the scan range of a box: floor of the minimum
/// corner divided by the step.
pub open spec fn grid_lo(b: AabbI, step: int) -> CellI {
    CellI {
        x: floor_div_i(b.min.x, step),
        y: floor_div_i(b.min.y, step),
        z: floor_div_i(b.min.z, step),
    }
}

/// Maximum grid coordinate of the scan range of a box: ceiling of the maximum
/// corner divided by the step.
pub open spec fn grid_hi(b: AabbI, step: int) -> CellI {
    CellI {
        x: ceil_div_i(b.max.x, step),
        y: ceil_div_i(b.max.y, step),
        z: ceil_div_i(b.max.z, step),
    }
}

/// The views of a sequence of cells.
pub open spec fn cells_view(s: Seq<Cell>) -> Seq<CellI> {
    s.map_values(|c: Cell| c@)
}

/// The reason a `Voxels` operation rejected its input.
#[derive(Clone, Copy, PartialEq, Eq, Structural, Debug)]
pub enum VoxelizeError {
    /// The grid step is zero, negative, or beyond the coordinate limit.
    InvalidStep,
    /// The face list is malformed: its length is not a multiple of three, or
    /// an index refers past the end of the vertex array.
    InvalidIndices,
    /// A coordinate is too large in magnitude for exact grid arithmetic.
    CoordinateOverflow,
}

/// The step is accepted: positive and within the coordinate limit.
pub open spec fn step_valid(step: int) -> bool {
    1 <= step <= COORD_LIMIT
}

/// The face list is accepted: a whole number of triples, every entry a valid
/// index into the vertex array.
pub open spec fn indices_valid(ids: Seq<usize>, n_verts: int) -> bool {
    &&& ids.len() % 3 == 0
    &&& forall|n: int| 0 <= n < ids.len() ==> (#[trigger] ids[n]) < n_verts
}

/// The vertex at position `n` of the vertex array, as a mathematical vector.
pub open spec fn vert_at(vs: Seq<[i64; 3]>, n: int) -> Vec3i {
    Vec3i { x: vs[n]@[0] as int, y: vs[n]@[1] as int, z: vs[n]@[2] as int }
}

/// Every vertex coordinate is within the coordinate limit.
pub open spec fn vertices_valid(vs: Seq<[i64; 3]>) -> bool {
    forall|n: int| 0 <= n < vs.len() ==> vec_in_bound(#[trigger] vert_at(vs, n), COORD_LIMIT as int)
}

/// The tight bounding box of three points.
pub open spec fn tight_box(p0: Vec3i, p1: Vec3i, p2: Vec3i) -> AabbI {
    AabbI {
        min: Vec3i {
            x: imin3(p0.x, p1.x, p2.x),
            y: imin3(p0.y, p1.y, p2.y),
            z: imin3(p0.z, p1.z, p2.z),
        },
        max: Vec3i {
            x: imax3(p0.x, p1.x, p2.x),
            y: imax3(p0.y, p1.y, p2.y),
            z: imax3(p0.z, p1.z, p2.z),
        },
    }
}

/// The triangle of face `f` of the mesh, with its tight bounding box.
pub open spec fn face_tri(vs: Seq<[i64; 3]>, ids: Seq<usize>, f: int) -> TriI {
    let p0 = vert_at(vs, ids[3 * f] as int);
    let p1 = vert_at(vs, ids[3 * f + 1] as int);
    let p2 = vert_at(vs, ids[3 * f + 2] as int);
    TriI { p0, p1, p2, aabb: tight_box(p0, p1, p2) }
}

/// The cell `c` belongs to the surface voxelization of the mesh: some face's
/// triangle reaches it.
pub open spec fn surface_cell(vs: Seq<[i64; 3]>, ids: Seq<usize>, step: int, c: CellI) -> bool {
    exists|f: int| 0 <= f < ids.len() / 3 && tri_cell_hit(#[trigger] face_tri(vs, ids, f), step, 0, c)
}

/// Appending a fresh element keeps a sequence duplicate-free.
proof fn lemma_push_no_dup<A>(s: Seq<A>, v: A)
    requires
        s.no_duplicates(),
        !s.contains(v),
    ensures
        s.push(v).no_duplicates(),
{
    assert forall|i: int, j: int| 0 <= i < s.push(v).len() && 0 <= j < s.push(v).len() && i != j
        implies s.push(v)[i] != s.push(v)[j] by {
        if i < s.len() && j < s.len() {
        } else if i < s.len() {
            assert(s.contains(s[i]));
        } else if j < s.len() {
            assert(s.contains(s[j]));
        }
    }
}

/// Linear membership test over a cell list.
fn contains_cell(cells: &Vec<Cell>, c: &Cell) -> (r: bool)
    ensures
        r == cells_view(cells@).contains(c@),
{
    let mut n: usize = 0;
    while n < cells.len()
        invariant
            0 <= n <= cells.len(),
            forall|m: int| 0 <= m < n ==> cells_view(cells@)[m] != c@,
        decreases cells.len() - n,
    {
        if cells[n].x == c.x && cells[n].y == c.y && cells[n].z == c.z {
            assert(cells_view(cells@)[n as int] == c@);
            return true;
        }
        n = n + 1;
    }
    assert(forall|m: int| 0 <= m < cells@.len() ==> cells_view(cells@)[m] != c@);
    false
}

/// Inserts every cell of `add` that `acc` does not hold yet, keeping `acc`
/// duplicate-free; afterwards `acc` holds the union of both.
#[verifier::loop_isolation(false)]
fn merge_cells(acc: &mut Vec<Cell>, add: &Vec<Cell>)
    requires
        cells_view(old(acc)@).no_duplicates(),
    ensures
        cells_view(final(acc)@).no_duplicates(),
        forall|c: CellI| #[trigger] cells_view(final(acc)@).contains(c) <==> (cells_view(
            old(acc)@,
        ).contains(c) || cells_view(add@).contains(c)),
{
    let mut h: usize = 0;
    while h < add.len()
        invariant
            0 <= h <= add.len(),
            cells_view(acc@).no_duplicates(),
            forall|c: CellI| #[trigger] cells_view(acc@).contains(c) <==> (cells_view(
                old(acc)@,
            ).contains(c) || exists|n: int| 0 <= n < h && cells_view(add@)[n] == c),
        decreases add.len() - h,
    {
        let c = add[h];
        let ghost prev = acc@;
        if !contains_cell(acc, &c) {
            proof {
                lemma_push_no_dup(cells_view(prev), c@);
            }
            acc.push(c);
            proof {
                assert(cells_view(acc@) =~= cells_view(prev).push(c@));
            }
        }
        proof {
            assert(cells_view(acc@).contains(c@)) by {
                if cells_view(prev).contains(c@) {
                    let n = choose|n: int| 0 <= n < prev.len() && cells_view(prev)[n] == c@;
                    assert(cells_view(acc@)[n] == c@);
                } else {
                    assert(cells_view(acc@).last() == c@);
                }
            }
            assert forall|ci: CellI| #[trigger] cells_view(acc@).contains(ci) implies (cells_view(
                old(acc)@,
            ).contains(ci) || exists|n: int| 0 <= n < h + 1 && cells_view(add@)[n] == ci) by {
                if cells_view(prev).contains(ci) {
                } else {
                    assert(ci == c@);
                    assert(cells_view(add@)[h as int] == ci);
                }
            }
            assert forall|ci: CellI|
                (cells_view(old(acc)@).contains(ci) || exists|n: int|
                    0 <= n < h + 1 && cells_view(add@)[n] == ci) implies #[trigger] cells_view(
                acc@,
            ).contains(ci) by {
                if cells_view(prev).contains(ci) {
                    let n = choose|n: int| 0 <= n < prev.len() && cells_view(prev)[n] == ci;
                    assert(cells_view(acc@)[n] == ci);
                } else {
                    assert(ci == c@);
                }
            }
        }
        h = h + 1;
    }
}

/// Executable counterpart of [`line_cell`].
fn make_line_cell(axis: usize, a: i64, b: i64, w: i64) -> (r: Cell)
    requires
        axis < 3,
    ensures
        r@ == line_cell(axis as int, a as int, b as int, w as int),
{
    if axis == 0 {
        Cell::new(w, a, b)
    } else if axis == 1 {
        Cell::new(b, w, a)
    } else {
        Cell::new(a, b, w)
    }
}

/// Executable counterpart of [`line_coords`].
fn line_parts(axis: usize, c: &Cell) -> (r: (i64, i64, i64))
    requires
        axis < 3,
    ensures
        (r.0 as int, r.1 as int, r.2 as int) == line_coords(axis as int, c@),
{
    if axis == 0 {
        (c.y, c.z, c.x)
    } else if axis == 1 {
        (c.z, c.x, c.y)
    } else {
        (c.x, c.y, c.z)
    }
}

/// Inserts one cell unless it is already present, keeping the list
/// duplicate-free.
fn insert_cell(cells: &mut Vec<Cell>, c: Cell)
    requires
        cells_view(old(cells)@).no_duplicates(),
    ensures
        cells_view(final(cells)@).no_duplicates(),
        forall|ci: CellI| #[trigger] cells_view(final(cells)@).contains(ci) <==> (cells_view(
            old(cells)@,
        ).contains(ci) || ci == c@),
        cells_in_grid(cells_view(old(cells)@)) && in_grid_cell(c@) ==> cells_in_grid(
            cells_view(final(cells)@),
        ),
{
    let ghost prev = cells@;
    if !contains_cell(cells, &c) {
        proof {
            lemma_push_no_dup(cells_view(prev), c@);
        }
        cells.push(c);
        proof {
            assert(cells_view(cells@) =~= cells_view(prev).push(c@));
            assert forall|ci: CellI| #[trigger] cells_view(cells@).contains(ci) <==> (cells_view(
                prev,
            ).contains(ci) || ci == c@) by {
                if cells_view(cells@).contains(ci) {
                    let n = choose|n: int|
                        0 <= n < cells_view(cells@).len() && cells_view(cells@)[n] == ci;
                    if n < prev.len() {
                        assert(cells_view(prev)[n] == ci);
                    }
                } else {
                    if cells_view(prev).contains(ci) {
                        let n = choose|n: int|
                            0 <= n < prev.len() && cells_view(prev)[n] == ci;
                        assert(cells_view(cells@)[n] == ci);
                    }
                    assert(!(ci == c@)) by {
                        if ci == c@ {
                            assert(cells_view(cells@).last() == ci);
                        }
                    }
                }
            }
        }
    } else {
        proof {
            let n = choose|n: int| 0 <= n < prev.len() && cells_view(prev)[n] == c@;
        }
    }
}

/// A sparse voxel occupancy set: the grid coordinates of the occupied cells
/// (each held once) together with the positive grid step.
#[derive(Debug)]
pub struct Voxels {
    cells: Vec<Cell>,
    step: i64,
}

impl View for Voxels {
    type V = Set<CellI>;

    /// The mathematical set of occupied grid cells.
    closed spec fn view(&self) -> Set<CellI> {
        cells_view(self.cells@).to_set()
    }
}

impl Voxels {
    /// The occupied cells in their storage order (duplicate-free).
    pub closed spec fn cell_seq(self) -> Seq<CellI> {
        cells_view(self.cells@)
    }

    /// The grid step.
    pub closed spec fn step_spec(self) -> int {
        self.step as int
    }

    /// Internal invariant: a positive in-range step, no duplicate cells, and
    /// every stored coordinate within the grid limit.
    pub closed spec fn wf(self) -> bool {
        &&& step_valid(self.step as int)
        &&& self.cell_seq().no_duplicates()
        &&& cells_in_grid(self.cell_seq())
    }

    /// The view is the set of the stored cells.
    pub proof fn lemma_view_is_cell_seq(self)
        ensures
            self@ == self.cell_seq().to_set(),
    {
    }

    /// What well-formedness guarantees about the stored cells: the sequence
    /// holds no duplicates (so its length is the size of the set of occupied
    /// cells), and every coordinate is within the grid limit.  Together with
    /// the constructors' contracts this lets a caller compute exact lengths
    /// for the outputs of [`Voxels::vertices_indices`], [`Voxels::point_cloud`]
    /// and [`Voxels::cell_list`].
    pub proof fn lemma_wf_cell_seq(self)
        requires
            self.wf(),
        ensures
            self.cell_seq().no_duplicates(),
            cells_in_grid(self.cell_seq()),
            self.cell_seq().len() == self@.len(),
            self.cell_seq().to_set() == self@,
    {
        self.cell_seq().unique_seq_to_set();
    }

    /// The set of occupied cells is finite.
    pub proof fn lemma_view_finite(self)
        ensures
            self@.finite(),
    {
        broadcast use vstd::seq_lib::seq_to_set_is_finite;

        assert(self.cell_seq().to_set().finite());
    }

    /// Number of occupied cells.
    pub fn len(&self) -> (r: usize)
        requires
            self.wf(),
        ensures
            r == self@.len(),
    {
        proof {
            self.cell_seq().unique_seq_to_set();
        }
        self.cells.len()
    }

    /// The grid step.
    pub fn step(&self) -> (r: i64)
        ensures
            r == self.step_spec(),
    {
        self.step
    }

    /// Membership test for one grid cell.
    pub fn contains(&self, c: &Cell) -> (r: bool)
        ensures
            r == self@.contains(c@),
    {
        contains_cell(&self.cells, c)
    }

    /// A copy of the occupied cells in storage order.
    pub fn cell_list(&self) -> (r: Vec<Cell>)
        ensures
            cells_view(r@) == self.cell_seq(),
    {
        let mut out: Vec<Cell> = Vec::new();
        let mut n: usize = 0;
        while n < self.cells.len()
            invariant
                0 <= n <= self.cells@.len(),
                out@.len() == n,
                forall|m: int| 0 <= m < n ==> out@[m] == self.cells@[m],
            decreases self.cells@.len() - n,
        {
            out.push(self.cells[n]);
            n = n + 1;
        }
        proof {
            assert(cells_view(out@) =~= cells_view(self.cells@));
        }
        out
    }

    /// Builds an occupancy set from a list of cells (duplicates are merged)
    /// and a step, rejecting an out-of-range step or coordinate.
    #[verifier::loop_isolation(false)]
    pub fn new(grid_positions: &Vec<Cell>, step: i64) -> (r: Result<Voxels, VoxelizeError>)
        ensures
            !step_valid(step as int) ==> r == Err::<Voxels, VoxelizeError>(
                VoxelizeError::InvalidStep,
            ),
            step_valid(step as int) && !cells_in_grid(cells_view(grid_positions@)) ==> r == Err::<
                Voxels,
                VoxelizeError,
            >(VoxelizeError::CoordinateOverflow),
            step_valid(step as int) && cells_in_grid(cells_view(grid_positions@)) ==> {
                &&& r matches Ok(v)
                &&& v.wf()
                &&& v.step_spec() == step as int
                &&& v@ == cells_view(grid_positions@).to_set()
            },
    {
        if step < 1 || step > COORD_LIMIT {
            return Err(VoxelizeError::InvalidStep);
        }
        let mut n: usize = 0;
        while n < grid_positions.len()
            invariant
                0 <= n <= grid_positions@.len(),
                forall|m: int| 0 <= m < n ==> {
                    let c = #[trigger] cells_view(grid_positions@)[m];
                    &&& -(GRID_LIMIT as int) <= c.x <= GRID_LIMIT as int
                    &&& -(GRID_LIMIT as int) <= c.y <= GRID_LIMIT as int
                    &&& -(GRID_LIMIT as int) <= c.z <= GRID_LIMIT as int
                },
            decreases grid_positions@.len() - n,
        {
            let c = grid_positions[n];
            if c.x < -GRID_LIMIT || c.x > GRID_LIMIT || c.y < -GRID_LIMIT || c.y > GRID_LIMIT
                || c.z < -GRID_LIMIT || c.z > GRID_LIMIT {
                assert(cells_view(grid_positions@)[n as int] == c@);
                assert(!cells_in_grid(cells_view(grid_positions@)));
                return Err(VoxelizeError::CoordinateOverflow);
            }
            n = n + 1;
        }
        let mut cells: Vec<Cell> = Vec::new();
        merge_cells(&mut cells, grid_positions);
        let v = Voxels { cells, step };
        proof {
            assert(v@ =~= cells_view(grid_positions@).to_set());
            assert forall|m: int| 0 <= m < v.cell_seq().len() implies {
                let c = #[trigger] v.cell_seq()[m];
                &&& -(GRID_LIMIT as int) <= c.x <= GRID_LIMIT as int
                &&& -(GRID_LIMIT as int) <= c.y <= GRID_LIMIT as int
                &&& -(GRID_LIMIT as int) <= c.z <= GRID_LIMIT as int
            } by {
                assert(v.cell_seq().contains(v.cell_seq()[m]));
                assert(cells_view(grid_positions@).contains(v.cell_seq()[m]));
                let w = choose|w: int|
                    0 <= w < grid_positions@.len() && cells_view(grid_positions@)[w]
                        == v.cell_seq()[m];
            }
        }
        Ok(v)
    }

    /// Voxelizes the surface of a triangle mesh: builds one triangle per
    /// index triple and unions the per-triangle hit sets into one
    /// deduplicated occupancy set.  The result does not depend on the face
    /// order.  Fails fast on an invalid step, a malformed face list, or an
    /// out-of-range coordinate.
    #[verifier::loop_isolation(false)]
    pub fn voxelize(vertices: &Vec<[i64; 3]>, indices: &Vec<usize>, step: i64) -> (r: Result<
        Voxels,
        VoxelizeError,
    >)
        ensures
            !step_valid(step as int) ==> r == Err::<Voxels, VoxelizeError>(
                VoxelizeError::InvalidStep,
            ),
            step_valid(step as int) && !indices_valid(indices@, vertices@.len() as int) ==> r
                == Err::<Voxels, VoxelizeError>(VoxelizeError::InvalidIndices),
            step_valid(step as int) && indices_valid(indices@, vertices@.len() as int)
                && !vertices_valid(vertices@) ==> r == Err::<Voxels, VoxelizeError>(
                VoxelizeError::CoordinateOverflow,
            ),
            step_valid(step as int) && indices_valid(indices@, vertices@.len() as int)
                && vertices_valid(vertices@) ==> {
                &&& r matches Ok(v)
                &&& v.wf()
                &&& v.step_spec() == step as int
                &&& forall|c: CellI|
                    v@.contains(c) <==> surface_cell(vertices@, indices@, step as int, c)
            },
    {
        if step < 1 || step > COORD_LIMIT {
            return Err(VoxelizeError::InvalidStep);
        }
        if indices.len() % 3 != 0 {
            return Err(VoxelizeError::InvalidIndices);
        }
        let mut n: usize = 0;
        while n < indices.len()
            invariant
                0 <= n <= indices@.len(),
                forall|m: int| 0 <= m < n ==> (#[trigger] indices@[m]) < vertices@.len(),
            decreases indices@.len() - n,
        {
            if indices[n] >= vertices.len() {
                return Err(VoxelizeError::InvalidIndices);
            }
            n = n + 1;
        }
        let mut n: usize = 0;
        while n < vertices.len()
            invariant
                0 <= n <= vertices@.len(),
                forall|m: int|
                    0 <= m < n ==> vec_in_bound(#[trigger] vert_at(vertices@, m), COORD_LIMIT as int),
            decreases vertices@.len() - n,
        {
            let vx = vertices[n][0];
            let vy = vertices[n][1];
            let vz = vertices[n][2];
            if vx < -COORD_LIMIT || vx > COORD_LIMIT || vy < -COORD_LIMIT || vy > COORD_LIMIT
                || vz < -COORD_LIMIT || vz > COORD_LIMIT {
                assert(!vec_in_bound(vert_at(vertices@, n as int), COORD_LIMIT as int));
                return Err(VoxelizeError::CoordinateOverflow);
            }
            n = n + 1;
        }
        let ghost vs = vertices@;
        let ghost ids = indices@;
        let ghost s = step as int;
        let n_faces = indices.len() / 3;
        proof {
            lemma_fundamental_div_mod(ids.len() as int, 3);
        }
        let mut cells: Vec<Cell> = Vec::new();
        let mut f: usize = 0;
        while f < n_faces
            invariant
                0 <= f <= n_faces,
                cells_view(cells@).no_duplicates(),
                cells_in_grid(cells_view(cells@)),
                forall|c: CellI| #[trigger] cells_view(cells@).contains(c) <==> exists|g: int|
                    0 <= g < f && tri_cell_hit(#[trigger] face_tri(vs, ids, g), s, 0, c),
            decreases n_faces - f,
        {
            let i0 = indices[3 * f];
            let i1 = indices[3 * f + 1];
            let i2 = indices[3 * f + 2];
            let p0 = Vector3::new(
                vertices[i0][0] as i128,
                vertices[i0][1] as i128,
                vertices[i0][2] as i128,
            );
            let p1 = Vector3::new(
                vertices[i1][0] as i128,
                vertices[i1][1] as i128,
                vertices[i1][2] as i128,
            );
            let p2 = Vector3::new(
                vertices[i2][0] as i128,
                vertices[i2][1] as i128,
                vertices[i2][2] as i128,
            );
            let tri = Triangle::new(&p0, &p1, &p2);
            proof {
                assert(vert_at(vs, i0 as int) == p0@);
                assert(vert_at(vs, i1 as int) == p1@);
                assert(vert_at(vs, i2 as int) == p2@);
                assert(tri@ == face_tri(vs, ids, f as int));
                assert(tri_in_bound(tri@, COORD_LIMIT as int));
            }
            let hits = tri.voxelize(step, 0);
            let ghost before = cells@;
            merge_cells(&mut cells, &hits);
            proof {
                assert forall|m: int| 0 <= m < cells_view(cells@).len() implies {
                    let c = #[trigger] cells_view(cells@)[m];
                    &&& -(GRID_LIMIT as int) <= c.x <= GRID_LIMIT as int
                    &&& -(GRID_LIMIT as int) <= c.y <= GRID_LIMIT as int
                    &&& -(GRID_LIMIT as int) <= c.z <= GRID_LIMIT as int
                } by {
                    let c = cells_view(cells@)[m];
                    assert(cells_view(cells@).contains(c));
                    if cells_view(before).contains(c) {
                        let w = choose|w: int|
                            0 <= w < before.len() && cells_view(before)[w] == c;
                    } else {
                        assert(cells_view(hits@).contains(c));
                        let w = choose|w: int|
                            0 <= w < hits@.len() && cells_view(hits@)[w] == c;
                        assert(hits@[w]@ == c);
                        assert(tri_cell_hit(tri@, s, 0, c));
                        lemma_hit_cell_bounds(tri@, s, c);
                    }
                }
                assert forall|c: CellI| #[trigger] cells_view(cells@).contains(c) implies exists|
                    g: int,
                |
                    0 <= g < f + 1 && tri_cell_hit(#[trigger] face_tri(vs, ids, g), s, 0, c) by {
                    if cells_view(before).contains(c) {
                        let g = choose|g: int|
                            0 <= g < f && tri_cell_hit(#[trigger] face_tri(vs, ids, g), s, 0, c);
                        assert(tri_cell_hit(face_tri(vs, ids, g), s, 0, c));
                    } else {
                        assert(cells_view(hits@).contains(c));
                        let w = choose|w: int|
                            0 <= w < hits@.len() && cells_view(hits@)[w] == c;
                        assert(hits@[w]@ == c);
                        assert(tri_cell_hit(face_tri(vs, ids, f as int), s, 0, c));
                    }
                }
                assert forall|c: CellI|
                    (exists|g: int|
                        0 <= g < f + 1 && tri_cell_hit(
                            #[trigger] face_tri(vs, ids, g),
                            s,
                            0,
                            c,
                        )) implies #[trigger] cells_view(cells@).contains(c) by {
                    let g = choose|g: int|
                        0 <= g < f + 1 && tri_cell_hit(#[trigger] face_tri(vs, ids, g), s, 0, c);
                    if g < f {
                        assert(cells_view(before).contains(c));
                    } else {
                        assert(tri_cell_hit(tri@, s, 0, c));
                        lemma_hit_cell_bounds(tri@, s, c);
                        let cl = Cell {
                            x: c.x as i64,
                            y: c.y as i64,
                            z: c.z as i64,
                        };
                        assert(cl@ == c);
                        assert(hits@.contains(cl));
                        let w = choose|w: int| 0 <= w < hits@.len() && hits@[w] == cl;
                        assert(cells_view(hits@)[w] == c);
                        assert(cells_view(hits@).contains(c));
                    }
                }
            }
            f = f + 1;
        }
        let v = Voxels { cells, step };
        proof {
            assert forall|c: CellI| v@.contains(c) implies surface_cell(vs, ids, s, c) by {
                assert(cells_view(v.cells@).contains(c));
            }
            assert forall|c: CellI| surface_cell(vs, ids, s, c) implies v@.contains(c) by {
                assert(cells_view(v.cells@).contains(c));
            }
        }
        Ok(v)
    }

    /// Componentwise extremes of the occupied cells: `None` exactly when the
    /// set is empty, otherwise the smallest and largest coordinate on each
    /// axis (each attained by some occupied cell).
    #[verifier::loop_isolation(false)]
    pub fn min_max(&self) -> (r: Option<(Cell, Cell)>)
        requires
            self.wf(),
        ensures
            r is None <==> self@.len() == 0,
            r matches Some((lo, hi)) ==> {
                &&& forall|c: CellI| #[trigger] self@.contains(c) ==> {
                    &&& lo@.x <= c.x <= hi@.x
                    &&& lo@.y <= c.y <= hi@.y
                    &&& lo@.z <= c.z <= hi@.z
                }
                &&& exists|c: CellI| self@.contains(c) && c.x == lo@.x
                &&& exists|c: CellI| self@.contains(c) && c.y == lo@.y
                &&& exists|c: CellI| self@.contains(c) && c.z == lo@.z
                &&& exists|c: CellI| self@.contains(c) && c.x == hi@.x
                &&& exists|c: CellI| self@.contains(c) && c.y == hi@.y
                &&& exists|c: CellI| self@.contains(c) && c.z == hi@.z
                &&& -(GRID_LIMIT as int) <= lo@.x <= hi@.x <= GRID_LIMIT as int
                &&& -(GRID_LIMIT as int) <= lo@.y <= hi@.y <= GRID_LIMIT as int
                &&& -(GRID_LIMIT as int) <= lo@.z <= hi@.z <= GRID_LIMIT as int
            },
    {
        proof {
            self.cell_seq().unique_seq_to_set();
        }
        if self.cells.len() == 0 {
            return None;
        }
        let ghost sq = self.cell_seq();
        let first = self.cells[0];
        let mut lo_x = first.x;
        let mut lo_y = first.y;
        let mut lo_z = first.z;
        let mut hi_x = first.x;
        let mut hi_y = first.y;
        let mut hi_z = first.z;
        proof {
            assert(sq[0] == first@);
        }
        let mut n: usize = 1;
        while n < self.cells.len()
            invariant
                1 <= n <= sq.len(),
                forall|m: int| 0 <= m < n ==> {
                    let c = #[trigger] sq[m];
                    &&& lo_x as int <= c.x <= hi_x as int
                    &&& lo_y as int <= c.y <= hi_y as int
                    &&& lo_z as int <= c.z <= hi_z as int
                },
                exists|m: int| 0 <= m < n && (#[trigger] sq[m]).x == lo_x as int,
                exists|m: int| 0 <= m < n && (#[trigger] sq[m]).y == lo_y as int,
                exists|m: int| 0 <= m < n && (#[trigger] sq[m]).z == lo_z as int,
                exists|m: int| 0 <= m < n && (#[trigger] sq[m]).x == hi_x as int,
                exists|m: int| 0 <= m < n && (#[trigger] sq[m]).y == hi_y as int,
                exists|m: int| 0 <= m < n && (#[trigger] sq[m]).z == hi_z as int,
            decreases sq.len() - n,
        {
            let c = self.cells[n];
            let ghost oldv = (lo_x, lo_y, lo_z, hi_x, hi_y, hi_z);
            if c.x < lo_x {
                lo_x = c.x;
            }
            if c.y < lo_y {
                lo_y = c.y;
            }
            if c.z < lo_z {
                lo_z = c.z;
            }
            if c.x > hi_x {
                hi_x = c.x;
            }
            if c.y > hi_y {
                hi_y = c.y;
            }
            if c.z > hi_z {
                hi_z = c.z;
            }
            proof {
                assert(sq[n as int] == c@);
                assert(exists|m: int| 0 <= m < n + 1 && (#[trigger] sq[m]).x == lo_x as int) by {
                    if lo_x == c.x {
                        assert(sq[n as int].x == lo_x as int);
                    } else {
                        let m = choose|m: int| 0 <= m < n && (#[trigger] sq[m]).x == oldv.0 as int;
                        assert(sq[m].x == lo_x as int);
                    }
                }
                assert(exists|m: int| 0 <= m < n + 1 && (#[trigger] sq[m]).y == lo_y as int) by {
                    if lo_y == c.y {
                        assert(sq[n as int].y == lo_y as int);
                    } else {
                        let m = choose|m: int| 0 <= m < n && (#[trigger] sq[m]).y == oldv.1 as int;
                        assert(sq[m].y == lo_y as int);
                    }
                }
                assert(exists|m: int| 0 <= m < n + 1 && (#[trigger] sq[m]).z == lo_z as int) by {
                    if lo_z == c.z {
                        assert(sq[n as int].z == lo_z as int);
                    } else {
                        let m = choose|m: int| 0 <= m < n && (#[trigger] sq[m]).z == oldv.2 as int;
                        assert(sq[m].z == lo_z as int);
                    }
                }
                assert(exists|m: int| 0 <= m < n + 1 && (#[trigger] sq[m]).x == hi_x as int) by {
                    if hi_x == c.x {
                        assert(sq[n as int].x == hi_x as int);
                    } else {
                        let m = choose|m: int| 0 <= m < n && (#[trigger] sq[m]).x == oldv.3 as int;
                        assert(sq[m].x == hi_x as int);
                    }
                }
                assert(exists|m: int| 0 <= m < n + 1 && (#[trigger] sq[m]).y == hi_y as int) by {
                    if hi_y == c.y {
                        assert(sq[n as int].y == hi_y as int);
                    } else {
                        let m = choose|m: int| 0 <= m < n && (#[trigger] sq[m]).y == oldv.4 as int;
                        assert(sq[m].y == hi_y as int);
                    }
                }
                assert(exists|m: int| 0 <= m < n + 1 && (#[trigger] sq[m]).z == hi_z as int) by {
                    if hi_z == c.z {
                        assert(sq[n as int].z == hi_z as int);
                    } else {
                        let m = choose|m: int| 0 <= m < n && (#[trigger] sq[m]).z == oldv.5 as int;
                        assert(sq[m].z == hi_z as int);
                    }
                }
            }
            n = n + 1;
        }
        let lo = Cell::new(lo_x, lo_y, lo_z);
        let hi = Cell::new(hi_x, hi_y, hi_z);
        proof {
            assert forall|c: CellI| #[trigger] self@.contains(c) implies {
                &&& lo@.x <= c.x <= hi@.x
                &&& lo@.y <= c.y <= hi@.y
                &&& lo@.z <= c.z <= hi@.z
            } by {
                let m = choose|m: int| 0 <= m < sq.len() && sq[m] == c;
            }
            let m = choose|m: int| 0 <= m < sq.len() && (#[trigger] sq[m]).x == lo_x as int;
            assert(sq.contains(sq[m]) && self@.contains(sq[m]));
            let m = choose|m: int| 0 <= m < sq.len() && (#[trigger] sq[m]).y == lo_y as int;
            assert(sq.contains(sq[m]) && self@.contains(sq[m]));
            let m = choose|m: int| 0 <= m < sq.len() && (#[trigger] sq[m]).z == lo_z as int;
            assert(sq.contains(sq[m]) && self@.contains(sq[m]));
            let m = choose|m: int| 0 <= m < sq.len() && (#[trigger] sq[m]).x == hi_x as int;
            assert(sq.contains(sq[m]) && self@.contains(sq[m]));
            let m = choose|m: int| 0 <= m < sq.len() && (#[trigger] sq[m]).y == hi_y as int;
            assert(sq.contains(sq[m]) && self@.contains(sq[m]));
            let m = choose|m: int| 0 <= m < sq.len() && (#[trigger] sq[m]).z == hi_z as int;
            assert(sq.contains(sq[m]) && self@.contains(sq[m]));
        }
        Some((lo, hi))
    }

    /// One parity sweep: walks every scan line of the given axis across the
    /// bounding box `[lo, hi]` of the occupied cells and collects every cell
    /// that the line classifies as interior (odd number of runs ending below
    /// it, an occupied cell above it).
    #[verifier::loop_isolation(false)]
    #[verifier::rlimit(100)]
    fn sweep(&self, axis: usize, lo: &Cell, hi: &Cell) -> (cand: Vec<Cell>)
        requires
            self.wf(),
            axis < 3,
            forall|d: CellI| #[trigger] self@.contains(d) ==> {
                &&& lo@.x <= d.x <= hi@.x
                &&& lo@.y <= d.y <= hi@.y
                &&& lo@.z <= d.z <= hi@.z
            },
            in_grid_cell(lo@),
            in_grid_cell(hi@),
            lo@.x <= hi@.x && lo@.y <= hi@.y && lo@.z <= hi@.z,
        ensures
            cells_view(cand@).no_duplicates(),
            cells_in_grid(cells_view(cand@)),
            forall|c: CellI| #[trigger] cells_view(cand@).contains(c) <==> axis_candidate(
                self@,
                axis as int,
                c,
            ),
    {
        let ghost s = self@;
        let ghost ax = axis as int;
        let ghost glo = -(GRID_LIMIT as int);
        let (la, lb, lw) = line_parts(axis, lo);
        let (ha, hb, hw) = line_parts(axis, hi);
        let mut cand: Vec<Cell> = Vec::new();
        let mut a = la;
        while a <= ha
            invariant
                la <= a <= ha + 1,
                cells_view(cand@).no_duplicates(),
                cells_in_grid(cells_view(cand@)),
                forall|c: CellI| #[trigger] cells_view(cand@).contains(c) <==> (axis_candidate(
                    s,
                    ax,
                    c,
                ) && line_before(ax, c, a as int, lb as int)),
            decreases ha - a + 1,
        {
            let mut b = lb;
            while b <= hb
                invariant
                    lb <= b <= hb + 1,
                    la <= a <= ha,
                    cells_view(cand@).no_duplicates(),
                    cells_in_grid(cells_view(cand@)),
                    forall|c: CellI| #[trigger] cells_view(cand@).contains(c) <==> (axis_candidate(
                        s,
                        ax,
                        c,
                    ) && line_before(ax, c, a as int, b as int)),
                decreases hb - b + 1,
            {
                proof {
                    assert forall|c: CellI| axis_candidate(s, ax, c) implies line_coords(ax, c).2
                        > lw as int by {
                        lemma_candidate_coords(s, ax, c, lo@, hi@);
                    }
                }
                let mut w = lw;
                let mut seen = false;
                let mut w_pre: i64 = 0;
                let mut inside = false;
                while w <= hw
                    invariant
                        lw <= w <= hw + 1,
                        cells_view(cand@).no_duplicates(),
                        cells_in_grid(cells_view(cand@)),
                        !seen ==> forall|v: int|
                            (lw as int) <= v < (w as int) ==> !s.contains(
                                #[trigger] line_cell(ax, a as int, b as int, v),
                            ),
                        seen ==> {
                            &&& lw <= w_pre < w
                            &&& s.contains(line_cell(ax, a as int, b as int, w_pre as int))
                            &&& forall|v: int|
                                (w_pre as int) < v < (w as int) ==> !s.contains(
                                    #[trigger] line_cell(ax, a as int, b as int, v),
                                )
                            &&& inside == (descents(s, ax, a as int, b as int, glo, w_pre as int)
                                % 2 == 0)
                        },
                        forall|c: CellI| #[trigger] cells_view(cand@).contains(c) <==> (
                        axis_candidate(s, ax, c) && (line_before(ax, c, a as int, b as int) || (
                        line_coords(ax, c).0 == a as int && line_coords(ax, c).1 == b as int
                            && line_coords(ax, c).2 < (if seen {
                            w_pre as int
                        } else {
                            lw as int
                        })))),
                    decreases hw - w + 1,
                {
                    let cur = make_line_cell(axis, a, b, w);
                    if self.contains(&cur) {
                        if !seen {
                            proof {
                                assert forall|v: int| glo <= v < w as int implies !s.contains(
                                    #[trigger] line_cell(ax, a as int, b as int, v),
                                ) by {
                                    if s.contains(line_cell(ax, a as int, b as int, v)) {
                                        assert(line_coords(ax, line_cell(ax, a as int, b as int, v)).2
                                            == v);
                                    }
                                }
                                lemma_descents_flat(s, ax, a as int, b as int, glo, glo, w as int);
                                assert(descents(s, ax, a as int, b as int, glo, w as int) == 0);
                                assert forall|c: CellI|
                                    axis_candidate(s, ax, c) && line_coords(ax, c).0 == a as int
                                        && line_coords(ax, c).1 == b as int && line_coords(
                                        ax,
                                        c,
                                    ).2 < w as int implies line_coords(ax, c).2 < lw as int by {
                                    let cw = line_coords(ax, c).2;
                                    if glo <= cw {
                                        lemma_descents_flat(s, ax, a as int, b as int, glo, glo, cw);
                                    } else {
                                        lemma_candidate_coords(s, ax, c, lo@, hi@);
                                    }
                                }
                            }
                            seen = true;
                            inside = true;
                            w_pre = w;
                        } else {
                            let ghost d_pre = descents(s, ax, a as int, b as int, glo, w_pre as int);
                            if w - w_pre > 1 {
                                proof {
                                    // a run ends at w_pre, and the gap holds no further descent
                                    assert(!s.contains(line_cell(ax, a as int, b as int, w_pre as int
                                        + 1)));
                                    assert(descents(s, ax, a as int, b as int, glo, w_pre as int + 1)
                                        == d_pre + 1);
                                }
                                if inside {
                                    let mut p = w_pre + 1;
                                    while p < w
                                        invariant
                                            w_pre + 1 <= p <= w - 1 + 1,
                                            cells_view(cand@).no_duplicates(),
                                            cells_in_grid(cells_view(cand@)),
                                            forall|c: CellI| #[trigger] cells_view(cand@).contains(c)
                                                <==> (axis_candidate(s, ax, c) && (line_before(
                                                ax,
                                                c,
                                                a as int,
                                                b as int,
                                            ) || (line_coords(ax, c).0 == a as int && line_coords(
                                                ax,
                                                c,
                                            ).1 == b as int && line_coords(ax, c).2 < p as int))),
                                        decreases w - p,
                                    {
                                        let gap_cell = make_line_cell(axis, a, b, p);
                                        proof {
                                            lemma_descents_flat(
                                                s,
                                                ax,
                                                a as int,
                                                b as int,
                                                glo,
                                                w_pre as int + 1,
                                                p as int,
                                            );
                                            assert(descents(s, ax, a as int, b as int, glo, p as int)
                                                == d_pre + 1);
                                            assert(gap_cell@ == line_cell(
                                                ax,
                                                a as int,
                                                b as int,
                                                p as int,
                                            ));
                                            assert(line_coords(ax, gap_cell@) == (
                                                a as int,
                                                b as int,
                                                p as int,
                                            ));
                                            assert(!s.contains(gap_cell@));
                                            assert(descents(s, ax, a as int, b as int, glo, p as int)
                                                % 2 == 1);
                                            assert((hw as int) <= GRID_LIMIT as int);
                                            assert(s.contains(line_cell(ax, a as int, b as int, w as int)));
                                            assert((p as int) < (w as int) <= GRID_LIMIT as int);
                                            assert(exists|u: int|
                                                (p as int) < u <= GRID_LIMIT as int && s.contains(
                                                    #[trigger] line_cell(ax, a as int, b as int, u),
                                                ));
                                            assert(axis_candidate(s, ax, gap_cell@)) by {
                                                let ga = line_coords(ax, gap_cell@).0;
                                                let gb = line_coords(ax, gap_cell@).1;
                                                let gw = line_coords(ax, gap_cell@).2;
                                                assert(ga == a as int && gb == b as int && gw
                                                    == p as int);
                                                assert(!s.contains(gap_cell@));
                                                assert(descents(s, ax, ga, gb, glo, gw) % 2 == 1);
                                                assert(exists|u: int|
                                                    gw < u <= GRID_LIMIT as int && s.contains(
                                                        #[trigger] line_cell(ax, ga, gb, u),
                                                    ));
                                            }
                                        }
                                        insert_cell(&mut cand, gap_cell);
                                        p = p + 1;
                                    }
                                } else {
                                    proof {
                                        // even parity: no gap cell is a candidate
                                        assert forall|c: CellI|
                                            axis_candidate(s, ax, c) && line_coords(ax, c).0
                                                == a as int && line_coords(ax, c).1 == b as int
                                                && (w_pre as int) <= line_coords(ax, c).2 < (w as int)
                                            implies false by {
                                            let cw = line_coords(ax, c).2;
                                            if cw > w_pre as int {
                                                lemma_descents_flat(
                                                    s,
                                                    ax,
                                                    a as int,
                                                    b as int,
                                                    glo,
                                                    w_pre as int + 1,
                                                    cw,
                                                );
                                            }
                                        }
                                    }
                                }
                                inside = !inside;
                                proof {
                                    lemma_descents_flat(
                                        s,
                                        ax,
                                        a as int,
                                        b as int,
                                        glo,
                                        w_pre as int + 1,
                                        w as int,
                                    );
                                    assert(descents(s, ax, a as int, b as int, glo, w as int) == d_pre
                                        + 1);
                                }
                            } else {
                                proof {
                                    assert(descents(s, ax, a as int, b as int, glo, w as int)
                                        == d_pre);
                                }
                            }
                            w_pre = w;
                        }
                    }
                    w = w + 1;
                }
                proof {
                    // the line is complete: every candidate of line (a, b) is in
                    assert forall|c: CellI|
                        axis_candidate(s, ax, c) && line_coords(ax, c).0 == a as int && line_coords(
                            ax,
                            c,
                        ).1 == b as int implies line_coords(ax, c).2 < (if seen {
                        w_pre as int
                    } else {
                        lw as int
                    }) by {
                        let cw = line_coords(ax, c).2;
                        let u = choose|u: int|
                            cw < u <= GRID_LIMIT as int && s.contains(
                                #[trigger] line_cell(ax, a as int, b as int, u),
                            );
                        assert(s.contains(line_cell(ax, a as int, b as int, u)));
                        assert(line_coords(ax, line_cell(ax, a as int, b as int, u)).2 == u);
                        assert((lw as int) <= u <= (hw as int));
                    }
                    assert forall|c: CellI| #[trigger] cells_view(cand@).contains(c) <==> (
                    axis_candidate(s, ax, c) && line_before(ax, c, a as int, b as int + 1)) by {
                        if axis_candidate(s, ax, c) {
                            lemma_candidate_coords(s, ax, c, lo@, hi@);
                        }
                    }
                }
                b = b + 1;
            }
            proof {
                assert forall|c: CellI| #[trigger] cells_view(cand@).contains(c) <==> (
                axis_candidate(s, ax, c) && line_before(ax, c, a as int + 1, lb as int)) by {
                    if axis_candidate(s, ax, c) {
                        lemma_candidate_coords(s, ax, c, lo@, hi@);
                    }
                }
            }
            a = a + 1;
        }
        proof {
            assert forall|c: CellI| #[trigger] cells_view(cand@).contains(c) <==> axis_candidate(
                s,
                ax,
                c,
            ) by {
                if axis_candidate(s, ax, c) {
                    lemma_candidate_coords(s, ax, c, lo@, hi@);
                }
            }
        }
        cand
    }

    /// Solidifies the enclosed interior: three independent scan-line parity
    /// sweeps (one per axis) over the pre-fill set classify candidate cells,
    /// and exactly the cells accepted by all three sweeps are inserted.  The
    /// occupied set only grows; the step is unchanged.  Reliable
    /// classification assumes the surface is watertight at grid resolution
    /// (every scan line crosses it an even number of times); this is the
    /// caller's responsibility and is not checked here.
    #[verifier::loop_isolation(false)]
    pub fn fill(&mut self)
        requires
            old(self).wf(),
        ensures
            final(self).wf(),
            final(self).step_spec() == old(self).step_spec(),
            final(self)@ == old(self)@.union(interior_set(old(self)@)),
    {
        let ghost s0 = self@;
        let mm = self.min_max();
        match mm {
            None => {
                proof {
                    assert forall|c: CellI| !interior_cell(s0, c) by {
                        self.cell_seq().unique_seq_to_set();
                        if axis_candidate(s0, 2, c) {
                            let (a, b, w) = line_coords(2, c);
                            let u = choose|u: int|
                                w < u <= GRID_LIMIT as int && s0.contains(
                                    #[trigger] line_cell(2, a, b, u),
                                );
                            assert(s0.contains(line_cell(2, a, b, u)));
                            assert(self.cell_seq().contains(line_cell(2, a, b, u)));
                        }
                    }
                    assert(s0.union(interior_set(s0)) =~= s0);
                }
            },
            Some((lo, hi)) => {
                let cx = self.sweep(0, &lo, &hi);
                let cy = self.sweep(1, &lo, &hi);
                let cz = self.sweep(2, &lo, &hi);
                let mut n: usize = 0;
                while n < cx.len()
                    invariant
                        0 <= n <= cx@.len(),
                        self.step_spec() == old(self).step_spec(),
                        step_valid(self.step_spec()),
                        self.cell_seq().no_duplicates(),
                        cells_in_grid(self.cell_seq()),
                        forall|c: CellI| #[trigger] self.cell_seq().contains(c) <==> (s0.contains(c)
                            || exists|m: int|
                            0 <= m < n && cells_view(cx@)[m] == c && cells_view(cy@).contains(c)
                                && cells_view(cz@).contains(c)),
                    decreases cx@.len() - n,
                {
                    let c = cx[n];
                    let ghost prev = self.cell_seq();
                    if contains_cell(&cy, &c) && contains_cell(&cz, &c) {
                        proof {
                            assert(in_grid_cell(c@)) by {
                                assert(cells_view(cx@)[n as int] == c@);
                            }
                        }
                        insert_cell(&mut self.cells, c);
                    }
                    proof {
                        assert forall|ci: CellI| #[trigger] self.cell_seq().contains(ci) implies (
                        s0.contains(ci) || exists|m: int|
                            0 <= m < n + 1 && cells_view(cx@)[m] == ci && cells_view(cy@).contains(
                                ci,
                            ) && cells_view(cz@).contains(ci)) by {
                            if prev.contains(ci) {
                            } else {
                                assert(ci == c@);
                                assert(cells_view(cx@)[n as int] == ci);
                            }
                        }
                        assert forall|ci: CellI|
                            (s0.contains(ci) || exists|m: int|
                                0 <= m < n + 1 && cells_view(cx@)[m] == ci && cells_view(
                                    cy@,
                                ).contains(ci) && cells_view(cz@).contains(ci)) implies #[trigger] self.cell_seq().contains(ci) by {
                            if s0.contains(ci) {
                                assert(prev.contains(ci));
                            } else {
                                let m = choose|m: int|
                                    0 <= m < n + 1 && cells_view(cx@)[m] == ci && cells_view(
                                        cy@,
                                    ).contains(ci) && cells_view(cz@).contains(ci);
                                if m < n {
                                    assert(prev.contains(ci));
                                } else {
                                    assert(ci == c@);
                                }
                            }
                        }
                    }
                    n = n + 1;
                }
                proof {
                    assert forall|c: CellI| #[trigger] self@.contains(c) <==> (s0.contains(c)
                        || interior_cell(s0, c)) by {
                        assert(self@.contains(c) == self.cell_seq().contains(c));
                        if self.cell_seq().contains(c) && !s0.contains(c) {
                            let m = choose|m: int|
                                0 <= m < cx@.len() && cells_view(cx@)[m] == c && cells_view(
                                    cy@,
                                ).contains(c) && cells_view(cz@).contains(c);
                            assert(cells_view(cx@).contains(c));
                        }
                        if interior_cell(s0, c) && !s0.contains(c) {
                            assert(cells_view(cx@).contains(c));
                            let m = choose|m: int|
                                0 <= m < cx@.len() && cells_view(cx@)[m] == c;
                            assert(cells_view(cx@)[m] == c && cells_view(cy@).contains(c)
                                && cells_view(cz@).contains(c));
                        }
                    }
                    assert(self@ =~= s0.union(interior_set(s0)));
                }
            },
        }
    }

    /// Rebuilds a face-culled surface mesh: for every occupied cell, each of
    /// its six faces is emitted (as two triangles with outward winding) only
    /// if the neighboring cell in that face's direction is unoccupied.  No
    /// vertices are shared; the index list is the sequential range over the
    /// emitted vertices.
    #[verifier::loop_isolation(false)]
    #[verifier::rlimit(100)]
    pub fn vertices_indices(&self) -> (r: (Vec<[i64; 3]>, Vec<usize>))
        requires
            self.wf(),
        ensures
            points_view(r.0@) == mesh_points(self@, self.cell_seq(), self.step_spec()),
            r.1@.len() == r.0@.len(),
            forall|k: int| 0 <= k < r.1@.len() ==> r.1@[k] == k,
    {
        let ghost s = self@;
        let ghost sq = self.cell_seq();
        let ghost st = self.step_spec();
        let step = self.step;
        let mut verts: Vec<[i64; 3]> = Vec::new();
        let mut n: usize = 0;
        while n < self.cells.len()
            invariant
                0 <= n <= sq.len(),
                points_view(verts@) == mesh_points(s, sq.take(n as int), st),
            decreases sq.len() - n,
        {
            let c = self.cells[n];
            proof {
                assert(in_grid_cell(sq[n as int]));
            }
            let x0 = scale_coord(c.x, step);
            let y0 = scale_coord(c.y, step);
            let z0 = scale_coord(c.z, step);
            let x1 = x0 + step;
            let y1 = y0 + step;
            let z1 = z0 + step;
            let q1 = [x1, y1, z1];
            let q2 = [x1, y1, z0];
            let q3 = [x1, y0, z1];
            let q4 = [x1, y0, z0];
            let q5 = [x0, y1, z1];
            let q6 = [x0, y1, z0];
            let q7 = [x0, y0, z1];
            let q8 = [x0, y0, z0];
            let ghost at_cell = verts@;
            let mut d: usize = 0;
            while d < 6
                invariant
                    0 <= d <= 6,
                    points_view(verts@) == points_view(at_cell) + mesh_dirs_upto(
                        s,
                        sq[n as int],
                        st,
                        d as int,
                    ),
                decreases 6 - d,
            {
                let nb = if d == 0 {
                    Cell::new(c.x + 1, c.y, c.z)
                } else if d == 1 {
                    Cell::new(c.x - 1, c.y, c.z)
                } else if d == 2 {
                    Cell::new(c.x, c.y + 1, c.z)
                } else if d == 3 {
                    Cell::new(c.x, c.y - 1, c.z)
                } else if d == 4 {
                    Cell::new(c.x, c.y, c.z + 1)
                } else {
                    Cell::new(c.x, c.y, c.z - 1)
                };
                proof {
                    assert(nb@ == neighbor(sq[n as int], d as int));
                }
                let ghost prev = verts@;
                if !self.contains(&nb) {
                    if d == 0 {
                        verts.push(q1);
                        verts.push(q3);
                        verts.push(q2);
                        verts.push(q3);
                        verts.push(q4);
                        verts.push(q2);
                    } else if d == 1 {
                        verts.push(q5);
                        verts.push(q6);
                        verts.push(q7);
                        verts.push(q8);
                        verts.push(q7);
                        verts.push(q6);
                    } else if d == 2 {
                        verts.push(q1);
                        verts.push(q6);
                        verts.push(q5);
                        verts.push(q1);
                        verts.push(q2);
                        verts.push(q6);
                    } else if d == 3 {
                        verts.push(q7);
                        verts.push(q8);
                        verts.push(q3);
                        verts.push(q3);
                        verts.push(q8);
                        verts.push(q4);
                    } else if d == 4 {
                        verts.push(q7);
                        verts.push(q1);
                        verts.push(q5);
                        verts.push(q7);
                        verts.push(q3);
                        verts.push(q1);
                    } else {
                        verts.push(q6);
                        verts.push(q2);
                        verts.push(q8);
                        verts.push(q8);
                        verts.push(q2);
                        verts.push(q4);
                    }
                }
                proof {
                    assert(points_view(verts@) =~= points_view(prev) + cell_mesh_dir(
                        s,
                        sq[n as int],
                        st,
                        d as int,
                    ));
                }
                d = d + 1;
            }
            proof {
                assert(points_view(verts@) =~= points_view(at_cell) + cell_mesh(s, sq[n as int], st));
                assert(sq.take(n as int + 1).drop_last() =~= sq.take(n as int));
                assert(sq.take(n as int + 1).last() == sq[n as int]);
                assert(points_view(verts@) =~= mesh_points(s, sq.take(n as int + 1), st));
            }
            n = n + 1;
        }
        proof {
            assert(sq.take(sq.len() as int) =~= sq);
        }
        let mut inds: Vec<usize> = Vec::new();
        let mut k: usize = 0;
        let total = verts.len();
        while k < total
            invariant
                0 <= k <= total,
                total == verts@.len(),
                inds@.len() == k,
                forall|m: int| 0 <= m < k ==> inds@[m] == m,
            decreases total - k,
        {
            inds.push(k);
            k = k + 1;
        }
        (verts, inds)
    }

    /// Exports one representative world-space point per occupied cell: the
    /// cell's minimum corner, `coordinate * step`.
    #[verifier::loop_isolation(false)]
    pub fn point_cloud(&self) -> (r: Vec<[i64; 3]>)
        requires
            self.wf(),
        ensures
            r@.len() == self.cell_seq().len(),
            forall|k: int| 0 <= k < r@.len() ==> {
                let c = #[trigger] self.cell_seq()[k];
                &&& r@[k]@[0] == c.x * self.step_spec()
                &&& r@[k]@[1] == c.y * self.step_spec()
                &&& r@[k]@[2] == c.z * self.step_spec()
            },
    {
        let ghost sq = self.cell_seq();
        let mut out: Vec<[i64; 3]> = Vec::new();
        let mut n: usize = 0;
        while n < self.cells.len()
            invariant
                0 <= n <= sq.len(),
                out@.len() == n,
                forall|k: int| 0 <= k < n ==> {
                    let c = #[trigger] sq[k];
                    &&& out@[k]@[0] == c.x * self.step_spec()
                    &&& out@[k]@[1] == c.y * self.step_spec()
                    &&& out@[k]@[2] == c.z * self.step_spec()
                },
            decreases sq.len() - n,
        {
            let c = self.cells[n];
            proof {
                assert(in_grid_cell(sq[n as int]));
            }
            let p = [
                scale_coord(c.x, self.step),
                scale_coord(c.y, self.step),
                scale_coord(c.z, self.step),
            ];
            out.push(p);
            n = n + 1;
        }
        out
    }
}

/// No false positives: a cell kept by the voxelization of a triangle lies in
/// the triangle's scan range and its padded world box passes the
/// separating-axis overlap test against the triangle.
pub proof fn lemma_no_false_positives(t: TriI, step: int, eps: int, c: CellI)
    requires
        tri_cell_hit(t, step, eps, c),
    ensures
        in_scan_range(t, step, c),
        sat_intersects(t, cell_box(c, step, eps)),
{
}

/// A grid coordinate whose cell overlaps the interval `[a_min, a_max]` with
/// positive extent lies between the floor of the minimum and the ceiling of
/// the maximum, divided by the step.
pub proof fn lemma_axis_range_covers(a_min: int, a_max: int, g: int, step: int)
    requires
        1 <= step,
        g * step < a_max,
        g * step + step > a_min,
    ensures
        floor_div_i(a_min, step) <= g <= ceil_div_i(a_max, step),
{
    lemma_fundamental_div_mod(a_min, step);
    lemma_mod_bound(a_min, step);
    lemma_fundamental_div_mod(a_max + step - 1, step);
    lemma_mod_bound(a_max + step - 1, step);
    let q1 = a_min / step;
    let q2 = (a_max + step - 1) / step;
    assert(q1 <= g <= q2) by (nonlinear_arith)
        requires
            a_min == step * q1 + a_min % step,
            0 <= a_min % step < step,
            a_max + step - 1 == step * q2 + (a_max + step - 1) % step,
            0 <= (a_max + step - 1) % step < step,
            1 <= step,
            g * step < a_max,
            g * step + step > a_min,
    ;
}

/// No false negatives: every cell whose world box overlaps the triangle's
/// bounding box with positive extent on all three axes lies in the scan
/// range, so the voxelization keeps it exactly when the separating-axis test
/// reports overlap with its padded box.
pub proof fn lemma_scan_range_covers(t: TriI, step: int, c: CellI)
    requires
        1 <= step,
        c.x * step < t.aabb.max.x && c.x * step + step > t.aabb.min.x,
        c.y * step < t.aabb.max.y && c.y * step + step > t.aabb.min.y,
        c.z * step < t.aabb.max.z && c.z * step + step > t.aabb.min.z,
    ensures
        in_scan_range(t, step, c),
        forall|eps: int| sat_intersects(t, cell_box(c, step, eps)) ==> tri_cell_hit(t, step, eps, c),
{
    lemma_axis_range_covers(t.aabb.min.x, t.aabb.max.x, c.x, step);
    lemma_axis_range_covers(t.aabb.min.y, t.aabb.max.y, c.y, step);
    lemma_axis_range_covers(t.aabb.min.z, t.aabb.max.z, c.z, step);
}

/// Order-independence: two face lists that describe the same set of
/// triangles voxelize to the same occupancy set, whatever the order (and
/// multiplicity) of their faces.
pub proof fn lemma_voxelize_order_independent(
    vs: Seq<[i64; 3]>,
    ids1: Seq<usize>,
    ids2: Seq<usize>,
    step: int,
)
    requires
        forall|f: int| #![trigger face_tri(vs, ids1, f)]
            0 <= f < ids1.len() / 3 ==> exists|g: int|
                0 <= g < ids2.len() / 3 && #[trigger] face_tri(vs, ids2, g) == face_tri(
                    vs,
                    ids1,
                    f,
                ),
        forall|g: int| #![trigger face_tri(vs, ids2, g)]
            0 <= g < ids2.len() / 3 ==> exists|f: int|
                0 <= f < ids1.len() / 3 && #[trigger] face_tri(vs, ids1, f) == face_tri(
                    vs,
                    ids2,
                    g,
                ),
    ensures
        forall|c: CellI| surface_cell(vs, ids1, step, c) <==> surface_cell(vs, ids2, step, c),
{
    assert forall|c: CellI| surface_cell(vs, ids1, step, c) implies surface_cell(
        vs,
        ids2,
        step,
        c,
    ) by {
        let f = choose|f: int|
            0 <= f < ids1.len() / 3 && tri_cell_hit(#[trigger] face_tri(vs, ids1, f), step, 0, c);
        let g = choose|g: int|
            0 <= g < ids2.len() / 3 && #[trigger] face_tri(vs, ids2, g) == face_tri(vs, ids1, f);
        assert(tri_cell_hit(face_tri(vs, ids2, g), step, 0, c));
    }
    assert forall|c: CellI| surface_cell(vs, ids2, step, c) implies surface_cell(
        vs,
        ids1,
        step,
        c,
    ) by {
        let g = choose|g: int|
            0 <= g < ids2.len() / 3 && tri_cell_hit(#[trigger] face_tri(vs, ids2, g), step, 0, c);
        let f = choose|f: int|
            0 <= f < ids1.len() / 3 && #[trigger] face_tri(vs, ids1, f) == face_tri(vs, ids2, g);
        assert(tri_cell_hit(face_tri(vs, ids1, f), step, 0, c));
    }
}

/// Determinism across face orders: two occupancy sets characterized by the
/// surface voxelization of face lists with the same triangles are identical.
pub proof fn lemma_same_faces_same_voxels(
    vs: Seq<[i64; 3]>,
    ids1: Seq<usize>,
    ids2: Seq<usize>,
    step: int,
    s1: Set<CellI>,
    s2: Set<CellI>,
)
    requires
        forall|f: int| #![trigger face_tri(vs, ids1, f)]
            0 <= f < ids1.len() / 3 ==> exists|g: int|
                0 <= g < ids2.len() / 3 && #[trigger] face_tri(vs, ids2, g) == face_tri(
                    vs,
                    ids1,
                    f,
                ),
        forall|g: int| #![trigger face_tri(vs, ids2, g)]
            0 <= g < ids2.len() / 3 ==> exists|f: int|
                0 <= f < ids1.len() / 3 && #[trigger] face_tri(vs, ids1, f) == face_tri(
                    vs,
                    ids2,
                    g,
                ),
        forall|c: CellI| #[trigger] s1.contains(c) <==> surface_cell(vs, ids1, step, c),
        forall|c: CellI| #[trigger] s2.contains(c) <==> surface_cell(vs, ids2, step, c),
    ensures
        s1 == s2,
{
    assert forall|c: CellI| #[trigger] s1.contains(c) implies s2.contains(c) by {
        let f = choose|f: int|
            0 <= f < ids1.len() / 3 && tri_cell_hit(#[trigger] face_tri(vs, ids1, f), step, 0, c);
        let g = choose|g: int|
            0 <= g < ids2.len() / 3 && #[trigger] face_tri(vs, ids2, g) == face_tri(vs, ids1, f);
        assert(tri_cell_hit(face_tri(vs, ids2, g), step, 0, c));
    }
    assert forall|c: CellI| #[trigger] s2.contains(c) implies s1.contains(c) by {
        let g = choose|g: int|
            0 <= g < ids2.len() / 3 && tri_cell_hit(#[trigger] face_tri(vs, ids2, g), step, 0, c);
        let f = choose|f: int|
            0 <= f < ids1.len() / 3 && #[trigger] face_tri(vs, ids1, f) == face_tri(vs, ids2, g);
        assert(tri_cell_hit(face_tri(vs, ids1, f), step, 0, c));
    }
    assert(s1 =~= s2);
}

/// Monotonic volume: interior fill only adds cells, so the occupied-cell
/// count never decreases.
pub proof fn lemma_fill_monotone(before: Set<CellI>, after: Set<CellI>)
    requires
        before.finite(),
        after.finite(),
        after == before.union(interior_set(before)),
    ensures
        before.subset_of(after),
        before.len() <= after.len(),
{
    vstd::set_lib::lemma_len_subset(before, after);
}

/// Fill idempotence, characterized exactly: a second fill is a no-op if and
/// only if the first fill leaves no further interior candidates.  On a
/// surface that is watertight at grid resolution the candidates of the
/// filled solid are already occupied and the left-hand side holds; on other
/// inputs inserting a candidate can flip the run parity of a scan line above
/// it and produce new candidates, and fill makes no promise beyond this
/// equivalence.
pub proof fn lemma_fill_idempotent_iff(s: Set<CellI>)
    ensures
        ({
            let once = s.union(interior_set(s));
            once.union(interior_set(once)) == once <==> interior_set(once).subset_of(once)
        }),
{
    let once = s.union(interior_set(s));
    if interior_set(once).subset_of(once) {
        assert(once.union(interior_set(once)) =~= once);
    }
    if once.union(interior_set(once)) == once {
        assert forall|c: CellI| interior_set(once).contains(c) implies once.contains(c) by {
            assert(once.union(interior_set(once)).contains(c));
        }
    }
}

/// The cell of scan line `(a, b)` of the given axis at scan coordinate `w`:
/// for the x axis a line is indexed by `(y, z)`, for the y axis by `(z, x)`,
/// for the z axis by `(x, y)`.
pub open spec fn line_cell(axis: int, a: int, b: int, w: int) -> CellI {
    if axis == 0 {
        CellI { x: w, y: a, z: b }
    } else if axis == 1 {
        CellI { x: b, y: w, z: a }
    } else {
        CellI { x: a, y: b, z: w }
    }
}

/// The scan-line coordinates `(a, b, w)` of a cell on the given axis;
/// inverse of [`line_cell`].
pub open spec fn line_coords(axis: int, c: CellI) -> (int, int, int) {
    if axis == 0 {
        (c.y, c.z, c.x)
    } else if axis == 1 {
        (c.z, c.x, c.y)
    } else {
        (c.x, c.y, c.z)
    }
}

/// Number of descents of the scan line `(a, b)` in `[lo, w)`: positions `v`
/// where an occupied run ends (`v` occupied, `v + 1` not).
pub open spec fn descents(s: Set<CellI>, axis: int, a: int, b: int, lo: int, w: int) -> nat
    decreases w - lo,
{
    if w <= lo {
        0
    } else {
        descents(s, axis, a, b, lo, w - 1) + (if s.contains(line_cell(axis, a, b, w - 1))
            && !s.contains(line_cell(axis, a, b, w)) {
            1nat
        } else {
            0nat
        })
    }
}

/// Over a stretch without descents the count does not change.
pub proof fn lemma_descents_flat(s: Set<CellI>, axis: int, a: int, b: int, lo: int, v1: int, v2: int)
    requires
        lo <= v1 <= v2,
        forall|v: int|
            v1 <= v < v2 ==> !(s.contains(#[trigger] line_cell(axis, a, b, v)) && !s.contains(
                line_cell(axis, a, b, v + 1),
            )),
    ensures
        descents(s, axis, a, b, lo, v2) == descents(s, axis, a, b, lo, v1),
    decreases v2 - v1,
{
    if v1 < v2 {
        lemma_descents_flat(s, axis, a, b, lo, v1, v2 - 1);
    }
}

/// A positive descent count exhibits an occupied cell below.
pub proof fn lemma_descents_positive(s: Set<CellI>, axis: int, a: int, b: int, lo: int, w: int)
    requires
        descents(s, axis, a, b, lo, w) > 0,
    ensures
        exists|v: int| lo <= v < w && s.contains(#[trigger] line_cell(axis, a, b, v)),
    decreases w - lo,
{
    if w > lo {
        if s.contains(line_cell(axis, a, b, w - 1)) {
            assert(lo <= w - 1 < w && s.contains(line_cell(axis, a, b, w - 1)));
        } else {
            lemma_descents_positive(s, axis, a, b, lo, w - 1);
        }
    }
}

/// The cell `c` is classified interior by the parity sweep along one axis of
/// the occupancy set `s`: it is unoccupied, an odd number of occupied runs of
/// its scan line end strictly below it, and an occupied cell of its line lies
/// strictly above it.
pub open spec fn axis_candidate(s: Set<CellI>, axis: int, c: CellI) -> bool {
    let (a, b, w) = line_coords(axis, c);
    &&& !s.contains(c)
    &&& descents(s, axis, a, b, -(GRID_LIMIT as int), w) % 2 == 1
    &&& exists|u: int| w < u <= GRID_LIMIT as int && s.contains(#[trigger] line_cell(axis, a, b, u))
}

/// The cell is judged interior from all three principal directions.
pub open spec fn interior_cell(s: Set<CellI>, c: CellI) -> bool {
    &&& axis_candidate(s, 0, c)
    &&& axis_candidate(s, 1, c)
    &&& axis_candidate(s, 2, c)
}

/// The set of cells that the interior fill adds to the occupancy set `s`.
pub open spec fn interior_set(s: Set<CellI>) -> Set<CellI> {
    Set::new(|c: CellI| interior_cell(s, c))
}

/// The neighboring cell of `c` in face direction `d`; the directions are,
/// in order, x+, x-, y+, y-, z+, z-.
pub open spec fn neighbor(c: CellI, d: int) -> CellI {
    if d == 0 {
        CellI { x: c.x + 1, y: c.y, z: c.z }
    } else if d == 1 {
        CellI { x: c.x - 1, y: c.y, z: c.z }
    } else if d == 2 {
        CellI { x: c.x, y: c.y + 1, z: c.z }
    } else if d == 3 {
        CellI { x: c.x, y: c.y - 1, z: c.z }
    } else if d == 4 {
        CellI { x: c.x, y: c.y, z: c.z + 1 }
    } else {
        CellI { x: c.x, y: c.y, z: c.z - 1 }
    }
}

/// A corner of the world-space cube of cell `c`: `dx, dy, dz` select the
/// minimum (0) or maximum (1) face on each axis.
pub open spec fn corner(c: CellI, step: int, dx: int, dy: int, dz: int) -> Vec3i {
    Vec3i {
        x: c.x * step + dx * step,
        y: c.y * step + dy * step,
        z: c.z * step + dz * step,
    }
}

/// The six vertices (two triangles, outward winding) of face `d` of the cube
/// of cell `c`.
pub open spec fn face_points(c: CellI, step: int, d: int) -> Seq<Vec3i> {
    let p1 = corner(c, step, 1, 1, 1);
    let p2 = corner(c, step, 1, 1, 0);
    let p3 = corner(c, step, 1, 0, 1);
    let p4 = corner(c, step, 1, 0, 0);
    let p5 = corner(c, step, 0, 1, 1);
    let p6 = corner(c, step, 0, 1, 0);
    let p7 = corner(c, step, 0, 0, 1);
    let p8 = corner(c, step, 0, 0, 0);
    if d == 0 {
        seq![p1, p3, p2, p3, p4, p2]
    } else if d == 1 {
        seq![p5, p6, p7, p8, p7, p6]
    } else if d == 2 {
        seq![p1, p6, p5, p1, p2, p6]
    } else if d == 3 {
        seq![p7, p8, p3, p3, p8, p4]
    } else if d == 4 {
        seq![p7, p1, p5, p7, p3, p1]
    } else {
        seq![p6, p2, p8, p8, p2, p4]
    }
}

/// What the reconstruction emits for cell `c` in direction `d`: the face's
/// six vertices when the neighboring cell in that direction is unoccupied,
/// nothing otherwise (faces between two occupied cells are culled).
pub open spec fn cell_mesh_dir(s: Set<CellI>, c: CellI, step: int, d: int) -> Seq<Vec3i> {
    if s.contains(neighbor(c, d)) {
        Seq::empty()
    } else {
        face_points(c, step, d)
    }
}

/// What the reconstruction emits for the first `d` face directions of one
/// cell.
pub open spec fn mesh_dirs_upto(s: Set<CellI>, c: CellI, step: int, d: int) -> Seq<Vec3i>
    decreases d,
{
    if d <= 0 {
        Seq::empty()
    } else {
        mesh_dirs_upto(s, c, step, d - 1) + cell_mesh_dir(s, c, step, d - 1)
    }
}

/// What the reconstruction emits for one cell: its six face directions in
/// order.
pub open spec fn cell_mesh(s: Set<CellI>, c: CellI, step: int) -> Seq<Vec3i> {
    mesh_dirs_upto(s, c, step, 6)
}

/// What the reconstruction emits for a sequence of cells, in order.
pub open spec fn mesh_points(s: Set<CellI>, cs: Seq<CellI>, step: int) -> Seq<Vec3i>
    decreases cs.len(),
{
    if cs.len() == 0 {
        Seq::empty()
    } else {
        mesh_points(s, cs.drop_last(), step) + cell_mesh(s, cs.last(), step)
    }
}

/// A face between two occupied cells is never emitted: when the neighbor of
/// `c` in direction `d` is occupied, the reconstruction emits nothing for
/// that face.
pub proof fn lemma_face_culling(s: Set<CellI>, c: CellI, step: int, d: int)
    requires
        s.contains(neighbor(c, d)),
    ensures
        cell_mesh_dir(s, c, step, d) == Seq::<Vec3i>::empty(),
{
}

/// The vertex positions of an emitted mesh, as mathematical vectors.
pub open spec fn points_view(s: Seq<[i64; 3]>) -> Seq<Vec3i> {
    s.map_values(|p: [i64; 3]| Vec3i { x: p@[0] as int, y: p@[1] as int, z: p@[2] as int })
}

/// Scales one grid coordinate to world space.
fn scale_coord(v: i64, step: i64) -> (r: i64)
    requires
        -(GRID_LIMIT as int) <= v <= GRID_LIMIT as int,
        1 <= step <= COORD_LIMIT,
    ensures
        r == v * step,
        -(GRID_LIMIT as int * COORD_LIMIT as int) <= r <= GRID_LIMIT as int * COORD_LIMIT as int,
{
    proof {
        lemma_mul_bound(v as int, step as int, GRID_LIMIT as int, COORD_LIMIT as int);
    }
    v * step
}

/// The cell's coordinates lie within the grid limit.
pub open spec fn in_grid_cell(c: CellI) -> bool {
    &&& -(GRID_LIMIT as int) <= c.x <= GRID_LIMIT as int
    &&& -(GRID_LIMIT as int) <= c.y <= GRID_LIMIT as int
    &&& -(GRID_LIMIT as int) <= c.z <= GRID_LIMIT as int
}

/// Every cell of the sequence lies within the grid limit.
pub open spec fn cells_in_grid(s: Seq<CellI>) -> bool {
    forall|n: int| 0 <= n < s.len() ==> in_grid_cell(#[trigger] s[n])
}

/// The scan line of `c` comes strictly before line `(a, b)` in the sweep
/// order of the given axis.
spec fn line_before(axis: int, c: CellI, a: int, b: int) -> bool {
    let ca = line_coords(axis, c).0;
    let cb = line_coords(axis, c).1;
    ca < a || (ca == a && cb < b)
}

/// A parity-sweep candidate lies strictly inside the bounding box of the
/// occupied cells in its scan direction, and on a line that the box covers.
proof fn lemma_candidate_coords(s: Set<CellI>, axis: int, c: CellI, lo: CellI, hi: CellI)
    requires
        0 <= axis < 3,
        axis_candidate(s, axis, c),
        forall|d: CellI| #[trigger] s.contains(d) ==> {
            &&& lo.x <= d.x <= hi.x
            &&& lo.y <= d.y <= hi.y
            &&& lo.z <= d.z <= hi.z
        },
    ensures
        line_coords(axis, lo).0 <= line_coords(axis, c).0 <= line_coords(axis, hi).0,
        line_coords(axis, lo).1 <= line_coords(axis, c).1 <= line_coords(axis, hi).1,
        line_coords(axis, lo).2 < line_coords(axis, c).2 < line_coords(axis, hi).2,
{
    let a = line_coords(axis, c).0;
    let b = line_coords(axis, c).1;
    let w = line_coords(axis, c).2;
    let u = choose|u: int|
        w < u <= GRID_LIMIT as int && s.contains(#[trigger] line_cell(axis, a, b, u));
    assert(s.contains(line_cell(axis, a, b, u)));
    lemma_descents_positive(s, axis, a, b, -(GRID_LIMIT as int), w);
    let v = choose|v: int|
        -(GRID_LIMIT as int) <= v < w && s.contains(#[trigger] line_cell(axis, a, b, v));
    assert(s.contains(line_cell(axis, a, b, v)));
}

} // verus!
