//! Three-component vector arithmetic over fixed-point (integer) coordinates.
//!
//! `Vec3i` is the unbounded mathematical vector used by specifications;
//! `Vector3` is its executable counterpart with `i128` components.  Every
//! operation carries an exact contract: the result equals the corresponding
//! mathematical operation on the views.

use vstd::prelude::*;

verus! {

/// Mathematical (unbounded) three-component integer vector, used in
/// specifications only.
pub ghost struct Vec3i {
    pub x: int,
    pub y: int,
    pub z: int,
}

/// Absolute value on `int`.
pub open spec fn iabs(x: int) -> int {
    if x < 0 {
        -x
    } else {
        x
    }
}

/// Componentwise negation.
pub open spec fn neg_i(a: Vec3i) -> Vec3i {
    Vec3i { x: -a.x, y: -a.y, z: -a.z }
}

/// Scaling by a scalar.
pub open spec fn scale_i(a: Vec3i, k: int) -> Vec3i {
    Vec3i { x: a.x * k, y: a.y * k, z: a.z * k }
}

/// Componentwise sum.
pub open spec fn add_i(a: Vec3i, b: Vec3i) -> Vec3i {
    Vec3i { x: a.x + b.x, y: a.y + b.y, z: a.z + b.z }
}

/// Componentwise difference.
pub open spec fn sub_i(a: Vec3i, b: Vec3i) -> Vec3i {
    Vec3i { x: a.x - b.x, y: a.y - b.y, z: a.z - b.z }
}

/// Dot product.
pub open spec fn dot_i(a: Vec3i, b: Vec3i) -> int {
    a.x * b.x + a.y * b.y + a.z * b.z
}

/// Cross product.
pub open spec fn cross_i(a: Vec3i, b: Vec3i) -> Vec3i {
    Vec3i {
        x: a.y * b.z - a.z * b.y,
        y: a.z * b.x - a.x * b.z,
        z: a.x * b.y - a.y * b.x,
    }
}

/// Every component of `v` lies in `[-m, m]`.
pub open spec fn vec_in_bound(v: Vec3i, m: int) -> bool {
    -m <= v.x <= m && -m <= v.y <= m && -m <= v.z <= m
}

/// A product of values bounded by `m` and `n` is bounded by `m * n`.
pub proof fn lemma_mul_bound(a: int, b: int, m: int, n: int)
    requires
        -m <= a <= m,
        -n <= b <= n,
        0 <= m,
        0 <= n,
    ensures
        -(m * n) <= a * b <= m * n,
{
    assert(-(m * n) <= a * b <= m * n) by (nonlinear_arith)
        requires
            -m <= a <= m,
            -n <= b <= n,
            0 <= m,
            0 <= n,
    ;
}

/// A dot product of vectors bounded by `m` and `n` has summands bounded by
/// `m * n` and value bounded by `3 * (m * n)`.
pub proof fn lemma_dot_in_range(a: Vec3i, b: Vec3i, m: int, n: int)
    requires
        vec_in_bound(a, m),
        vec_in_bound(b, n),
        0 <= m,
        0 <= n,
    ensures
        iabs(a.x * b.x) + iabs(a.y * b.y) + iabs(a.z * b.z) <= 3 * (m * n),
        -(3 * (m * n)) <= dot_i(a, b) <= 3 * (m * n),
{
    lemma_mul_bound(a.x, b.x, m, n);
    lemma_mul_bound(a.y, b.y, m, n);
    lemma_mul_bound(a.z, b.z, m, n);
}

/// A cross product of vectors bounded by `m` and `n` has components bounded
/// by `2 * (m * n)`, and the pairs of products that form them stay in range.
pub proof fn lemma_cross_in_range(a: Vec3i, b: Vec3i, m: int, n: int)
    requires
        vec_in_bound(a, m),
        vec_in_bound(b, n),
        0 <= m,
        0 <= n,
    ensures
        iabs(a.y * b.z) + iabs(a.z * b.y) <= 2 * (m * n),
        iabs(a.z * b.x) + iabs(a.x * b.z) <= 2 * (m * n),
        iabs(a.x * b.y) + iabs(a.y * b.x) <= 2 * (m * n),
        vec_in_bound(cross_i(a, b), 2 * (m * n)),
{
    lemma_mul_bound(a.y, b.z, m, n);
    lemma_mul_bound(a.z, b.y, m, n);
    lemma_mul_bound(a.z, b.x, m, n);
    lemma_mul_bound(a.x, b.z, m, n);
    lemma_mul_bound(a.x, b.y, m, n);
    lemma_mul_bound(a.y, b.x, m, n);
}

/// Minimum of three values.
pub open spec fn imin3(a: int, b: int, c: int) -> int {
    if a <= b && a <= c {
        a
    } else if b <= c {
        b
    } else {
        c
    }
}

/// Maximum of three values.
pub open spec fn imax3(a: int, b: int, c: int) -> int {
    if a >= b && a >= c {
        a
    } else if b >= c {
        b
    } else {
        c
    }
}

/// Minimum of three `i128` values.
pub fn min3(a: i128, b: i128, c: i128) -> (r: i128)
    ensures
        r == imin3(a as int, b as int, c as int),
{
    if a <= b && a <= c {
        a
    } else if b <= c {
        b
    } else {
        c
    }
}

/// Maximum of three `i128` values.
pub fn max3(a: i128, b: i128, c: i128) -> (r: i128)
    ensures
        r == imax3(a as int, b as int, c as int),
{
    if a >= b && a >= c {
        a
    } else if b >= c {
        b
    } else {
        c
    }
}

/// Absolute value of an `i128` (the minimum value is excluded so that the
/// negation cannot overflow).
pub fn abs_i128(x: i128) -> (r: i128)
    requires
        i128::MIN < x,
    ensures
        r == iabs(x as int),
{
    if x < 0 {
        -x
    } else {
        x
    }
}

/// Executable three-component vector of fixed-point coordinates.
pub struct Vector3 {
    pub x: i128,
    pub y: i128,
    pub z: i128,
}

impl View for Vector3 {
    type V = Vec3i;

    open spec fn view(&self) -> Vec3i {
        Vec3i { x: self.x as int, y: self.y as int, z: self.z as int }
    }
}

impl Clone for Vector3 {
    fn clone(&self) -> (r: Self)
        ensures
            r@ == self@,
    {
        Vector3 { x: self.x, y: self.y, z: self.z }
    }
}

impl Vector3 {
    /// Builds the vector `(x, y, z)`.
    pub fn new(x: i128, y: i128, z: i128) -> (r: Self)
        ensures
            r@ == (Vec3i { x: x as int, y: y as int, z: z as int }),
    {
        Vector3 { x, y, z }
    }

    /// Dot product; the bound on the three summands rules overflow out.
    pub fn dot(&self, other: &Self) -> (r: i128)
        requires
            iabs(self@.x * other@.x) + iabs(self@.y * other@.y) + iabs(self@.z * other@.z)
                <= i128::MAX,
        ensures
            r == dot_i(self@, other@),
    {
        self.x * other.x + self.y * other.y + self.z * other.z
    }

    /// Cross product; each bound rules overflow in one component out.
    pub fn cross(&self, rhs: &Self) -> (r: Self)
        requires
            iabs(self@.y * rhs@.z) + iabs(self@.z * rhs@.y) <= i128::MAX,
            iabs(self@.z * rhs@.x) + iabs(self@.x * rhs@.z) <= i128::MAX,
            iabs(self@.x * rhs@.y) + iabs(self@.y * rhs@.x) <= i128::MAX,
        ensures
            r@ == cross_i(self@, rhs@),
    {
        let x = self.y * rhs.z - self.z * rhs.y;
        let y = self.z * rhs.x - self.x * rhs.z;
        let z = self.x * rhs.y - self.y * rhs.x;
        Vector3::new(x, y, z)
    }

    /// The unit vector along x.
    pub fn x_axis() -> (r: Self)
        ensures
            r@ == (Vec3i { x: 1, y: 0, z: 0 }),
    {
        Vector3::new(1, 0, 0)
    }

    /// The unit vector along y.
    pub fn y_axis() -> (r: Self)
        ensures
            r@ == (Vec3i { x: 0, y: 1, z: 0 }),
    {
        Vector3::new(0, 1, 0)
    }

    /// The unit vector along z.
    pub fn z_axis() -> (r: Self)
        ensures
            r@ == (Vec3i { x: 0, y: 0, z: 1 }),
    {
        Vector3::new(0, 0, 1)
    }

    /// Componentwise sum.
    pub fn add(&self, other: &Self) -> (r: Self)
        requires
            i128::MIN <= self@.x + other@.x <= i128::MAX,
            i128::MIN <= self@.y + other@.y <= i128::MAX,
            i128::MIN <= self@.z + other@.z <= i128::MAX,
        ensures
            r@ == add_i(self@, other@),
    {
        Vector3::new(self.x + other.x, self.y + other.y, self.z + other.z)
    }

    /// Componentwise negation.
    pub fn neg(&self) -> (r: Self)
        requires
            i128::MIN < self@.x,
            i128::MIN < self@.y,
            i128::MIN < self@.z,
        ensures
            r@ == neg_i(self@),
    {
        Vector3::new(-self.x, -self.y, -self.z)
    }

    /// Scaling by a scalar.
    pub fn mul(&self, rhs: i128) -> (r: Self)
        requires
            iabs(self@.x * rhs) <= i128::MAX,
            iabs(self@.y * rhs) <= i128::MAX,
            iabs(self@.z * rhs) <= i128::MAX,
        ensures
            r@ == scale_i(self@, rhs as int),
    {
        Vector3::new(self.x * rhs, self.y * rhs, self.z * rhs)
    }

    /// Componentwise difference.
    pub fn sub(&self, other: &Self) -> (r: Self)
        requires
            i128::MIN <= self@.x - other@.x <= i128::MAX,
            i128::MIN <= self@.y - other@.y <= i128::MAX,
            i128::MIN <= self@.z - other@.z <= i128::MAX,
        ensures
            r@ == sub_i(self@, other@),
    {
        Vector3::new(self.x - other.x, self.y - other.y, self.z - other.z)
    }
}

} // verus!
