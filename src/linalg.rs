//! Points, axes, exact fractions and rays.

use vstd::prelude::*;

verus! {

/// One of the three spatial axes.
#[derive(Copy, Clone, Debug, PartialEq, Eq, Structural)]
pub enum Axis {
    X,
    Y,
    Z,
}

/// A point or vector with integer coordinates.
#[derive(Copy, Clone, Debug, PartialEq, Eq, Structural)]
pub struct Vector {
    pub x: i32,
    pub y: i32,
    pub z: i32,
}

/// The coordinate of `v` on axis `i` (0 = x, 1 = y, 2 = z).
pub open spec fn coord(v: Vector, i: int) -> int {
    if i == 0 {
        v.x as int
    } else if i == 1 {
        v.y as int
    } else {
        v.z as int
    }
}

impl Vector {
    pub fn new(x: i32, y: i32, z: i32) -> (r: Vector)
        ensures
            r.x == x && r.y == y && r.z == z,
    {
        Vector { x, y, z }
    }

    /// A vector with every coordinate equal to `v`.
    pub fn broadcast(v: i32) -> (r: Vector)
        ensures
            r.x == v && r.y == v && r.z == v,
    {
        Vector { x: v, y: v, z: v }
    }

    /// The coordinate on axis `i` (0 = x, 1 = y, 2 = z).
    pub fn get(&self, i: usize) -> (r: i32)
        requires
            i < 3,
        ensures
            r as int == coord(*self, i as int),
    {
        if i == 0 {
            self.x
        } else if i == 1 {
            self.y
        } else {
            self.z
        }
    }
}

/// The fraction `num / den`. Fractions are compared by value, with `lt_frac`.
#[derive(Copy, Clone, Debug, PartialEq, Eq, Structural)]
pub struct Frac {
    pub num: i64,
    pub den: i64,
}

/// `n1 / d1 < n2 / d2`, for positive denominators.
pub open spec fn frac_lt(n1: int, d1: int, n2: int, d2: int) -> bool {
    n1 * d2 < n2 * d1
}

/// `n1 / d1 <= n2 / d2`, for positive denominators.
pub open spec fn frac_le(n1: int, d1: int, n2: int, d2: int) -> bool {
    n1 * d2 <= n2 * d1
}

proof fn lemma_i64_product(a: int, b: int)
    requires
        i64::MIN <= a <= i64::MAX,
        i64::MIN <= b <= i64::MAX,
    ensures
        -0x4000_0000_0000_0000_0000_0000_0000_0000 <= a * b <= 0x4000_0000_0000_0000_0000_0000_0000_0000,
{
    assert(-0x8000_0000_0000_0000 <= a <= 0x8000_0000_0000_0000);
    assert(-0x8000_0000_0000_0000 <= b <= 0x8000_0000_0000_0000);
    assert(-0x4000_0000_0000_0000_0000_0000_0000_0000 <= a * b <= 0x4000_0000_0000_0000_0000_0000_0000_0000)
        by (nonlinear_arith)
        requires
            -0x8000_0000_0000_0000 <= a <= 0x8000_0000_0000_0000,
            -0x8000_0000_0000_0000 <= b <= 0x8000_0000_0000_0000,
    ;
}

/// Compares two fractions exactly: `n1 / d1 < n2 / d2`.
pub fn lt_frac(n1: i64, d1: i64, n2: i64, d2: i64) -> (r: bool)
    ensures
        r == frac_lt(n1 as int, d1 as int, n2 as int, d2 as int),
{
    proof {
        lemma_i64_product(n1 as int, d2 as int);
        lemma_i64_product(n2 as int, d1 as int);
    }
    (n1 as i128) * (d2 as i128) < (n2 as i128) * (d1 as i128)
}

/// Transitivity of `<=` on fractions with positive denominators.
pub proof fn lemma_frac_le_trans(n1: int, d1: int, n2: int, d2: int, n3: int, d3: int)
    requires
        d1 > 0,
        d2 > 0,
        d3 > 0,
        frac_le(n1, d1, n2, d2),
        frac_le(n2, d2, n3, d3),
    ensures
        frac_le(n1, d1, n3, d3),
{
    assert(n1 * d3 <= n3 * d1) by (nonlinear_arith)
        requires
            d1 > 0,
            d2 > 0,
            d3 > 0,
            n1 * d2 <= n2 * d1,
            n2 * d3 <= n3 * d2,
    {
        assert(n1 * d2 * d3 <= n2 * d1 * d3);
        assert(n2 * d3 * d1 <= n3 * d2 * d1);
        assert(n1 * d3 * d2 <= n3 * d1 * d2);
    }
}

/// `a <= b < c` gives `a < c`, on fractions with positive denominators.
pub proof fn lemma_frac_le_lt(n1: int, d1: int, n2: int, d2: int, n3: int, d3: int)
    requires
        d1 > 0,
        d2 > 0,
        d3 > 0,
        frac_le(n1, d1, n2, d2),
        frac_lt(n2, d2, n3, d3),
    ensures
        frac_lt(n1, d1, n3, d3),
{
    assert(n1 * d3 < n3 * d1) by (nonlinear_arith)
        requires
            d1 > 0,
            d2 > 0,
            d3 > 0,
            n1 * d2 <= n2 * d1,
            n2 * d3 < n3 * d2,
    {
        assert(n1 * d2 * d3 <= n2 * d1 * d3);
        assert(n2 * d3 * d1 < n3 * d2 * d1);
        assert(n1 * d3 * d2 < n3 * d1 * d2);
    }
}

/// `a < b <= c` gives `a < c`, on fractions with positive denominators.
pub proof fn lemma_frac_lt_le(n1: int, d1: int, n2: int, d2: int, n3: int, d3: int)
    requires
        d1 > 0,
        d2 > 0,
        d3 > 0,
        frac_lt(n1, d1, n2, d2),
        frac_le(n2, d2, n3, d3),
    ensures
        frac_lt(n1, d1, n3, d3),
{
    assert(n1 * d3 < n3 * d1) by (nonlinear_arith)
        requires
            d1 > 0,
            d2 > 0,
            d3 > 0,
            n1 * d2 < n2 * d1,
            n2 * d3 <= n3 * d2,
    {
        assert(n1 * d2 * d3 < n2 * d1 * d3);
        assert(n2 * d3 * d1 <= n3 * d2 * d1);
        assert(n1 * d3 * d2 < n3 * d1 * d2);
    }
}

/// A ray `origin + t * dir`, valid for parameters strictly between `t_min` and `t_max`.
#[derive(Copy, Clone, Debug, PartialEq, Eq, Structural)]
pub struct Ray {
    pub origin: Vector,
    pub dir: Vector,
    pub t_min: Frac,
    pub t_max: Frac,
}

impl Ray {
    /// The ray's bounds have positive denominators.
    pub open spec fn wf(&self) -> bool {
        self.t_min.den > 0 && self.t_max.den > 0
    }

    /// For each axis, 1 where the direction is negative on it, else 0.
    pub fn neg_dir(&self) -> (r: [usize; 3])
        ensures
            forall|i: int| 0 <= i < 3 ==> r@[i] == (if coord(self.dir, i) < 0 { 1usize } else { 0usize }),
    {
        let x: usize = if self.dir.x < 0 { 1 } else { 0 };
        let y: usize = if self.dir.y < 0 { 1 } else { 0 };
        let z: usize = if self.dir.z < 0 { 1 } else { 0 };
        [x, y, z]
    }
}

} // verus!
