//! Axis-aligned bounding boxes with an exact ray-slab intersection test.

use vstd::prelude::*;

use crate::linalg::{
    coord, frac_le, frac_lt, lemma_frac_le_lt, lemma_frac_le_trans,
    lemma_frac_lt_le, lt_frac, Axis, Frac, Ray,
    Vector,
};

verus! {

/// A box between the `min` and `max` corners.
#[derive(Copy, Clone, Debug, PartialEq, Eq, Structural)]
pub struct BBox {
    pub min: Vector,
    pub max: Vector,
}

pub open spec fn min_i32(a: i32, b: i32) -> i32 {
    if a <= b {
        a
    } else {
        b
    }
}

pub open spec fn max_i32(a: i32, b: i32) -> i32 {
    if a >= b {
        a
    } else {
        b
    }
}

/// Componentwise minimum of two vectors.
pub open spec fn vmin(a: Vector, b: Vector) -> Vector {
    Vector { x: min_i32(a.x, b.x), y: min_i32(a.y, b.y), z: min_i32(a.z, b.z) }
}

/// Componentwise maximum of two vectors.
pub open spec fn vmax(a: Vector, b: Vector) -> Vector {
    Vector { x: max_i32(a.x, b.x), y: max_i32(a.y, b.y), z: max_i32(a.z, b.z) }
}

/// The empty box: the identity of union.
pub open spec fn empty_box() -> BBox {
    BBox {
        min: Vector { x: i32::MAX, y: i32::MAX, z: i32::MAX },
        max: Vector { x: i32::MIN, y: i32::MIN, z: i32::MIN },
    }
}

/// The smallest box holding both boxes.
pub open spec fn union_of(a: BBox, b: BBox) -> BBox {
    BBox { min: vmin(a.min, b.min), max: vmax(a.max, b.max) }
}

/// The smallest box holding `a` and the point `p`.
pub open spec fn point_union_of(a: BBox, p: Vector) -> BBox {
    BBox { min: vmin(a.min, p), max: vmax(a.max, p) }
}

/// A box whose corners are ordered on every axis.
pub open spec fn valid(b: BBox) -> bool {
    b.min.x <= b.max.x && b.min.y <= b.max.y && b.min.z <= b.max.z
}

/// The point lies within the box, borders included.
pub open spec fn contains(b: BBox, p: Vector) -> bool {
    b.min.x <= p.x <= b.max.x && b.min.y <= p.y <= b.max.y && b.min.z <= p.z <= b.max.z
}

/// A box that unions and point unions can produce from the empty box.
pub open spec fn grown(b: BBox) -> bool {
    b == empty_box() || valid(b)
}

/// The extent of the box on axis `i`.
pub open spec fn extent(b: BBox, i: int) -> int {
    coord(b.max, i) - coord(b.min, i)
}

/// Twice the sum of the products of the extents, taken pairwise.
pub open spec fn area_of(b: BBox) -> int {
    2 * (extent(b, 0) * extent(b, 1) + extent(b, 0) * extent(b, 2) + extent(b, 1) * extent(b, 2))
}

/// The axis of largest extent; on a tie the earlier of X, Y, Z.
pub open spec fn longest_axis(b: BBox) -> Axis {
    if extent(b, 0) >= extent(b, 1) && extent(b, 0) >= extent(b, 2) {
        Axis::X
    } else if extent(b, 1) >= extent(b, 2) {
        Axis::Y
    } else {
        Axis::Z
    }
}

/// The ray's direction on axis `i`.
pub open spec fn dir(r: Ray, i: int) -> int {
    coord(r.dir, i)
}

/// The distance covered on axis `i` per unit of the ray parameter.
pub open spec fn slab_den(r: Ray, i: int) -> int {
    if dir(r, i) < 0 {
        -dir(r, i)
    } else {
        dir(r, i)
    }
}

/// Numerator of the parameter at which the ray enters the slab of axis `i`.
pub open spec fn near_num(b: BBox, r: Ray, i: int) -> int {
    if dir(r, i) > 0 {
        coord(b.min, i) - coord(r.origin, i)
    } else {
        coord(r.origin, i) - coord(b.max, i)
    }
}

/// Numerator of the parameter at which the ray leaves the slab of axis `i`.
pub open spec fn far_num(b: BBox, r: Ray, i: int) -> int {
    if dir(r, i) > 0 {
        coord(b.max, i) - coord(r.origin, i)
    } else {
        coord(r.origin, i) - coord(b.min, i)
    }
}

/// A ray parallel to axis `i` starts within that slab.
pub open spec fn parallel_ok(b: BBox, r: Ray, i: int) -> bool {
    dir(r, i) == 0 ==> coord(b.min, i) <= coord(r.origin, i) <= coord(b.max, i)
}

/// The ray enters the slab of axis `i` no later than it leaves the slab of axis `j`.
pub open spec fn slabs_meet(b: BBox, r: Ray, i: int, j: int) -> bool {
    dir(r, i) != 0 && dir(r, j) != 0 ==> frac_le(
        near_num(b, r, i),
        slab_den(r, i),
        far_num(b, r, j),
        slab_den(r, j),
    )
}

/// The slab of axis `i` is entered before `t_max` and left after `t_min`.
pub open spec fn slab_in_range(b: BBox, r: Ray, i: int) -> bool {
    dir(r, i) != 0 ==> {
        &&& frac_lt(near_num(b, r, i), slab_den(r, i), r.t_max.num as int, r.t_max.den as int)
        &&& frac_lt(r.t_min.num as int, r.t_min.den as int, far_num(b, r, i), slab_den(r, i))
    }
}

/// The per-axis slab test: the slabs' parameter intervals share a point, and that
/// common interval overlaps the ray's valid range.
pub open spec fn slab_hit(b: BBox, r: Ray) -> bool {
    &&& forall|i: int| 0 <= i < 3 ==> #[trigger] parallel_ok(b, r, i)
    &&& forall|i: int, j: int| 0 <= i < 3 && 0 <= j < 3 ==> #[trigger] slabs_meet(b, r, i, j)
    &&& forall|i: int| 0 <= i < 3 ==> #[trigger] slab_in_range(b, r, i)
}

/// What `neg_dir` must hold for a ray: 1 on the axes where it points negative, else 0.
pub open spec fn neg_dir_of(r: Ray, neg_dir: [usize; 3]) -> bool {
    forall|i: int| 0 <= i < 3 ==> neg_dir@[i] == (if dir(r, i) < 0 { 1usize } else { 0usize })
}

/// Box `b` lies within box `c`: each corner of `b` is at least as far in as `c`'s.
pub open spec fn within(b: BBox, c: BBox) -> bool {
    &&& c.min.x <= b.min.x && c.min.y <= b.min.y && c.min.z <= b.min.z
    &&& b.max.x <= c.max.x && b.max.y <= c.max.y && b.max.z <= c.max.z
}

proof fn lemma_mul_mono(a: int, b: int, c: int)
    requires
        a <= b,
        c > 0,
    ensures
        a * c <= b * c,
{
    assert(a * c <= b * c) by (nonlinear_arith)
        requires
            a <= b,
            c > 0,
    ;
}

/// A ray that passes the slab test on a box passes it on every box around it.
pub proof fn lemma_slab_hit_grows(b: BBox, c: BBox, r: Ray)
    requires
        r.wf(),
        slab_hit(b, r),
        within(b, c),
    ensures
        slab_hit(c, r),
{
    assert forall|i: int| 0 <= i < 3 implies #[trigger] parallel_ok(c, r, i) by {
        assert(parallel_ok(b, r, i));
    }
    assert forall|i: int, j: int| 0 <= i < 3 && 0 <= j < 3 implies #[trigger] slabs_meet(c, r, i, j) by {
        assert(slabs_meet(b, r, i, j));
        if dir(r, i) != 0 && dir(r, j) != 0 {
            lemma_mul_mono(near_num(c, r, i), near_num(b, r, i), slab_den(r, j));
            lemma_mul_mono(far_num(b, r, j), far_num(c, r, j), slab_den(r, i));
        }
    }
    assert forall|i: int| 0 <= i < 3 implies #[trigger] slab_in_range(c, r, i) by {
        assert(slab_in_range(b, r, i));
        if dir(r, i) != 0 {
            lemma_mul_mono(near_num(c, r, i), near_num(b, r, i), r.t_max.den as int);
            lemma_mul_mono(far_num(b, r, i), far_num(c, r, i), r.t_min.den as int);
        }
    }
}

/// A ray that passes the slab test still passes it with a later `t_max`.
pub proof fn lemma_slab_hit_later_end(b: BBox, r1: Ray, r2: Ray)
    requires
        r1.wf(),
        r2.wf(),
        r1.origin == r2.origin,
        r1.dir == r2.dir,
        r1.t_min == r2.t_min,
        frac_le(r1.t_max.num as int, r1.t_max.den as int, r2.t_max.num as int, r2.t_max.den as int),
        slab_hit(b, r1),
    ensures
        slab_hit(b, r2),
{
    assert forall|i: int| 0 <= i < 3 implies #[trigger] parallel_ok(b, r2, i) by {
        assert(parallel_ok(b, r1, i));
    }
    assert forall|i: int, j: int| 0 <= i < 3 && 0 <= j < 3 implies #[trigger] slabs_meet(b, r2, i, j) by {
        assert(slabs_meet(b, r1, i, j));
    }
    assert forall|i: int| 0 <= i < 3 implies #[trigger] slab_in_range(b, r2, i) by {
        assert(slab_in_range(b, r1, i));
        if dir(r2, i) != 0 {
            lemma_frac_lt_le(near_num(b, r1, i), slab_den(r1, i), r1.t_max.num as int, r1.t_max.den as int,
                r2.t_max.num as int, r2.t_max.den as int);
        }
    }
}

/// Union is commutative, bounded the empty box as identity, and is idempotent.
pub proof fn lemma_union_laws(a: BBox, b: BBox)
    ensures
        union_of(a, b) == union_of(b, a),
        union_of(a, empty_box()) == a,
        union_of(a, a) == a,
{
}

/// Adding a point that the box already contains leaves the box unchanged.
pub proof fn lemma_point_union_inside(a: BBox, p: Vector)
    requires
        contains(a, p),
    ensures
        point_union_of(a, p) == a,
{
}

/// Unions and point unions keep a box grown from the empty box.
pub proof fn lemma_unions_keep_grown(a: BBox, b: BBox, p: Vector)
    requires
        grown(a),
        grown(b),
    ensures
        grown(union_of(a, b)),
        grown(point_union_of(a, p)),
{
}

/// A box grown from the empty box by unions and point unions bounded a non-negative
/// surface area.
pub proof fn lemma_grown_area_nonneg(b: BBox)
    requires
        grown(b),
    ensures
        area_of(b) >= 0,
{
    let dx = extent(b, 0);
    let dy = extent(b, 1);
    let dz = extent(b, 2);
    if valid(b) {
        assert(dx * dy + dx * dz + dy * dz >= 0) by (nonlinear_arith)
            requires
                dx >= 0,
                dy >= 0,
                dz >= 0,
        ;
    } else {
        assert(dx < 0 && dy < 0 && dz < 0);
        assert(dx * dy + dx * dz + dy * dz >= 0) by (nonlinear_arith)
            requires
                dx < 0,
                dy < 0,
                dz < 0,
        ;
    }
}

proof fn lemma_extent_product(a: int, b: int)
    requires
        -0x1_0000_0000 <= a <= 0x1_0000_0000,
        -0x1_0000_0000 <= b <= 0x1_0000_0000,
    ensures
        -0x1_0000_0000_0000_0000 <= a * b <= 0x1_0000_0000_0000_0000,
{
    assert(-0x1_0000_0000_0000_0000 <= a * b <= 0x1_0000_0000_0000_0000) by (nonlinear_arith)
        requires
            -0x1_0000_0000 <= a <= 0x1_0000_0000,
            -0x1_0000_0000 <= b <= 0x1_0000_0000,
    ;
}

fn min32(a: i32, b: i32) -> (r: i32)
    ensures
        r == min_i32(a, b),
{
    if a <= b {
        a
    } else {
        b
    }
}

fn max32(a: i32, b: i32) -> (r: i32)
    ensures
        r == max_i32(a, b),
{
    if a >= b {
        a
    } else {
        b
    }
}

impl BBox {
    /// The empty box, holding no point.
    pub fn new() -> (r: BBox)
        ensures
            r == empty_box(),
    {
        BBox { min: Vector::broadcast(i32::MAX), max: Vector::broadcast(i32::MIN) }
    }

    /// The box holding only `p`.
    pub fn singular(p: Vector) -> (r: BBox)
        ensures
            r.min == p && r.max == p,
    {
        BBox { min: p, max: p }
    }

    /// The box between the given corners, taken as they are.
    pub fn span(min: Vector, max: Vector) -> (r: BBox)
        ensures
            r.min == min && r.max == max,
    {
        BBox { min, max }
    }

    /// The union of this box with `b`.
    pub fn box_union(&self, b: &BBox) -> (r: BBox)
        ensures
            r == union_of(*self, *b),
    {
        BBox {
            min: Vector::new(
                min32(self.min.x, b.min.x),
                min32(self.min.y, b.min.y),
                min32(self.min.z, b.min.z),
            ),
            max: Vector::new(
                max32(self.max.x, b.max.x),
                max32(self.max.y, b.max.y),
                max32(self.max.z, b.max.z),
            ),
        }
    }

    /// This box grown to reach `p`.
    pub fn point_union(&self, p: Vector) -> (r: BBox)
        ensures
            r == point_union_of(*self, p),
    {
        BBox {
            min: Vector::new(min32(self.min.x, p.x), min32(self.min.y, p.y), min32(self.min.z, p.z)),
            max: Vector::new(max32(self.max.x, p.x), max32(self.max.y, p.y), max32(self.max.z, p.z)),
        }
    }

    /// The axis along which the box is longest; ties go to the earlier of X, Y, Z.
    pub fn max_extent(&self) -> (r: Axis)
        ensures
            r == longest_axis(*self),
    {
        let dx = self.max.x as i64 - self.min.x as i64;
        let dy = self.max.y as i64 - self.min.y as i64;
        let dz = self.max.z as i64 - self.min.z as i64;
        if dx >= dy && dx >= dz {
            Axis::X
        } else if dy >= dz {
            Axis::Y
        } else {
            Axis::Z
        }
    }

    /// The position of `p` relative to the box on each axis, as the fraction
    /// `(p - min) / (max - min)`.
    pub fn offset(&self, p: &Vector) -> (r: (Frac, Frac, Frac))
        requires
            self.min.x != self.max.x,
            self.min.y != self.max.y,
            self.min.z != self.max.z,
        ensures
            r.0.num == p.x - self.min.x && r.0.den == self.max.x - self.min.x,
            r.1.num == p.y - self.min.y && r.1.den == self.max.y - self.min.y,
            r.2.num == p.z - self.min.z && r.2.den == self.max.z - self.min.z,
    {
        (
            Frac { num: p.x as i64 - self.min.x as i64, den: self.max.x as i64 - self.min.x as i64 },
            Frac { num: p.y as i64 - self.min.y as i64, den: self.max.y as i64 - self.min.y as i64 },
            Frac { num: p.z as i64 - self.min.z as i64, den: self.max.z as i64 - self.min.z as i64 },
        )
    }

    /// The surface area of the box, `2 * (dx * dy + dx * dz + dy * dz)`.
    pub fn surface_area(&self) -> (r: i128)
        ensures
            r == area_of(*self),
    {
        let dx = self.max.x as i128 - self.min.x as i128;
        let dy = self.max.y as i128 - self.min.y as i128;
        let dz = self.max.z as i128 - self.min.z as i128;
        proof {
            lemma_extent_product(dx as int, dy as int);
            lemma_extent_product(dx as int, dz as int);
            lemma_extent_product(dy as int, dz as int);
        }
        2 * (dx * dy + dx * dz + dy * dz)
    }

    /// The corner with index `i`: 0 is `min`, 1 is `max`.
    pub fn index(&self, i: usize) -> (r: Vector)
        requires
            i < 2,
        ensures
            r == (if i == 0 { self.min } else { self.max }),
    {
        if i == 0 {
            self.min
        } else {
            self.max
        }
    }

    /// Replaces the corner with index `i`: 0 is `min`, 1 is `max`.
    pub fn set_corner(&mut self, i: usize, v: Vector)
        requires
            i < 2,
        ensures
            i == 0 ==> *final(self) == (BBox { min: v, max: old(self).max }),
            i == 1 ==> *final(self) == (BBox { min: old(self).min, max: v }),
    {
        if i == 0 {
            self.min = v;
        } else {
            self.max = v;
        }
    }
    /// Ray-box intersection for traversal. `neg_dir` holds, per axis, 1 where the ray's
    /// direction is negative and 0 elsewhere; it picks the near corner on each axis.
    /// The running parameter interval is narrowed over X, then Y, then Z, and the test
    /// stops with a miss as soon as it becomes empty. A ray parallel to an axis hits
    /// only if it starts within that axis' slab.
    pub fn fast_intersect(&self, r: &Ray, neg_dir: &[usize; 3]) -> (hit: bool)
        requires
            r.wf(),
            neg_dir_of(*r, *neg_dir),
        ensures
            hit == slab_hit(*self, *r),
    {
        let b = *self;
        let ray = *r;
        let mut bounded: bool = false;
        let mut lo_n: i64 = 0;
        let mut lo_d: i64 = 1;
        let mut hi_n: i64 = 0;
        let mut hi_d: i64 = 1;
        let ghost mut lo_k: int = 0;
        let ghost mut hi_k: int = 0;
        let mut k: usize = 0;
        while k < 3
            invariant
                0 <= k <= 3,
                b == *self,
                ray == *r,
                r.wf(),
                neg_dir_of(*r, *neg_dir),
                forall|i: int| 0 <= i < k ==> #[trigger] parallel_ok(b, ray, i),
                forall|i: int, j: int| 0 <= i < k && 0 <= j < k ==> #[trigger] slabs_meet(b, ray, i, j),
                !bounded ==> forall|i: int| 0 <= i < k ==> dir(ray, i) == 0,
                bounded ==> {
                    &&& 0 <= lo_k < k
                    &&& dir(ray, lo_k) != 0
                    &&& lo_n == near_num(b, ray, lo_k)
                    &&& lo_d == slab_den(ray, lo_k)
                    &&& 0 <= hi_k < k
                    &&& dir(ray, hi_k) != 0
                    &&& hi_n == far_num(b, ray, hi_k)
                    &&& hi_d == slab_den(ray, hi_k)
                },
                bounded ==> forall|i: int|
                    0 <= i < k && dir(ray, i) != 0 ==> frac_le(
                        #[trigger] near_num(b, ray, i),
                        slab_den(ray, i),
                        lo_n as int,
                        lo_d as int,
                    ),
                bounded ==> forall|i: int|
                    0 <= i < k && dir(ray, i) != 0 ==> frac_le(
                        hi_n as int,
                        hi_d as int,
                        #[trigger] far_num(b, ray, i),
                        slab_den(ray, i),
                    ),
            decreases 3 - k,
        {
            let d = ray.dir.get(k) as i64;
            let o = ray.origin.get(k) as i64;
            if d == 0 {
                let lo = b.min.get(k) as i64;
                let hi = b.max.get(k) as i64;
                if o < lo || o > hi {
                    assert(!parallel_ok(b, ray, k as int));
                    return false;
                }
            } else {
                let near_c = b.index(neg_dir[k]).get(k) as i64;
                let far_c = b.index(1 - neg_dir[k]).get(k) as i64;
                let (near, far, den) = if neg_dir[k] == 0 {
                    (near_c - o, far_c - o, d)
                } else {
                    (o - near_c, o - far_c, -d)
                };
                let ghost kk = k as int;
                assert(near == near_num(b, ray, kk) && far == far_num(b, ray, kk) && den == slab_den(ray, kk));
                if lt_frac(far, den, near, den) {
                    assert(!slabs_meet(b, ray, kk, kk));
                    return false;
                }
                if bounded {
                    if lt_frac(hi_n, hi_d, near, den) {
                        assert(!slabs_meet(b, ray, kk, hi_k));
                        return false;
                    }
                    if lt_frac(far, den, lo_n, lo_d) {
                        assert(!slabs_meet(b, ray, lo_k, kk));
                        return false;
                    }
                    proof {
                        assert forall|i: int, j: int| 0 <= i <= kk && 0 <= j <= kk implies #[trigger] slabs_meet(b, ray, i, j) by {
                            if i == kk && j < kk && dir(ray, j) != 0 {
                                lemma_frac_le_trans(near as int, den as int, hi_n as int, hi_d as int, far_num(b, ray, j), slab_den(ray, j));
                            }
                            if j == kk && i < kk && dir(ray, i) != 0 {
                                lemma_frac_le_trans(near_num(b, ray, i), slab_den(ray, i), lo_n as int, lo_d as int, far as int, den as int);
                            }
                        }
                    }
                    if lt_frac(lo_n, lo_d, near, den) {
                        proof {
                            assert forall|i: int| 0 <= i <= kk && dir(ray, i) != 0 implies frac_le(
                                #[trigger] near_num(b, ray, i), slab_den(ray, i), near as int, den as int) by {
                                if i < kk {
                                    lemma_frac_le_trans(near_num(b, ray, i), slab_den(ray, i), lo_n as int, lo_d as int, near as int, den as int);
                                }
                            }
                            lo_k = kk;
                        }
                        lo_n = near;
                        lo_d = den;
                    }
                    if lt_frac(far, den, hi_n, hi_d) {
                        proof {
                            assert forall|i: int| 0 <= i <= kk && dir(ray, i) != 0 implies frac_le(
                                far as int, den as int, #[trigger] far_num(b, ray, i), slab_den(ray, i)) by {
                                if i < kk {
                                    lemma_frac_le_trans(far as int, den as int, hi_n as int, hi_d as int, far_num(b, ray, i), slab_den(ray, i));
                                }
                            }
                            hi_k = kk;
                        }
                        hi_n = far;
                        hi_d = den;
                    }
                } else {
                    proof {
                        lo_k = kk;
                        hi_k = kk;
                    }
                    lo_n = near;
                    lo_d = den;
                    hi_n = far;
                    hi_d = den;
                    bounded = true;
                }
            }
            k = k + 1;
        }
        if !bounded {
            assert forall|i: int| 0 <= i < 3 implies #[trigger] slab_in_range(b, ray, i) by {}
            return true;
        }
        let in_max = lt_frac(lo_n, lo_d, ray.t_max.num, ray.t_max.den);
        let in_min = lt_frac(ray.t_min.num, ray.t_min.den, hi_n, hi_d);
        proof {
            if in_max && in_min {
                assert forall|i: int| 0 <= i < 3 implies #[trigger] slab_in_range(b, ray, i) by {
                    if dir(ray, i) != 0 {
                        lemma_frac_le_lt(near_num(b, ray, i), slab_den(ray, i), lo_n as int, lo_d as int,
                            ray.t_max.num as int, ray.t_max.den as int);
                        lemma_frac_lt_le(ray.t_min.num as int, ray.t_min.den as int, hi_n as int, hi_d as int,
                            far_num(b, ray, i), slab_den(ray, i));
                    }
                }
            } else if !in_max {
                assert(!slab_in_range(b, ray, lo_k));
            } else {
                assert(!slab_in_range(b, ray, hi_k));
            }
        }
        in_max && in_min
    }
}

} // verus!
