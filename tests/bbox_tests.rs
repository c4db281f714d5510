use bvh::{Axis, BBox, Frac, Ray, Vector};

fn v(x: i32, y: i32, z: i32) -> Vector {
    Vector::new(x, y, z)
}

fn ray(o: Vector, d: Vector, t_min: i64, t_max: i64) -> Ray {
    Ray { origin: o, dir: d, t_min: Frac { num: t_min, den: 1 }, t_max: Frac { num: t_max, den: 1 } }
}

#[test]
fn new_box_is_union_identity() {
    let a = BBox::span(v(-1, 2, 3), v(4, 5, 6));
    let e = BBox::new();
    assert_eq!(a.box_union(&e), a);
    assert_eq!(e.box_union(&a), a);
    assert_eq!(e.box_union(&e), e);
    assert_eq!(e.point_union(v(1, 2, 3)), BBox::singular(v(1, 2, 3)));
}

#[test]
fn union_is_commutative_and_idempotent() {
    let a = BBox::span(v(-1, 2, 3), v(4, 5, 6));
    let b = BBox::span(v(0, -7, 9), v(1, 8, 10));
    assert_eq!(a.box_union(&b), b.box_union(&a));
    assert_eq!(a.box_union(&b), BBox::span(v(-1, -7, 3), v(4, 8, 10)));
    assert_eq!(a.box_union(&a), a);
}

#[test]
fn point_union_inside_and_outside() {
    let a = BBox::span(v(0, 0, 0), v(4, 4, 4));
    assert_eq!(a.point_union(v(1, 4, 0)), a);
    assert_eq!(a.point_union(v(-2, 5, 1)), BBox::span(v(-2, 0, 0), v(4, 5, 4)));
}

#[test]
fn max_extent_and_ties() {
    assert_eq!(BBox::span(v(0, 0, 0), v(5, 2, 3)).max_extent(), Axis::X);
    assert_eq!(BBox::span(v(0, 0, 0), v(1, 6, 3)).max_extent(), Axis::Y);
    assert_eq!(BBox::span(v(0, 0, 0), v(1, 2, 3)).max_extent(), Axis::Z);
    assert_eq!(BBox::span(v(0, 0, 0), v(4, 4, 4)).max_extent(), Axis::X);
    assert_eq!(BBox::span(v(0, 0, 0), v(1, 4, 4)).max_extent(), Axis::Y);
    assert_eq!(BBox::span(v(0, 0, 0), v(4, 1, 4)).max_extent(), Axis::X);
}

#[test]
fn offset_is_relative_position() {
    let a = BBox::span(v(0, 10, -4), v(4, 20, 4));
    let (x, y, z) = a.offset(&v(1, 15, 4));
    assert_eq!((x.num, x.den), (1, 4));
    assert_eq!((y.num, y.den), (5, 10));
    assert_eq!((z.num, z.den), (8, 8));
}

#[test]
fn surface_area_values() {
    assert_eq!(BBox::span(v(0, 0, 0), v(1, 1, 1)).surface_area(), 6);
    assert_eq!(BBox::span(v(0, 0, 0), v(1, 2, 3)).surface_area(), 22);
    assert_eq!(BBox::singular(v(5, 5, 5)).surface_area(), 0);
    assert!(BBox::new().surface_area() >= 0);
    let grown = BBox::new().point_union(v(1, 1, 1)).point_union(v(-2, 3, 0));
    assert_eq!(grown.surface_area(), 2 * (3 * 2 + 3 * 1 + 2 * 1));
}

#[test]
fn corners_by_index() {
    let mut a = BBox::span(v(0, 0, 0), v(1, 2, 3));
    assert_eq!(a.index(0), v(0, 0, 0));
    assert_eq!(a.index(1), v(1, 2, 3));
    a.set_corner(1, v(9, 9, 9));
    assert_eq!(a, BBox::span(v(0, 0, 0), v(9, 9, 9)));
}

fn hits(b: &BBox, r: &Ray) -> bool {
    b.fast_intersect(r, &r.neg_dir())
}

/// Whether some point of the segment at parameters `t` in steps of one sixtieth
/// strictly inside the ray's range lies in the box.
fn sampled_hit(b: &BBox, r: &Ray) -> bool {
    let lo = r.t_min.num * 60;
    let hi = r.t_max.num * 60;
    for s in (lo + 1)..hi {
        let inside = |o: i32, d: i32, mn: i32, mx: i32| {
            let p = o as i64 * 60 + d as i64 * s;
            mn as i64 * 60 <= p && p <= mx as i64 * 60
        };
        if inside(r.origin.x, r.dir.x, b.min.x, b.max.x)
            && inside(r.origin.y, r.dir.y, b.min.y, b.max.y)
            && inside(r.origin.z, r.dir.z, b.min.z, b.max.z)
        {
            return true;
        }
    }
    false
}

#[test]
fn fast_intersect_cases() {
    let b = BBox::span(v(-3, -3, -3), v(3, 3, 3));
    assert!(hits(&b, &ray(v(0, 0, -10), v(0, 0, 1), 0, 100)));
    assert!(hits(&b, &ray(v(0, 0, 10), v(0, 0, -1), 0, 100)));
    assert!(!hits(&b, &ray(v(0, 0, 10), v(0, 0, 1), 0, 100)));
    assert!(!hits(&b, &ray(v(5, 0, -10), v(0, 0, 1), 0, 100)));
    assert!(hits(&b, &ray(v(3, 0, -10), v(0, 0, 1), 0, 100)));
    assert!(!hits(&b, &ray(v(0, 0, -10), v(0, 0, 1), 0, 7)));
    assert!(hits(&b, &ray(v(0, 0, -10), v(0, 0, 1), 0, 8)));
    assert!(!hits(&b, &ray(v(0, 0, -10), v(0, 0, 1), 13, 100)));
    assert!(hits(&b, &ray(v(-10, -10, 0), v(1, 1, 0), 0, 100)));
    assert!(!hits(&b, &ray(v(-10, 0, 0), v(1, 5, 0), 0, 100)));
    assert!(hits(&b, &ray(v(0, 0, 0), v(0, 0, 0), 0, 1)));
    assert!(!hits(&BBox::new(), &ray(v(0, 0, 0), v(1, 1, 1), -100, 100)));
}

#[test]
fn fast_intersect_agrees_with_sampling() {
    let mut seed: u64 = 12345;
    let mut next = |m: i32| -> i32 {
        seed = seed.wrapping_mul(6364136223846793005).wrapping_add(1442695040888963407);
        ((seed >> 33) % (2 * m as u64 + 1)) as i32 - m
    };
    for _ in 0..300 {
        let a = v(next(5), next(5), next(5));
        let c = v(next(5), next(5), next(5));
        let b = BBox::singular(a).point_union(c);
        let o = v(next(12), next(12), next(12));
        let d = v(next(3), next(3), next(3));
        let r = ray(o, d, 0, 8);
        assert_eq!(hits(&b, &r), sampled_hit(&b, &r), "box {:?} ray {:?}", b, r);
    }
}
