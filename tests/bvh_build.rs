use bvh::{BBox, Boundable, Frac, Node, Ray, Vector, BVH};

/// A sphere with the given radius, centred at a point.
#[derive(Clone, Copy)]
pub struct Sphere {
    centre: Vector,
    radius: i32,
}

impl Sphere {
    pub fn new(radius: i32) -> Sphere {
        Sphere { centre: Vector::new(0, 0, 0), radius }
    }

    pub fn at(centre: Vector, radius: i32) -> Sphere {
        Sphere { centre, radius }
    }

    fn bbox(&self) -> BBox {
        let c = self.centre;
        let r = self.radius;
        BBox::span(Vector::new(c.x - r, c.y - r, c.z - r), Vector::new(c.x + r, c.y + r, c.z + r))
    }
}

impl Boundable for Sphere {
    fn bounds(&self, _: i64, _: i64) -> BBox {
        self.bbox()
    }
}

fn frac_lt(a: Frac, b: Frac) -> bool {
    (a.num as i128) * (b.den as i128) < (b.num as i128) * (a.den as i128)
}

/// The parameter at which the ray enters the primitive's box, if it does so within
/// the ray's range.
fn box_entry(r: &Ray, s: &Sphere) -> Option<Frac> {
    let b = s.bbox();
    let mut lo = r.t_min;
    let mut hi = r.t_max;
    let axes = [
        (r.origin.x, r.dir.x, b.min.x, b.max.x),
        (r.origin.y, r.dir.y, b.min.y, b.max.y),
        (r.origin.z, r.dir.z, b.min.z, b.max.z),
    ];
    for (o, d, mn, mx) in axes {
        let (o, d, mn, mx) = (o as i64, d as i64, mn as i64, mx as i64);
        if d == 0 {
            if o < mn || o > mx {
                return None;
            }
            continue;
        }
        let (near, far) = if d > 0 {
            (Frac { num: mn - o, den: d }, Frac { num: mx - o, den: d })
        } else {
            (Frac { num: o - mx, den: -d }, Frac { num: o - mn, den: -d })
        };
        if frac_lt(lo, near) {
            lo = near;
        }
        if frac_lt(far, hi) {
            hi = far;
        }
    }
    if frac_lt(r.t_min, lo) && frac_lt(lo, hi) {
        Some(lo)
    } else {
        None
    }
}

fn ray(o: (i32, i32, i32), d: (i32, i32, i32)) -> Ray {
    Ray {
        origin: Vector::new(o.0, o.1, o.2),
        dir: Vector::new(d.0, d.1, d.2),
        t_min: Frac { num: 0, den: 1 },
        t_max: Frac { num: 1_000_000, den: 1 },
    }
}

fn same_value(a: Frac, b: Frac) -> bool {
    (a.num as i128) * (b.den as i128) == (b.num as i128) * (a.den as i128)
}

#[test]
fn it_works() {
    let s = Sphere::new(3);
    let v = vec![s];

    BVH::unanimated(16, v);
}

#[test]
fn single_primitive_is_one_leaf_hit_at_seven() {
    let b = BVH::unanimated(16, vec![Sphere::new(3)]);
    assert_eq!(b.nodes.len(), 1);
    match b.nodes[0] {
        Node::Leaf { bounds, offset, count } => {
            assert_eq!(offset, 0);
            assert_eq!(count, 1);
            assert_eq!(bounds, BBox::span(Vector::new(-3, -3, -3), Vector::new(3, 3, 3)));
        }
        _ => panic!("root should be a leaf"),
    }
    let r = ray((0, 0, -10), (0, 0, 1));
    let hit = b.closest_hit(&r, &|rr: &Ray, p: &Sphere| box_entry(rr, p));
    let (k, t) = hit.unwrap();
    assert_eq!(k, 0);
    assert!(same_value(t, Frac { num: 7, den: 1 }));
    assert!(b.any_hit(&r, &|rr: &Ray, p: &Sphere| box_entry(rr, p).is_some()));
}

#[test]
fn no_primitives_is_one_empty_leaf() {
    let b: BVH<Sphere> = BVH::unanimated(4, vec![]);
    assert_eq!(b.nodes.len(), 1);
    assert_eq!(b.nodes[0], Node::Leaf { bounds: BBox::new(), offset: 0, count: 0 });
    let r = ray((0, 0, -10), (0, 0, 1));
    assert!(!b.any_hit(&r, &|rr: &Ray, p: &Sphere| box_entry(rr, p).is_some()));
    assert!(b.closest_hit(&r, &|rr: &Ray, p: &Sphere| box_entry(rr, p)).is_none());
}

fn row_of_spheres(n: i32) -> Vec<Sphere> {
    let mut v = Vec::new();
    for i in 0..n {
        v.push(Sphere::at(Vector::new(10 * i, (i * 7) % 5, 0), 1));
    }
    v
}

fn check_tree(b: &BVH<Sphere>, max_leaf: usize) {
    let mut seen = vec![false; b.primitives.len()];
    for (i, node) in b.nodes.iter().enumerate() {
        match *node {
            Node::Leaf { bounds, offset, count } => {
                assert!(count <= max_leaf || b.nodes.len() == 1);
                let mut u = BBox::new();
                for k in offset..offset + count {
                    let p = b.order[k];
                    assert!(!seen[p]);
                    seen[p] = true;
                    u = u.box_union(&b.primitives[p].bbox());
                }
                assert_eq!(u, bounds);
            }
            Node::Interior { bounds, second_child, .. } => {
                assert!(i + 1 < second_child && second_child < b.nodes.len());
                let u = b.nodes[i + 1].bound_of().box_union(&b.nodes[second_child].bound_of());
                assert_eq!(u, bounds);
            }
        }
    }
    assert!(seen.iter().all(|s| *s));
}

fn brute_closest(prims: &[Sphere], r: &Ray) -> Option<(usize, Frac)> {
    let mut best: Option<(usize, Frac)> = None;
    for (k, p) in prims.iter().enumerate() {
        let mut rr = *r;
        if let Some((_, t)) = best {
            rr.t_max = t;
        }
        if let Some(t) = box_entry(&rr, p) {
            best = Some((k, t));
        }
    }
    best
}

#[test]
fn tree_over_many_primitives_is_well_formed() {
    for max_leaf in [1usize, 2, 3, 16] {
        let b = BVH::unanimated(max_leaf, row_of_spheres(20));
        check_tree(&b, max_leaf);
    }
}

#[test]
fn coincident_primitives_still_split() {
    let v = vec![Sphere::new(2); 9];
    let b = BVH::unanimated(2, v);
    check_tree(&b, 2);
    assert!(b.nodes.len() > 1);
}

#[test]
fn traversal_agrees_with_linear_scan() {
    let prims = row_of_spheres(20);
    for max_leaf in [1usize, 4] {
        let b = BVH::unanimated(max_leaf, prims.clone());
        for &(o, d) in &[
            ((-20, 0, 0), (1, 0, 0)),
            ((500, 1, 0), (-1, 0, 0)),
            ((35, 30, 0), (0, -1, 0)),
            ((30, 0, -5), (0, 0, 1)),
            ((-5, -5, 0), (7, 1, 0)),
            ((0, 50, 0), (0, 1, 0)),
            ((95, 3, 3), (-2, -1, -1)),
        ] {
            let r = ray(o, d);
            let got = b.closest_hit(&r, &|rr: &Ray, p: &Sphere| box_entry(rr, p));
            let want = brute_closest(&prims, &r);
            match (got, want) {
                (None, None) => {}
                (Some((_, t1)), Some((_, t2))) => assert!(same_value(t1, t2)),
                _ => panic!("closest hit differs from the linear scan"),
            }
            let any = b.any_hit(&r, &|rr: &Ray, p: &Sphere| box_entry(rr, p).is_some());
            assert_eq!(any, want.is_some());
        }
    }
}

#[test]
fn closest_of_two_boxes_is_the_nearer() {
    let prims = vec![Sphere::at(Vector::new(0, 0, 20), 1), Sphere::at(Vector::new(0, 0, 5), 1)];
    let b = BVH::unanimated(1, prims);
    let r = ray((0, 0, 0), (0, 0, 1));
    let (k, t) = b.closest_hit(&r, &|rr: &Ray, p: &Sphere| box_entry(rr, p)).unwrap();
    assert_eq!(b.primitives[k].centre, Vector::new(0, 0, 5));
    assert!(same_value(t, Frac { num: 4, den: 1 }));
}

/// A box that moves along x by one unit per unit of time.
struct Mover {
    start_x: i32,
}

impl Boundable for Mover {
    fn bounds(&self, start: i64, end: i64) -> BBox {
        let a = self.start_x + start as i32;
        let b = self.start_x + end as i32;
        BBox::span(Vector::new(a - 1, -1, -1), Vector::new(b + 1, 1, 1))
    }
}

#[test]
fn animated_bounds_cover_the_time_window() {
    let b = BVH::new(1, vec![Mover { start_x: 0 }, Mover { start_x: 100 }], 0, 10);
    assert_eq!(b.bounds[0], BBox::span(Vector::new(-1, -1, -1), Vector::new(11, 1, 1)));
    assert_eq!(b.bounds[1], BBox::span(Vector::new(99, -1, -1), Vector::new(111, 1, 1)));
    assert_eq!(b.nodes.len(), 3);
    assert_eq!(b.nodes[0].bound_of(), BBox::span(Vector::new(-1, -1, -1), Vector::new(111, 1, 1)));
}
