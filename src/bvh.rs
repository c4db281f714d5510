//! Construction of the hierarchy over primitive bounds, flattened in pre-order.

use vstd::prelude::*;

use crate::bbox::{empty_box, union_of, BBox};
use crate::bbox::{lemma_slab_hit_grows, lemma_slab_hit_later_end, neg_dir_of, slab_hit, within};
use crate::linalg::{coord, frac_le, frac_lt, lemma_frac_le_trans, Axis, Frac, Ray};
use crate::partition::{partition_range, swap_at};
use vstd::arithmetic::power2::{
    lemma_pow2_pos, lemma_pow2_strictly_increases, lemma_pow2_unfold, pow2,
};

verus! {

broadcast use {vstd::seq_lib::group_to_multiset_ensures, vstd::multiset::group_multiset_axioms};

/// A primitive that can report the box it occupies over a time interval.
pub trait Boundable {
    /// The bounds of the primitive over `[start, end]`.
    fn bounds(&self, start: i64, end: i64) -> BBox;
}

/// A node of the flattened tree.
#[derive(Copy, Clone, Debug, PartialEq, Eq, Structural)]
pub enum Node {
    /// Primitives `offset .. offset + count` of the reordered primitive array.
    Leaf { bounds: BBox, offset: usize, count: usize },
    /// The first child follows this node; the second stands at `second_child`.
    Interior { bounds: BBox, second_child: usize, axis: Axis },
}

impl Node {
    /// The node's box.
    pub open spec fn bound(self) -> BBox {
        match self {
            Node::Leaf { bounds, .. } => bounds,
            Node::Interior { bounds, .. } => bounds,
        }
    }

    /// The node's box.
    pub fn bound_of(&self) -> (r: BBox)
        ensures
            r == self.bound(),
    {
        match self {
            Node::Leaf { bounds, .. } => *bounds,
            Node::Interior { bounds, .. } => *bounds,
        }
    }
}

/// The union of the bounds of primitives `order[lo..hi]`.
pub open spec fn range_bounds(bs: Seq<BBox>, order: Seq<usize>, lo: int, hi: int) -> BBox
    decreases hi - lo,
{
    if hi <= lo {
        empty_box()
    } else {
        union_of(range_bounds(bs, order, lo, hi - 1), bs[order[hi - 1] as int])
    }
}

/// Node `i` is well placed: a leaf's range lies in `order` and its box is the union of
/// its primitives' boxes; an interior node's second child comes after its first,
/// and its box is the union of its children's boxes.
pub open spec fn node_wf(ns: Seq<Node>, i: int, bs: Seq<BBox>, order: Seq<usize>) -> bool {
    match ns[i] {
        Node::Leaf { bounds, offset, count } => {
            &&& offset + count <= order.len()
            &&& bounds == range_bounds(bs, order, offset as int, offset + count)
        },
        Node::Interior { bounds, second_child, .. } => {
            &&& i + 1 < second_child < ns.len()
            &&& bounds == union_of(ns[i + 1].bound(), ns[second_child as int].bound())
        },
    }
}

/// The leaf ranges of nodes `from..` lie within `lo..hi`.
pub open spec fn leaves_within(ns: Seq<Node>, from: int, lo: int, hi: int) -> bool {
    forall|i: int|
        from <= i < ns.len() ==> match #[trigger] ns[i] {
            Node::Leaf { offset, count, .. } => lo <= offset && offset + count <= hi,
            _ => true,
        }
}

/// `order` is a permutation of `0..n`.
pub open spec fn is_order(order: Seq<usize>, n: nat) -> bool {
    &&& order.len() == n
    &&& order.to_multiset() == Seq::new(n, |k: int| k as usize).to_multiset()
    &&& forall|k: int| 0 <= k < order.len() ==> #[trigger] order[k] < n
}

/// Position `k` of the primitive order lies in a leaf of the subtree rooted at node `i`.
pub open spec fn in_subtree(ns: Seq<Node>, i: int, k: int) -> bool
    decreases ns.len() - i,
{
    if 0 <= i < ns.len() {
        match ns[i] {
            Node::Leaf { offset, count, .. } => offset <= k < offset + count,
            Node::Interior { second_child, .. } => if i + 1 < second_child < ns.len() {
                in_subtree(ns, i + 1, k) || in_subtree(ns, second_child as int, k)
            } else {
                false
            },
        }
    } else {
        false
    }
}

/// Node `j`'s children lie below `lim`.
pub open spec fn closed(ns: Seq<Node>, j: int, lim: int) -> bool {
    match ns[j] {
        Node::Interior { second_child, .. } => j + 1 < second_child < lim,
        _ => true,
    }
}

proof fn lemma_in_subtree_frame(n1: Seq<Node>, n2: Seq<Node>, i: int, lim: int, k: int)
    requires
        0 <= i < lim <= n1.len(),
        lim <= n2.len(),
        forall|j: int| i <= j < lim ==> n1[j] == n2[j],
        forall|j: int| i <= j < lim ==> #[trigger] closed(n1, j, lim),
    ensures
        in_subtree(n1, i, k) == in_subtree(n2, i, k),
    decreases lim - i,
{
    assert(closed(n1, i, lim));
    match n1[i] {
        Node::Interior { second_child, .. } => {
            lemma_in_subtree_frame(n1, n2, i + 1, lim, k);
            lemma_in_subtree_frame(n1, n2, second_child as int, lim, k);
        },
        _ => {},
    }
}

proof fn lemma_range_within(bs: Seq<BBox>, order: Seq<usize>, lo: int, hi: int, k: int)
    requires
        lo <= k < hi,
    ensures
        within(bs[order[k] as int], range_bounds(bs, order, lo, hi)),
    decreases hi - lo,
{
    if k < hi - 1 {
        lemma_range_within(bs, order, lo, hi - 1, k);
    }
}

proof fn lemma_in_subtree_within(ns: Seq<Node>, bs: Seq<BBox>, order: Seq<usize>, i: int, k: int)
    requires
        forall|j: int| 0 <= j < ns.len() ==> node_wf(ns, j, bs, order),
        in_subtree(ns, i, k),
    ensures
        0 <= k < order.len(),
        within(bs[order[k] as int], ns[i].bound()),
    decreases ns.len() - i,
{
    assert(node_wf(ns, i, bs, order));
    match ns[i] {
        Node::Leaf { offset, count, .. } => {
            lemma_range_within(bs, order, offset as int, offset + count, k);
        },
        Node::Interior { second_child, .. } => {
            if in_subtree(ns, i + 1, k) {
                lemma_in_subtree_within(ns, bs, order, i + 1, k);
            } else {
                lemma_in_subtree_within(ns, bs, order, second_child as int, k);
            }
        },
    }
}

proof fn lemma_range_bounds_frame(bs: Seq<BBox>, o1: Seq<usize>, o2: Seq<usize>, lo: int, hi: int)
    requires
        forall|k: int| lo <= k < hi ==> o1[k] == o2[k],
    ensures
        range_bounds(bs, o1, lo, hi) == range_bounds(bs, o2, lo, hi),
    decreases hi - lo,
{
    if hi > lo {
        lemma_range_bounds_frame(bs, o1, o2, lo, hi - 1);
    }
}

proof fn lemma_range_bounds_split(bs: Seq<BBox>, order: Seq<usize>, lo: int, mid: int, hi: int)
    requires
        lo <= mid <= hi,
    ensures
        range_bounds(bs, order, lo, hi) == union_of(
            range_bounds(bs, order, lo, mid),
            range_bounds(bs, order, mid, hi),
        ),
    decreases hi - mid,
{
    if hi > mid {
        lemma_range_bounds_split(bs, order, lo, mid, hi - 1);
    }
}

fn axis_index(a: Axis) -> (r: usize)
    ensures
        r < 3,
        r == (match a {
            Axis::X => 0usize,
            Axis::Y => 1usize,
            Axis::Z => 2usize,
        }),
{
    match a {
        Axis::X => 0,
        Axis::Y => 1,
        Axis::Z => 2,
    }
}

/// Twice the centre of box `b` on axis `a`.
pub open spec fn centroid2(b: BBox, a: int) -> int {
    coord(b.min, a) + coord(b.max, a)
}

/// The union of the bounds of primitives `order[lo..hi]`.
fn bounds_of_range(bs: &Vec<BBox>, order: &Vec<usize>, lo: usize, hi: usize) -> (r: BBox)
    requires
        lo <= hi <= order.len(),
        forall|k: int| 0 <= k < order.len() ==> #[trigger] order@[k] < bs.len(),
    ensures
        r == range_bounds(bs@, order@, lo as int, hi as int),
{
    let mut acc = BBox::new();
    let mut k: usize = lo;
    while k < hi
        invariant
            lo <= k <= hi <= order.len(),
            forall|k: int| 0 <= k < order.len() ==> #[trigger] order@[k] < bs.len(),
            acc == range_bounds(bs@, order@, lo as int, k as int),
        decreases hi - k,
    {
        acc = acc.box_union(&bs[order[k]]);
        k = k + 1;
    }
    acc
}

/// The primitives at `k` and `k + 1` of `order` are in order of their centre on axis `a`.
pub open spec fn pair_sorted(bs: Seq<BBox>, order: Seq<usize>, a: int, k: int) -> bool {
    centroid2(bs[order[k] as int], a) <= centroid2(bs[order[k + 1] as int], a)
}

/// Sorts primitives `order[lo..hi]` by their centre on axis `a`.
fn sort_by_centroid(bs: &Vec<BBox>, order: &mut Vec<usize>, lo: usize, hi: usize, a: usize)
    requires
        lo <= hi <= old(order).len(),
        a < 3,
        forall|k: int| 0 <= k < old(order).len() ==> #[trigger] old(order)@[k] < bs.len(),
    ensures
        final(order).len() == old(order).len(),
        final(order)@.to_multiset() == old(order)@.to_multiset(),
        forall|k: int| 0 <= k < final(order).len() ==> #[trigger] final(order)@[k] < bs.len(),
        forall|k: int|
            0 <= k < lo || hi <= k < final(order).len() ==> #[trigger] final(order)@[k] == old(order)@[k],
        forall|k: int| lo <= k && k + 1 < hi ==> #[trigger] pair_sorted(bs@, final(order)@, a as int, k),
{
    let ghost start = order@;
    let mut i: usize = lo;
    while i < hi
        invariant
            lo <= i <= hi <= order.len(),
            a < 3,
            order.len() == start.len(),
            order@.to_multiset() == start.to_multiset(),
            forall|k: int| 0 <= k < order.len() ==> #[trigger] order@[k] < bs.len(),
            forall|k: int| 0 <= k < lo || hi <= k < order.len() ==> #[trigger] order@[k] == start[k],
            forall|k: int| lo <= k && k + 1 < i ==> #[trigger] pair_sorted(bs@, order@, a as int, k),
        decreases hi - i,
    {
        let mut j: usize = i;
        while j > lo
            invariant
                lo <= j <= i < hi <= order.len(),
                a < 3,
                order.len() == start.len(),
                order@.to_multiset() == start.to_multiset(),
                forall|k: int| 0 <= k < order.len() ==> #[trigger] order@[k] < bs.len(),
                forall|k: int| 0 <= k < lo || hi <= k < order.len() ==> #[trigger] order@[k] == start[k],
                forall|k: int|
                    lo <= k && k + 1 <= i && k != j - 1 ==> #[trigger] pair_sorted(bs@, order@, a as int, k),
                j < i && j > lo ==> centroid2(bs@[order@[j - 1] as int], a as int) <= centroid2(
                    bs@[order@[j + 1] as int],
                    a as int,
                ),
            ensures
                order.len() == start.len(),
                order@.to_multiset() == start.to_multiset(),
                forall|k: int| 0 <= k < order.len() ==> #[trigger] order@[k] < bs.len(),
                forall|k: int| 0 <= k < lo || hi <= k < order.len() ==> #[trigger] order@[k] == start[k],
                forall|k: int| lo <= k && k + 1 <= i ==> #[trigger] pair_sorted(bs@, order@, a as int, k),
            decreases j,
        {
            let p = bs[order[j - 1]];
            let q = bs[order[j]];
            if (p.min.get(a) as i64 + p.max.get(a) as i64) <= (q.min.get(a) as i64 + q.max.get(a) as i64) {
                assert(pair_sorted(bs@, order@, a as int, j - 1));
                break;
            }
            let ghost before = order@;
            swap_at(order, j - 1, j);
            proof {
                assert forall|k: int| 0 <= k < order.len() implies #[trigger] order@[k] < bs.len() by {
                    assert(before[k] < bs.len());
                    assert(before[j - 1] < bs.len());
                    assert(before[j as int] < bs.len());
                }
                assert forall|k: int|
                    lo <= k && k + 1 <= i && k != j - 2 implies #[trigger] pair_sorted(bs@, order@, a as int, k) by {
                    if k < j - 2 || k > j {
                        assert(pair_sorted(bs@, before, a as int, k));
                    } else if k == j {
                        assert(before[j - 1] == order@[j as int]);
                    }
                }
                if j - 1 > lo {
                    assert(pair_sorted(bs@, before, a as int, j - 2));
                }
            }
            j = j - 1;
        }
        i = i + 1;
    }
}

/// Builds the subtree over primitives `order[start..end]`, appending its nodes to
/// `nodes` in pre-order, and returns its bounds.
fn build_range(
    bs: &Vec<BBox>,
    order: &mut Vec<usize>,
    nodes: &mut Vec<Node>,
    start: usize,
    end: usize,
    max_leaf: usize,
) -> (r: BBox)
    requires
        start <= end <= old(order).len(),
        max_leaf >= 1,
        forall|k: int| 0 <= k < old(order).len() ==> #[trigger] old(order)@[k] < bs.len(),
        old(nodes).len() + 2 * (end - start) + 1 < usize::MAX,
    ensures
        final(order).len() == old(order).len(),
        final(order)@.to_multiset() == old(order)@.to_multiset(),
        forall|k: int| 0 <= k < final(order).len() ==> #[trigger] final(order)@[k] < bs.len(),
        forall|k: int|
            0 <= k < start || end <= k < final(order).len() ==> #[trigger] final(order)@[k] == old(
                order,
            )@[k],
        old(nodes).len() < final(nodes).len() <= old(nodes).len() + 2 * (end - start) + 1,
        end > start ==> final(nodes).len() + 1 <= old(nodes).len() + 2 * (end - start),
        end - start <= max_leaf ==> final(nodes)@ == old(nodes)@.push(
            Node::Leaf { bounds: r, offset: start, count: (end - start) as usize },
        ),
        forall|i: int| 0 <= i < old(nodes).len() ==> #[trigger] final(nodes)@[i] == old(nodes)@[i],
        forall|i: int|
            old(nodes).len() <= i < final(nodes).len() ==> node_wf(
                final(nodes)@,
                i,
                bs@,
                final(order)@,
            ),
        leaves_within(final(nodes)@, old(nodes).len() as int, start as int, end as int),
        forall|j: int|
            old(nodes).len() <= j < final(nodes).len() ==> #[trigger] closed(
                final(nodes)@,
                j,
                final(nodes).len() as int,
            ),
        forall|k: int| start <= k < end ==> in_subtree(final(nodes)@, old(nodes).len() as int, k),
        final(nodes)@[old(nodes).len() as int].bound() == r,
        r == range_bounds(bs@, final(order)@, start as int, end as int),
    decreases end - start,
{
    let here = nodes.len();
    let node_bounds = bounds_of_range(bs, order, start, end);
    if end - start <= max_leaf {
        nodes.push(Node::Leaf { bounds: node_bounds, offset: start, count: end - start });
        return node_bounds;
    }
    let axis = node_bounds.max_extent();
    let a = axis_index(axis);
    let mid2 = node_bounds.min.get(a) as i64 + node_bounds.max.get(a) as i64;
    let below = |i: &usize| -> (r: bool)
        ensures
            r == (*i < bs.len() && centroid2(bs@[*i as int], a as int) < mid2),
        {
            if *i < bs.len() {
                let b = bs[*i];
                (b.min.get(a) as i64 + b.max.get(a) as i64) < mid2
            } else {
                false
            }
        };
    let ghost before = order@;
    let mut split = partition_range(order, start, end, &below);
    proof {
        assert forall|k: int| 0 <= k < order.len() implies #[trigger] order@[k] < bs.len() by {
            assert(order@.contains(order@[k]));
            assert(order@.to_multiset().count(order@[k]) > 0);
            assert(before.contains(order@[k]));
        }
    }
    if split == start || split == end {
        sort_by_centroid(bs, order, start, end, a);
        split = start + (end - start) / 2;
    }
    nodes.push(Node::Leaf { bounds: node_bounds, offset: start, count: 0 });
    let ghost order1 = order@;
    let left = build_range(bs, order, nodes, start, split, max_leaf);
    let second = nodes.len();
    let ghost order2 = order@;
    let ghost nodes2 = nodes@;
    let right = build_range(bs, order, nodes, split, end, max_leaf);
    let bounds = left.box_union(&right);
    let ghost nodes3 = nodes@;
    nodes.set(here, Node::Interior { bounds, second_child: second, axis });
    proof {
        let ns = nodes@;
        let o = order@;
        assert(ns[here + 1] == nodes2[here + 1]);
        assert(ns[second as int] == nodes3[second as int]);
        lemma_range_bounds_frame(bs@, order2, o, start as int, split as int);
        lemma_range_bounds_split(bs@, o, start as int, split as int, end as int);
        assert forall|i: int| here <= i < ns.len() implies node_wf(ns, i, bs@, o) by {
            if i >= second {
                assert(node_wf(nodes3, i, bs@, o));
                assert(ns[i] == nodes3[i]);
                match ns[i] {
                    Node::Interior { second_child, .. } => {
                        assert(ns[i + 1] == nodes3[i + 1]);
                        assert(ns[second_child as int] == nodes3[second_child as int]);
                    },
                    _ => {},
                }
            }
            if here < i < second {
                assert(node_wf(nodes2, i, bs@, order2));
                assert(ns[i] == nodes2[i]);
                match ns[i] {
                    Node::Leaf { offset, count, .. } => {
                        assert(start <= offset && offset + count <= split);
                        lemma_range_bounds_frame(bs@, order2, o, offset as int, offset + count);
                    },
                    Node::Interior { second_child, .. } => {
                        assert(ns[i + 1] == nodes2[i + 1]);
                        assert(ns[second_child as int] == nodes2[second_child as int]);
                    },
                }
            }
        }
        assert forall|j: int| here <= j < ns.len() implies #[trigger] closed(ns, j, ns.len() as int) by {
            if here < j < second {
                assert(closed(nodes2, j, second as int));
                assert(ns[j] == nodes2[j]);
            } else if j >= second {
                assert(closed(nodes3, j, ns.len() as int));
                assert(ns[j] == nodes3[j]);
            }
        }
        assert forall|k: int| start <= k < end implies in_subtree(ns, here as int, k) by {
            assert forall|j: int| here + 1 <= j < second implies #[trigger] closed(nodes2, j, second as int) by {
                assert(closed(nodes2, j, nodes2.len() as int));
            }
            assert forall|j: int| here + 1 <= j < second implies nodes2[j] == ns[j] by {}
            assert forall|j: int| second <= j < ns.len() implies #[trigger] closed(nodes3, j, ns.len() as int) by {}
            lemma_in_subtree_frame(nodes2, ns, here + 1, second as int, k);
            lemma_in_subtree_frame(nodes3, ns, second as int, ns.len() as int, k);
        }
        assert(leaves_within(ns, here as int, start as int, end as int)) by {
            assert forall|i: int| here <= i < ns.len() implies match #[trigger] ns[i] {
                Node::Leaf { offset, count, .. } => start <= offset && offset + count <= end,
                _ => true,
            } by {
                if here < i < second {
                    assert(ns[i] == nodes2[i]);
                }
            }
        }
    }
    bounds
}

/// The sum over the stack of 2 to the power of the number of nodes after each entry.
/// Popping a node and pushing its two children lowers it.
pub open spec fn stack_weight(stack: Seq<usize>, n: nat) -> nat
    decreases stack.len(),
{
    if stack.len() == 0 {
        0
    } else {
        stack_weight(stack.drop_last(), n) + pow2((n - stack.last()) as nat)
    }
}

proof fn lemma_weight_push(stack: Seq<usize>, x: usize, n: nat)
    ensures
        stack_weight(stack.push(x), n) == stack_weight(stack, n) + pow2((n - x) as nat),
{
    assert(stack.push(x).drop_last() =~= stack);
}

/// Ray `a` is ray `b` cut off no later: same origin, direction and `t_min`, and a
/// `t_max` no greater.
pub open spec fn narrower(a: Ray, b: Ray) -> bool {
    &&& a.origin == b.origin
    &&& a.dir == b.dir
    &&& a.t_min == b.t_min
    &&& a.wf()
    &&& frac_le(a.t_max.num as int, a.t_max.den as int, b.t_max.num as int, b.t_max.den as int)
}

/// The answer `o` seen by a ray that ends at `t_max`: a hit before it stays, any other
/// answer is no hit.
pub open spec fn cut_at(o: Option<Frac>, t_max: Frac) -> Option<Frac> {
    match o {
        Some(t) => if frac_lt(t.num as int, t.den as int, t_max.num as int, t_max.den as int) {
            Some(t)
        } else {
            None
        },
        None => None,
    }
}

proof fn lemma_narrower_trans(a: Ray, b: Ray, c: Ray)
    requires
        narrower(a, b),
        narrower(b, c),
        c.wf(),
    ensures
        narrower(a, c),
{
    lemma_frac_le_trans(
        a.t_max.num as int,
        a.t_max.den as int,
        b.t_max.num as int,
        b.t_max.den as int,
        c.t_max.num as int,
        c.t_max.den as int,
    );
}

/// A bounding volume hierarchy: the flattened nodes, the primitives, their bounds
/// over the build interval, and the order in which the leaves refer to them.
pub struct BVH<P> {
    pub nodes: Vec<Node>,
    pub order: Vec<usize>,
    pub bounds: Vec<BBox>,
    pub primitives: Vec<P>,
}

impl<P> BVH<P> {
    /// The tree is rooted at node 0, every node is well placed, `order` is a
    /// permutation of the primitives' indices, and each primitive has its bounds.
    pub open spec fn wf(&self) -> bool {
        &&& self.nodes.len() >= 1
        &&& self.bounds.len() == self.primitives.len()
        &&& is_order(self.order@, self.primitives.len() as nat)
        &&& forall|i: int| 0 <= i < self.nodes.len() ==> node_wf(self.nodes@, i, self.bounds@, self.order@)
        &&& forall|k: int| 0 <= k < self.order.len() ==> #[trigger] in_subtree(self.nodes@, 0, k)
    }

    /// `hit` gives one answer for each ray and primitive.
    pub open spec fn deterministic<F: Fn(&Ray, &P) -> bool>(hit: &F) -> bool {
        forall|rr: Ray, p: P, b1: bool, b2: bool|
            #[trigger] hit.ensures((&rr, &p), b1) && #[trigger] hit.ensures((&rr, &p), b2) ==> b1 == b2
    }

    /// `hit` reports a hit on a primitive only for rays that pass the slab test on its box.
    pub open spec fn hits_in_bounds<F: Fn(&Ray, &P) -> bool>(&self, hit: &F) -> bool {
        forall|rr: Ray, k: int|
            0 <= k < self.primitives.len() && rr.wf() && #[trigger] hit.ensures((&rr, &self.primitives@[k]), true)
                ==> slab_hit(self.bounds@[k], rr)
    }

    /// The primitive with index `k` is hit, for the closure `hit`, by some ray.
    pub open spec fn reported<F: Fn(&Ray, &P) -> Option<Frac>>(&self, hit: &F, k: usize, t: Frac) -> bool {
        &&& k < self.primitives.len()
        &&& exists|rr: Ray| #[trigger] hit.ensures((&rr, &self.primitives@[k as int]), Some(t))
    }

    /// Builds the hierarchy over primitives whose bounds are `bounds`, with at most
    /// `max_leaf_size` primitives per leaf.
    pub fn from_bounds(max_leaf_size: usize, bounds: Vec<BBox>, primitives: Vec<P>) -> (r: BVH<P>)
        requires
            max_leaf_size >= 1,
            bounds.len() == primitives.len(),
            2 * primitives.len() + 2 < usize::MAX,
        ensures
            r.wf(),
            r.bounds@ == bounds@,
            r.primitives@ == primitives@,
            r.nodes@[0].bound() == range_bounds(bounds@, r.order@, 0, bounds.len() as int),
            bounds.len() <= max_leaf_size ==> r.nodes@ == seq![
                Node::Leaf { bounds: r.nodes@[0].bound(), offset: 0, count: bounds.len() },
            ],
    {
        let n = bounds.len();
        let mut order: Vec<usize> = Vec::new();
        let mut k: usize = 0;
        while k < n
            invariant
                k <= n,
                order@ == Seq::new(k as nat, |j: int| j as usize),
            decreases n - k,
        {
            order.push(k);
            k = k + 1;
            assert(order@ =~= Seq::new(k as nat, |j: int| j as usize));
        }
        let mut nodes: Vec<Node> = Vec::new();
        build_range(&bounds, &mut order, &mut nodes, 0, n, max_leaf_size);
        assert(n <= max_leaf_size ==> nodes@ =~= seq![
            Node::Leaf { bounds: nodes@[0].bound(), offset: 0, count: n },
        ]);
        BVH { nodes, order, bounds, primitives }
    }

    /// A ray that misses a node's box is reported by `hit` on no primitive below it.
    proof fn lemma_miss_below<F: Fn(&Ray, &P) -> bool>(&self, idx: int, ray: &Ray, hit: &F)
        requires
            self.wf(),
            0 <= idx < self.nodes.len(),
            ray.wf(),
            !slab_hit(self.nodes@[idx].bound(), *ray),
            self.hits_in_bounds(hit),
        ensures
            forall|k: int|
                #[trigger] in_subtree(self.nodes@, idx, k) ==> !hit.ensures(
                    (ray, &self.primitives@[self.order@[k] as int]),
                    true,
                ),
    {
        assert forall|k: int| #[trigger] in_subtree(self.nodes@, idx, k) implies !hit.ensures(
            (ray, &self.primitives@[self.order@[k] as int]),
            true,
        ) by {
            lemma_in_subtree_within(self.nodes@, self.bounds@, self.order@, idx, k);
            let pk = self.order@[k] as int;
            if hit.ensures((ray, &self.primitives@[pk]), true) {
                assert(slab_hit(self.bounds@[pk], *ray));
                lemma_slab_hit_grows(self.bounds@[pk], self.nodes@[idx].bound(), *ray);
            }
        }
    }

    /// Each primitive stands at some position of the order.
    proof fn lemma_position_of(&self, k: int) -> (m: int)
        requires
            self.wf(),
            0 <= k < self.primitives.len(),
        ensures
            0 <= m < self.order.len(),
            self.order@[m] == k,
    {
        let ident = Seq::new(self.primitives.len() as nat, |j: int| j as usize);
        assert(ident[k] == k as usize);
        assert(ident.contains(k as usize));
        assert(ident.to_multiset().count(k as usize) > 0);
        assert(self.order@.to_multiset().count(k as usize) > 0);
        assert(self.order@.contains(k as usize));
        choose|m: int| 0 <= m < self.order.len() && self.order@[m] == k as usize
    }

    /// Position `m` of the order lies below some node on `stack`.
    pub open spec fn pending(&self, stack: Seq<usize>, m: int) -> bool {
        exists|j: int| 0 <= j < stack.len() && #[trigger] in_subtree(self.nodes@, stack[j] as int, m)
    }

    /// Whether the ray hits any primitive, by `hit`, the test of one primitive against
    /// a ray. Walks the tree with a stack of node indices, nearer child first, skips
    /// each node whose box the ray misses, and stops at the first hit.
    pub fn any_hit<F: Fn(&Ray, &P) -> bool>(&self, ray: &Ray, hit: &F) -> (r: bool)
        requires
            self.wf(),
            ray.wf(),
            forall|rr: &Ray, p: &P| #[trigger] hit.requires((rr, p)),
        ensures
            r ==> exists|k: int| 0 <= k < self.primitives.len() && #[trigger] hit.ensures((ray, &self.primitives@[k]), true),
            Self::deterministic(hit) && self.hits_in_bounds(hit) ==> (r <==> exists|k: int|
                0 <= k < self.primitives.len() && #[trigger] hit.ensures((ray, &self.primitives@[k]), true)),
    {
        let neg_dir = ray.neg_dir();
        let ghost n = self.nodes.len() as nat;
        let mut stack: Vec<usize> = Vec::new();
        stack.push(0);
        proof {
            assert forall|m: int| #[trigger] in_subtree(self.nodes@, 0, m) implies self.pending(stack@, m) by {
                assert(stack@[0] == 0);
            }
        }
        while stack.len() > 0
            invariant
                self.wf(),
                ray.wf(),
                n == self.nodes.len(),
                neg_dir_of(*ray, neg_dir),
                forall|rr: &Ray, p: &P| #[trigger] hit.requires((rr, p)),
                forall|j: int| 0 <= j < stack.len() ==> #[trigger] stack@[j] < self.nodes.len(),
                Self::deterministic(hit) && self.hits_in_bounds(hit) ==> forall|m: int|
                    #[trigger] in_subtree(self.nodes@, 0, m) && hit.ensures(
                        (ray, &self.primitives@[self.order@[m] as int]),
                        true,
                    ) ==> self.pending(stack@, m),
            decreases stack_weight(stack@, n),
        {
            let ghost before = stack@;
            let idx = stack.pop().unwrap();
            let ghost rest = stack@;
            assert(rest =~= before.drop_last());
            proof {
                lemma_pow2_pos((n - idx) as nat);
            }
            let node = self.nodes[idx];
            assert(node_wf(self.nodes@, idx as int, self.bounds@, self.order@));
            let ghost premises = Self::deterministic(hit) && self.hits_in_bounds(hit);
            match node {
                Node::Leaf { bounds, offset, count } => {
                    if bounds.fast_intersect(ray, &neg_dir) {
                        let mut k: usize = offset;
                        while k < offset + count
                            invariant
                                self.wf(),
                                offset + count <= self.order.len(),
                                offset <= k <= offset + count,
                                forall|rr: &Ray, p: &P| #[trigger] hit.requires((rr, p)),
                                forall|m: int|
                                    offset <= m < k ==> #[trigger] hit.ensures(
                                        (ray, &self.primitives@[self.order@[m] as int]),
                                        false,
                                    ),
                            decreases offset + count - k,
                        {
                            let p = self.order[k];
                            if hit(ray, &self.primitives[p]) {
                                return true;
                            }
                            k = k + 1;
                        }
                        proof {
                            assert forall|m: int|
                                #[trigger] in_subtree(self.nodes@, idx as int, m) && Self::deterministic(hit) implies !hit.ensures(
                                    (ray, &self.primitives@[self.order@[m] as int]),
                                    true,
                                ) by {
                                assert(hit.ensures((ray, &self.primitives@[self.order@[m] as int]), false));
                            }
                        }
                    } else {
                        proof {
                            if self.hits_in_bounds(hit) {
                                self.lemma_miss_below(idx as int, ray, hit);
                            }
                        }
                    }
                    proof {
                        if premises {
                            assert forall|m: int|
                                #[trigger] in_subtree(self.nodes@, 0, m) && hit.ensures(
                                    (ray, &self.primitives@[self.order@[m] as int]),
                                    true,
                                ) implies self.pending(stack@, m) by {
                                let j = choose|j: int| 0 <= j < before.len() && #[trigger] in_subtree(self.nodes@, before[j] as int, m);
                                assert(j != before.len() - 1);
                                assert(stack@[j] == before[j]);
                            }
                        }
                    }
                },
                Node::Interior { bounds, second_child, axis } => {
                    if bounds.fast_intersect(ray, &neg_dir) {
                        let (near, far) = if neg_dir[axis_index(axis)] == 1 {
                            (second_child, idx + 1)
                        } else {
                            (idx + 1, second_child)
                        };
                        stack.push(far);
                        stack.push(near);
                        proof {
                            lemma_weight_push(rest, far, n);
                            lemma_weight_push(rest.push(far), near, n);
                            assert(stack@ =~= rest.push(far).push(near));
                            lemma_pow2_unfold((n - idx) as nat);
                            lemma_pow2_strictly_increases((n - second_child) as nat, (n - idx - 1) as nat);
                            if premises {
                                assert forall|m: int|
                                    #[trigger] in_subtree(self.nodes@, 0, m) && hit.ensures(
                                        (ray, &self.primitives@[self.order@[m] as int]),
                                        true,
                                    ) implies self.pending(stack@, m) by {
                                    let j = choose|j: int| 0 <= j < before.len() && #[trigger] in_subtree(self.nodes@, before[j] as int, m);
                                    if j == before.len() - 1 {
                                        assert(before[j] == idx);
                                        assert(in_subtree(self.nodes@, idx as int, m));
                                        if in_subtree(self.nodes@, near as int, m) {
                                            assert(stack@[rest.len() as int + 1] == near);
                                            assert(in_subtree(self.nodes@, stack@[rest.len() as int + 1] as int, m));
                                        } else {
                                            assert(stack@[rest.len() as int] == far);
                                            assert(in_subtree(self.nodes@, stack@[rest.len() as int] as int, m));
                                        }
                                    } else {
                                        assert(stack@[j] == before[j]);
                                        assert(in_subtree(self.nodes@, stack@[j] as int, m));
                                    }
                                }
                            }
                        }
                    } else {
                        proof {
                            if premises {
                                self.lemma_miss_below(idx as int, ray, hit);
                                assert forall|m: int|
                                    #[trigger] in_subtree(self.nodes@, 0, m) && hit.ensures(
                                        (ray, &self.primitives@[self.order@[m] as int]),
                                        true,
                                    ) implies self.pending(stack@, m) by {
                                    let j = choose|j: int| 0 <= j < before.len() && #[trigger] in_subtree(self.nodes@, before[j] as int, m);
                                    assert(j != before.len() - 1);
                                    assert(stack@[j] == before[j]);
                                }
                            }
                        }
                    }
                },
            }
        }
        proof {
            if Self::deterministic(hit) && self.hits_in_bounds(hit) {
                assert forall|k: int|
                    0 <= k < self.primitives.len() && #[trigger] hit.ensures((ray, &self.primitives@[k]), true) implies false by {
                    let m = self.lemma_position_of(k);
                    assert(in_subtree(self.nodes@, 0, m));
                }
            }
        }
        false
    }

    /// `hit` reports a hit on a primitive only with a positive denominator, and only for
    /// rays that pass the slab test on the primitive's box.
    pub open spec fn nearest_in_bounds<F: Fn(&Ray, &P) -> Option<Frac>>(&self, hit: &F) -> bool {
        forall|rr: Ray, k: int, t: Frac|
            0 <= k < self.primitives.len() && rr.wf() && #[trigger] hit.ensures((&rr, &self.primitives@[k]), Some(t))
                ==> t.den > 0 && slab_hit(self.bounds@[k], rr)
    }

    /// `hit` reports a hit of `rr` on some primitive.
    pub open spec fn some_hit<F: Fn(&Ray, &P) -> Option<Frac>>(&self, hit: &F, rr: Ray) -> bool {
        exists|k: int, t: Frac| 0 <= k < self.primitives.len() && #[trigger] hit.ensures((&rr, &self.primitives@[k]), Some(t))
    }

    /// `hit` answers as a primitive with a fixed hit parameter would: on a ray cut off
    /// no later, the answer is the first answer cut at the new `t_max`.
    pub open spec fn cut_consistent<F: Fn(&Ray, &P) -> Option<Frac>>(hit: &F) -> bool {
        forall|r1: Ray, r2: Ray, p: P, o1: Option<Frac>, o2: Option<Frac>|
            #[trigger] hit.ensures((&r1, &p), o1) && #[trigger] hit.ensures((&r2, &p), o2) && narrower(r2, r1)
                ==> o2 == cut_at(o1, r2.t_max)
    }

    /// `hit` reports no hit on primitive `pk` for any ray cut off no later than `rr`.
    pub open spec fn done<F: Fn(&Ray, &P) -> Option<Frac>>(&self, hit: &F, pk: int, rr: Ray) -> bool {
        forall|r2: Ray, t: Frac|
            narrower(r2, rr) ==> !(#[trigger] hit.ensures((&r2, &self.primitives@[pk]), Some(t)))
    }

    /// `hit` reports no hit for any ray cut off no later than `rr`, on any primitive.
    pub open spec fn none_before<F: Fn(&Ray, &P) -> Option<Frac>>(&self, hit: &F, rr: Ray) -> bool {
        forall|pk: int| 0 <= pk < self.primitives.len() ==> #[trigger] self.done(hit, pk, rr)
    }

    /// Every primitive below node `idx` is done for `rr`.
    pub open spec fn done_below<F: Fn(&Ray, &P) -> Option<Frac>>(&self, hit: &F, idx: int, rr: Ray) -> bool {
        forall|m: int| #[trigger] in_subtree(self.nodes@, idx, m) ==> self.done(hit, self.order@[m] as int, rr)
    }

    /// `hit` reports primitive `k` hit at `t` by a ray that is `rr` cut off no later.
    pub open spec fn reported_on<F: Fn(&Ray, &P) -> Option<Frac>>(&self, hit: &F, k: usize, t: Frac, rr: Ray) -> bool {
        &&& k < self.primitives.len()
        &&& exists|r2: Ray| narrower(r2, rr) && #[trigger] hit.ensures((&r2, &self.primitives@[k as int]), Some(t))
    }

    proof fn lemma_done_narrows<F: Fn(&Ray, &P) -> Option<Frac>>(&self, hit: &F, pk: int, r1: Ray, r2: Ray)
        requires
            self.done(hit, pk, r1),
            narrower(r2, r1),
            r1.wf(),
        ensures
            self.done(hit, pk, r2),
    {
        assert forall|r3: Ray, t: Frac| narrower(r3, r2) implies !(#[trigger] hit.ensures(
            (&r3, &self.primitives@[pk]),
            Some(t),
        )) by {
            lemma_narrower_trans(r3, r2, r1);
        }
    }

    proof fn lemma_pruned_done<F: Fn(&Ray, &P) -> Option<Frac>>(&self, idx: int, ray: Ray, hit: &F)
        requires
            self.wf(),
            0 <= idx < self.nodes.len(),
            ray.wf(),
            !slab_hit(self.nodes@[idx].bound(), ray),
            self.nearest_in_bounds(hit),
        ensures
            self.done_below(hit, idx, ray),
    {
        assert forall|m: int| #[trigger] in_subtree(self.nodes@, idx, m) implies self.done(
            hit,
            self.order@[m] as int,
            ray,
        ) by {
            lemma_in_subtree_within(self.nodes@, self.bounds@, self.order@, idx, m);
            let pk = self.order@[m] as int;
            assert forall|r2: Ray, t: Frac| narrower(r2, ray) implies !(#[trigger] hit.ensures(
                (&r2, &self.primitives@[pk]),
                Some(t),
            )) by {
                if hit.ensures((&r2, &self.primitives@[pk]), Some(t)) {
                    lemma_slab_hit_grows(self.bounds@[pk], self.nodes@[idx].bound(), r2);
                    lemma_slab_hit_later_end(self.nodes@[idx].bound(), r2, ray);
                }
            }
        }
    }

    /// The nearest primitive hit by the ray and the parameter of that hit. `hit` tests
    /// one primitive against a ray and gives the parameter of a hit within the ray's
    /// range. Walks the tree with a stack of node indices, nearer child first, and
    /// skips each node whose box the ray misses; after each hit the ray's `t_max` is
    /// narrowed to it, so that later tests only accept nearer hits.
    pub fn closest_hit<F: Fn(&Ray, &P) -> Option<Frac>>(&self, ray: &Ray, hit: &F) -> (r: Option<(usize, Frac)>)
        requires
            self.wf(),
            ray.wf(),
            forall|rr: &Ray, p: &P| #[trigger] hit.requires((rr, p)),
        ensures
            r.is_some() ==> self.reported(hit, r.unwrap().0, r.unwrap().1),
            r.is_some() ==> self.some_hit(hit, *ray),
            Self::cut_consistent(hit) && self.nearest_in_bounds(hit) ==> (r.is_none() <==> !self.some_hit(hit, *ray)),
            Self::cut_consistent(hit) && self.nearest_in_bounds(hit) ==> match r {
                Some((k, t)) => {
                    &&& self.reported_on(hit, k, t, *ray)
                    &&& self.none_before(hit, Ray { t_max: t, ..*ray })
                },
                None => self.none_before(hit, *ray),
            },
    {
        let neg_dir = ray.neg_dir();
        let ghost n = self.nodes.len() as nat;
        let ghost premises = Self::cut_consistent(hit) && self.nearest_in_bounds(hit);
        let mut cur = *ray;
        let mut best: Option<(usize, Frac)> = None;
        let mut stack: Vec<usize> = Vec::new();
        stack.push(0);
        proof {
            assert forall|m: int| #[trigger] in_subtree(self.nodes@, 0, m) implies self.pending(stack@, m) by {
                assert(stack@[0] == 0);
            }
        }
        while stack.len() > 0
            invariant
                self.wf(),
                ray.wf(),
                cur.wf(),
                n == self.nodes.len(),
                premises == (Self::cut_consistent(hit) && self.nearest_in_bounds(hit)),
                cur.origin == ray.origin,
                cur.dir == ray.dir,
                cur.t_min == ray.t_min,
                neg_dir_of(*ray, neg_dir),
                forall|rr: &Ray, p: &P| #[trigger] hit.requires((rr, p)),
                forall|j: int| 0 <= j < stack.len() ==> #[trigger] stack@[j] < self.nodes.len(),
                best.is_some() ==> self.reported(hit, best.unwrap().0, best.unwrap().1),
                best.is_some() ==> cur.t_max == best.unwrap().1,
                best.is_some() ==> self.some_hit(hit, *ray),
                best.is_none() ==> cur == *ray,
                premises ==> narrower(cur, *ray),
                premises && best.is_some() ==> self.reported_on(hit, best.unwrap().0, best.unwrap().1, *ray),
                premises ==> forall|m: int|
                    #[trigger] in_subtree(self.nodes@, 0, m) ==> self.pending(stack@, m) || self.done(
                        hit,
                        self.order@[m] as int,
                        cur,
                    ),
            decreases stack_weight(stack@, n),
        {
            let ghost before = stack@;
            let idx = stack.pop().unwrap();
            let ghost rest = stack@;
            assert(rest =~= before.drop_last());
            proof {
                lemma_pow2_pos((n - idx) as nat);
            }
            let node = self.nodes[idx];
            assert(node_wf(self.nodes@, idx as int, self.bounds@, self.order@));
            assert(neg_dir_of(cur, neg_dir));
            let bounds = node.bound_of();
            if !bounds.fast_intersect(&cur, &neg_dir) {
                proof {
                    if premises {
                        self.lemma_pruned_done(idx as int, cur, hit);
                        assert forall|m: int| #[trigger] in_subtree(self.nodes@, 0, m) implies self.pending(stack@, m)
                            || self.done(hit, self.order@[m] as int, cur) by {
                            if self.pending(before, m) {
                                let j = choose|j: int| 0 <= j < before.len() && #[trigger] in_subtree(self.nodes@, before[j] as int, m);
                                if j < before.len() - 1 {
                                    assert(stack@[j] == before[j]);
                                    assert(in_subtree(self.nodes@, stack@[j] as int, m));
                                }
                            }
                        }
                    }
                }
            } else {
                match node {
                    Node::Leaf { offset, count, .. } => {
                        proof {
                            if premises {
                                assert forall|m: int| #[trigger] in_subtree(self.nodes@, 0, m) implies self.pending(stack@, m)
                                    || (offset <= m < offset + count) || self.done(hit, self.order@[m] as int, cur) by {
                                    if self.pending(before, m) {
                                        let j = choose|j: int| 0 <= j < before.len() && #[trigger] in_subtree(self.nodes@, before[j] as int, m);
                                        if j < before.len() - 1 {
                                            assert(stack@[j] == before[j]);
                                            assert(in_subtree(self.nodes@, stack@[j] as int, m));
                                        } else {
                                            assert(in_subtree(self.nodes@, idx as int, m));
                                        }
                                    }
                                }
                            }
                        }
                        let mut k: usize = offset;
                        while k < offset + count
                            invariant
                                self.wf(),
                                ray.wf(),
                                cur.wf(),
                                premises == (Self::cut_consistent(hit) && self.nearest_in_bounds(hit)),
                                offset + count <= self.order.len(),
                                offset <= k <= offset + count,
                                forall|rr: &Ray, p: &P| #[trigger] hit.requires((rr, p)),
                                cur.origin == ray.origin,
                                cur.dir == ray.dir,
                                cur.t_min == ray.t_min,
                                best.is_some() ==> self.reported(hit, best.unwrap().0, best.unwrap().1),
                                best.is_some() ==> cur.t_max == best.unwrap().1,
                                best.is_some() ==> self.some_hit(hit, *ray),
                                best.is_none() ==> cur == *ray,
                                premises ==> narrower(cur, *ray),
                                premises && best.is_some() ==> self.reported_on(hit, best.unwrap().0, best.unwrap().1, *ray),
                                premises ==> forall|m: int|
                                    #[trigger] in_subtree(self.nodes@, 0, m) ==> self.pending(stack@, m)
                                        || (k <= m < offset + count) || self.done(hit, self.order@[m] as int, cur),
                            decreases offset + count - k,
                        {
                            let p = self.order[k];
                            let ghost prev = cur;
                            let found = hit(&cur, &self.primitives[p]);
                            match found {
                                Some(t) => {
                                    if t.den > 0 {
                                        proof {
                                            assert(hit.ensures((&prev, &self.primitives@[p as int]), Some(t)));
                                            if premises {
                                                assert(narrower(prev, prev));
                                                lemma_narrower_trans(prev, prev, *ray);
                                            }
                                        }
                                        cur.t_max = t;
                                        best = Some((p, t));
                                    }
                                },
                                None => {},
                            }
                            proof {
                                if premises {
                                    assert(narrower(prev, prev));
                                    assert(narrower(cur, prev));
                                    lemma_narrower_trans(cur, prev, *ray);
                                    assert forall|m: int| #[trigger] in_subtree(self.nodes@, 0, m) implies self.pending(stack@, m)
                                        || (k + 1 <= m < offset + count) || self.done(hit, self.order@[m] as int, cur) by {
                                        if m == k {
                                            assert forall|r2: Ray, t2: Frac| narrower(r2, cur) implies !(#[trigger] hit.ensures(
                                                (&r2, &self.primitives@[p as int]),
                                                Some(t2),
                                            )) by {
                                                lemma_narrower_trans(r2, cur, prev);
                                            }
                                        } else if !self.pending(stack@, m) && !(k + 1 <= m < offset + count) {
                                            self.lemma_done_narrows(hit, self.order@[m] as int, prev, cur);
                                        }
                                    }
                                }
                            }
                            k = k + 1;
                        }
                    },
                    Node::Interior { second_child, axis, .. } => {
                        let (near, far) = if neg_dir[axis_index(axis)] == 1 {
                            (second_child, idx + 1)
                        } else {
                            (idx + 1, second_child)
                        };
                        stack.push(far);
                        stack.push(near);
                        proof {
                            lemma_weight_push(rest, far, n);
                            lemma_weight_push(rest.push(far), near, n);
                            assert(stack@ =~= rest.push(far).push(near));
                            lemma_pow2_unfold((n - idx) as nat);
                            lemma_pow2_strictly_increases((n - second_child) as nat, (n - idx - 1) as nat);
                            if premises {
                                assert forall|m: int| #[trigger] in_subtree(self.nodes@, 0, m) implies self.pending(stack@, m)
                                    || self.done(hit, self.order@[m] as int, cur) by {
                                    if self.pending(before, m) {
                                        let j = choose|j: int| 0 <= j < before.len() && #[trigger] in_subtree(self.nodes@, before[j] as int, m);
                                        if j == before.len() - 1 {
                                            assert(in_subtree(self.nodes@, idx as int, m));
                                            if in_subtree(self.nodes@, near as int, m) {
                                                assert(stack@[rest.len() as int + 1] == near);
                                                assert(in_subtree(self.nodes@, stack@[rest.len() as int + 1] as int, m));
                                            } else {
                                                assert(stack@[rest.len() as int] == far);
                                                assert(in_subtree(self.nodes@, stack@[rest.len() as int] as int, m));
                                            }
                                        } else {
                                            assert(stack@[j] == before[j]);
                                            assert(in_subtree(self.nodes@, stack@[j] as int, m));
                                        }
                                    }
                                }
                            }
                        }
                    },
                }
            }
        }
        proof {
            if premises {
                assert forall|pk: int| 0 <= pk < self.primitives.len() implies #[trigger] self.done(hit, pk, cur) by {
                    let m = self.lemma_position_of(pk);
                    assert(in_subtree(self.nodes@, 0, m));
                }
                if best.is_some() {
                    assert(cur == Ray { t_max: best.unwrap().1, ..*ray });
                } else {
                    assert(narrower(*ray, *ray));
                    if self.some_hit(hit, *ray) {
                        let (k, t) = choose|k: int, t: Frac|
                            0 <= k < self.primitives.len() && #[trigger] hit.ensures((&*ray, &self.primitives@[k]), Some(t));
                        assert(self.done(hit, k, cur));
                    }
                }
            }
        }
        best
    }
}

impl<P: Boundable> BVH<P> {
    /// Builds the hierarchy over `primitives`, bounded over the time interval
    /// `[start, end]`, with at most `max_leaf_size` primitives per leaf.
    pub fn new(max_leaf_size: usize, primitives: Vec<P>, start: i64, end: i64) -> (r: BVH<P>)
        requires
            max_leaf_size >= 1,
            2 * primitives.len() + 2 < usize::MAX,
        ensures
            r.wf(),
            r.primitives@ == primitives@,
            primitives.len() <= max_leaf_size ==> r.nodes@ == seq![
                Node::Leaf { bounds: r.nodes@[0].bound(), offset: 0, count: primitives.len() },
            ],
    {
        let mut bounds: Vec<BBox> = Vec::new();
        let mut k: usize = 0;
        while k < primitives.len()
            invariant
                k <= primitives.len(),
                bounds.len() == k,
            decreases primitives.len() - k,
        {
            bounds.push(primitives[k].bounds(start, end));
            k = k + 1;
        }
        BVH::from_bounds(max_leaf_size, bounds, primitives)
    }

    /// Builds the hierarchy over primitives that do not move.
    pub fn unanimated(max_leaf_size: usize, primitives: Vec<P>) -> (r: BVH<P>)
        requires
            max_leaf_size >= 1,
            2 * primitives.len() + 2 < usize::MAX,
        ensures
            r.wf(),
            r.primitives@ == primitives@,
            primitives.len() <= max_leaf_size ==> r.nodes@ == seq![
                Node::Leaf { bounds: r.nodes@[0].bound(), offset: 0, count: primitives.len() },
            ],
    {
        BVH::new(max_leaf_size, primitives, 0, 0)
    }
}

} // verus!
