//! In-place partition of a vector by a predicate.

use vstd::prelude::*;

verus! {

broadcast use {vstd::seq_lib::group_to_multiset_ensures, vstd::multiset::group_multiset_axioms};

/// Exchanges the elements at `i` and `j`.
pub(crate) fn swap_at<T: Copy>(v: &mut Vec<T>, i: usize, j: usize)
    requires
        i < old(v).len(),
        j < old(v).len(),
    ensures
        final(v)@ == old(v)@.update(i as int, old(v)@[j as int]).update(j as int, old(v)@[i as int]),
        final(v)@.to_multiset() == old(v)@.to_multiset(),
{
    let a = v[i];
    let b = v[j];
    let ghost s = v@;
    v.set(i, b);
    v.set(j, a);
    proof {
        vstd::seq_lib::to_multiset_update(s, i as int, b);
        vstd::seq_lib::to_multiset_update(s.update(i as int, b), j as int, a);
        assert(v@.to_multiset() =~= s.to_multiset());
    }
}

/// Reorders the elements of `v` at indices `lo..hi` so that every element for which
/// `pred` holds comes before every element for which it does not, and returns the
/// index of the first element of the second group. Elements outside the range stay.
pub fn partition_range<T: Copy, F: Fn(&T) -> bool>(v: &mut Vec<T>, lo: usize, hi: usize, pred: &F) -> (split: usize)
    requires
        lo <= hi <= old(v).len(),
        forall|x: &T| #[trigger] pred.requires((x,)),
    ensures
        lo <= split <= hi,
        final(v).len() == old(v).len(),
        final(v)@.to_multiset() == old(v)@.to_multiset(),
        forall|k: int| 0 <= k < lo || hi <= k < final(v).len() ==> #[trigger] final(v)@[k] == old(v)@[k],
        forall|k: int| lo <= k < split ==> #[trigger] pred.ensures((&final(v)@[k],), true),
        forall|k: int| split <= k < hi ==> #[trigger] pred.ensures((&final(v)@[k],), false),
{
    let ghost start = v@;
    let mut i: usize = lo;
    let mut j: usize = hi;
    while i < j
        invariant
            forall|x: &T| #[trigger] pred.requires((x,)),
            lo <= i <= j <= hi,
            hi <= v.len(),
            v.len() == start.len(),
            v@.to_multiset() == start.to_multiset(),
            forall|k: int| 0 <= k < lo || hi <= k < v.len() ==> #[trigger] v@[k] == start[k],
            forall|k: int| lo <= k < i ==> #[trigger] pred.ensures((&v@[k],), true),
            forall|k: int| j <= k < hi ==> #[trigger] pred.ensures((&v@[k],), false),
        decreases j - i,
    {
        if pred(&v[i]) {
            i = i + 1;
        } else if i + 1 == j || !pred(&v[j - 1]) {
            j = j - 1;
        } else {
            swap_at(v, i, j - 1);
            i = i + 1;
            j = j - 1;
        }
    }
    i
}

/// Reorders `v` in place so that every element for which `pred` holds comes before
/// every element for which it does not, and returns the number of the former (the
/// index of the first element of the second group). Scans from both ends and swaps
/// each misplaced pair; the order within each group is not kept.
pub fn partition<T: Copy, F: Fn(&T) -> bool>(v: &mut Vec<T>, pred: F) -> (split: usize)
    requires
        forall|x: &T| #[trigger] pred.requires((x,)),
    ensures
        split <= final(v).len(),
        final(v)@.to_multiset() == old(v)@.to_multiset(),
        final(v).len() == old(v).len(),
        forall|k: int| 0 <= k < split ==> #[trigger] pred.ensures((&final(v)@[k],), true),
        forall|k: int| split <= k < final(v).len() ==> #[trigger] pred.ensures((&final(v)@[k],), false),
{
    let n = v.len();
    partition_range(v, 0, n, &pred)
}

} // verus!
