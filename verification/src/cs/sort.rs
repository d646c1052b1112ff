//! Sorting algorithms.

pub mod bubblesort;
pub mod countingsort;
pub mod heapsort;
pub mod keyed;
pub mod quicksort;
pub mod radixsort;
pub mod selectionsort;
pub mod shellsort;

use crate::order::{equiv, leq, less};
use vstd::prelude::*;

verus! {

/// The elements at `lo .. hi` are in ascending order.
pub open spec fn sorted_between<T: PartialOrd>(s: Seq<T>, lo: int, hi: int) -> bool {
    forall|p: int, q: int| lo <= p < q < hi ==> leq(#[trigger] s[p], #[trigger] s[q])
}

/// `p` lists each index of `0 .. n` exactly once.
pub open spec fn is_index_perm(p: Seq<int>, n: int) -> bool {
    &&& p.len() == n
    &&& forall|k: int| 0 <= k < n ==> 0 <= #[trigger] p[k] < n
    &&& forall|k1: int, k2: int| 0 <= k1 < k2 < n ==> #[trigger] p[k1] != #[trigger] p[k2]
}

/// `new` is `old` with its elements rearranged: position `k` of `new` holds
/// what stood at `p[k]` in `old`.
pub open spec fn rearranges<T>(new: Seq<T>, old: Seq<T>, p: Seq<int>) -> bool {
    &&& new.len() == old.len()
    &&& is_index_perm(p, old.len() as int)
    &&& forall|k: int| 0 <= k < new.len() ==> new[k] == old[#[trigger] p[k]]
}

/// Elements that compare as equal keep their original relative order.
pub open spec fn keeps_order_of_equals<T: PartialOrd>(new: Seq<T>, p: Seq<int>) -> bool {
    forall|k1: int, k2: int|
        0 <= k1 < k2 < new.len() && equiv(#[trigger] new[k1], #[trigger] new[k2]) ==> p[k1] < p[k2]
}

/// `new` is a stable rearrangement of `old`.
pub open spec fn stable_rearrangement<T: PartialOrd>(new: Seq<T>, old: Seq<T>) -> bool {
    exists|p: Seq<int>| rearranges(new, old, p) && keeps_order_of_equals(new, p)
}

/// Exchanging two adjacent elements, the first strictly greater than the
/// second, keeps a stable rearrangement stable.
pub proof fn lemma_swap_adjacent_stable<T: PartialOrd>(a: Seq<T>, orig: Seq<T>, p: Seq<int>, i: int)
    requires
        crate::order::total_order::<T>(),
        rearranges(a, orig, p),
        keeps_order_of_equals(a, p),
        0 <= i,
        i + 1 < a.len(),
        less(a[i + 1], a[i]),
    ensures
        rearranges(
            a.update(i, a[i + 1]).update(i + 1, a[i]),
            orig,
            p.update(i, p[i + 1]).update(i + 1, p[i]),
        ),
        keeps_order_of_equals(
            a.update(i, a[i + 1]).update(i + 1, a[i]),
            p.update(i, p[i + 1]).update(i + 1, p[i]),
        ),
{
    let b = a.update(i, a[i + 1]).update(i + 1, a[i]);
    let q = p.update(i, p[i + 1]).update(i + 1, p[i]);
    crate::order::lemma_less_not_leq(a[i + 1], a[i]);
    assert forall|k1: int, k2: int| 0 <= k1 < k2 < a.len() implies #[trigger] q[k1] != #[trigger] q[k2] by {
        let o1 = if k1 == i { i + 1 } else if k1 == i + 1 { i } else { k1 };
        let o2 = if k2 == i { i + 1 } else if k2 == i + 1 { i } else { k2 };
        assert(q[k1] == p[o1]);
        assert(q[k2] == p[o2]);
        if o1 < o2 {
            assert(p[o1] != p[o2]);
        } else {
            assert(p[o2] != p[o1]);
        }
    }
    assert forall|k: int| 0 <= k < a.len() implies 0 <= #[trigger] q[k] < a.len() by {
        if k == i {
            assert(0 <= p[i + 1] < a.len());
        } else if k == i + 1 {
            assert(0 <= p[i] < a.len());
        } else {
            assert(0 <= p[k] < a.len());
        }
    }
    assert forall|k: int| 0 <= k < b.len() implies b[k] == orig[#[trigger] q[k]] by {
        if k == i {
            assert(a[i + 1] == orig[p[i + 1]]);
        } else if k == i + 1 {
            assert(a[i] == orig[p[i]]);
        } else {
            assert(a[k] == orig[p[k]]);
        }
    }
    assert forall|k1: int, k2: int|
        0 <= k1 < k2 < b.len() && equiv(#[trigger] b[k1], #[trigger] b[k2]) implies q[k1] < q[k2] by {
        let o1 = if k1 == i { i + 1 } else if k1 == i + 1 { i } else { k1 };
        let o2 = if k2 == i { i + 1 } else if k2 == i + 1 { i } else { k2 };
        assert(b[k1] == a[o1]);
        assert(b[k2] == a[o2]);
        if k1 == i && k2 == i + 1 {
            assert(!leq(a[i], a[i + 1]));
        } else {
            assert(o1 < o2);
            assert(equiv(a[o1], a[o2]));
        }
    }
}

} // verus!
