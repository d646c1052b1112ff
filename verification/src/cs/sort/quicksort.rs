//! Quicksort with median-of-three pivots, an explicit stack of ranges, and
//! insertion sort for short ranges.

use crate::cs::sort::sorted_between;
use crate::order::{
    is_lt, lemma_leq_total, lemma_leq_trans, lemma_less_not_leq, leq, less, sorted, total_order,
};
use crate::permutation::{
    lemma_range_perm_source, lemma_range_perm_trans, lemma_range_perm_whole,
    lemma_range_perm_widen, lemma_swap_range_perm, permutes, range_perm,
};
use vstd::prelude::*;

verus! {

/// Ranges shorter than this are sorted by insertion.
pub const INSERTION_SORT_THRESHOLD: usize = 10;


/// Sorts `arr[lo .. hi]` by insertion, moving each element left past the
/// larger ones before it.
fn insertion_sort<T: Ord>(arr: &mut [T], lo: usize, hi: usize)
    requires
        total_order::<T>(),
        lo <= hi <= old(arr)@.len(),
    ensures
        range_perm(final(arr)@, old(arr)@, lo as int, hi as int),
        sorted_between(final(arr)@, lo as int, hi as int),
{
    let ghost orig = arr@;
    if hi - lo < 2 {
        proof {
            assert(arr@.subrange(lo as int, hi as int) =~= orig.subrange(lo as int, hi as int));
        }
        return;
    }
    let mut i: usize = lo + 1;
    proof {
        assert(arr@.subrange(lo as int, hi as int) =~= orig.subrange(lo as int, hi as int));
    }
    while i < hi
        invariant
            total_order::<T>(),
            lo < i <= hi <= arr@.len(),
            range_perm(arr@, orig, lo as int, hi as int),
            sorted_between(arr@, lo as int, i as int),
        decreases hi - i,
    {
        let mut j: usize = i;
        while j > lo && is_lt(&arr[j], &arr[j - 1])
            invariant
                total_order::<T>(),
                lo <= j <= i < hi <= arr@.len(),
                range_perm(arr@, orig, lo as int, hi as int),
                sorted_between(arr@, lo as int, j as int),
                sorted_between(arr@, j + 1, i + 1),
                forall|p: int, q: int|
                    lo <= p < j < q <= i ==> leq(#[trigger] arr@[p], #[trigger] arr@[q]),
                forall|q: int| j < q <= i ==> less(arr@[j as int], #[trigger] arr@[q]),
            decreases j,
        {
            let ghost before = arr@;
            arr.swap(j - 1, j);
            proof {
                lemma_swap_range_perm(before, orig, lo as int, hi as int, j - 1, j as int);
                let x = before[j as int];
                let y = before[j - 1];
                assert forall|p: int, q: int| lo <= p < j - 1 < q <= i implies leq(
                    #[trigger] arr@[p],
                    #[trigger] arr@[q],
                ) by {
                    if q == j {
                        assert(leq(before[p], before[j - 1]));
                    } else if q > j {
                        assert(leq(before[p], before[q]));
                    }
                }
                assert forall|p: int, q: int| j <= p < q < i + 1 implies leq(
                    #[trigger] arr@[p],
                    #[trigger] arr@[q],
                ) by {
                    if p == j {
                        assert(leq(before[j - 1], before[q]));
                    } else {
                        assert(leq(before[p], before[q]));
                    }
                }
                assert forall|q: int| j - 1 < q <= i implies less(
                    arr@[j - 1],
                    #[trigger] arr@[q],
                ) by {
                    if q > j {
                        assert(less(x, before[q]));
                    }
                }
            }
            j = j - 1;
        }
        proof {
            let s = arr@;
            if j > lo {
                lemma_less_not_leq(s[j as int], s[j - 1]);
            }
            assert forall|p: int, q: int| lo <= p < q < i + 1 implies leq(
                #[trigger] s[p],
                #[trigger] s[q],
            ) by {
                if q < j {
                } else if p > j {
                } else if p < j && q > j {
                } else if p == j {
                    assert(less(s[j as int], s[q]));
                } else {
                    // q == j and p < j
                    if p < j - 1 {
                        assert(leq(s[p], s[j - 1]));
                        lemma_leq_trans(s[p], s[j - 1], s[j as int]);
                    }
                }
            }
        }
        i = i + 1;
    }
}

/// Partitions `arr[lo .. hi]` around the median of its first, middle and last
/// elements, and returns the pivot's final index: what stands before it is no
/// greater, and what stands after it is no smaller. Ranges of fewer than three
/// elements are only rearranged.
fn partition<T: Ord>(arr: &mut [T], lo: usize, hi: usize) -> (p: usize)
    requires
        total_order::<T>(),
        lo <= hi <= old(arr)@.len(),
    ensures
        range_perm(final(arr)@, old(arr)@, lo as int, hi as int),
        hi - lo <= 1 ==> p == lo,
        hi - lo >= 1 ==> lo <= p < hi,
        hi - lo >= 3 ==> forall|k: int| lo <= k < p ==> leq(#[trigger] final(arr)@[k], final(arr)@[p as int]),
        hi - lo >= 3 ==> forall|k: int| p < k < hi ==> leq(final(arr)@[p as int], #[trigger] final(arr)@[k]),
{
    let ghost orig = arr@;
    proof {
        assert(arr@.subrange(lo as int, hi as int) =~= orig.subrange(lo as int, hi as int));
    }
    let len = hi - lo;
    if len <= 1 {
        return lo;
    }
    let mid = lo + len / 2;
    let last = hi - 1;

    // Order the first, middle and last elements.
    if is_lt(&arr[mid], &arr[lo]) {
        let ghost before = arr@;
        arr.swap(lo, mid);
        proof {
            lemma_swap_range_perm(before, orig, lo as int, hi as int, lo as int, mid as int);
            lemma_less_not_leq(before[mid as int], before[lo as int]);
            lemma_leq_total(before[mid as int], before[lo as int]);
        }
    } else {
        proof {
            lemma_less_not_leq(arr@[mid as int], arr@[lo as int]);
        }
    }
    let ghost s1 = arr@;
    assert(leq(s1[lo as int], s1[mid as int]));
    if is_lt(&arr[last], &arr[mid]) {
        let ghost before = arr@;
        arr.swap(mid, last);
        proof {
            lemma_swap_range_perm(before, orig, lo as int, hi as int, mid as int, last as int);
            lemma_less_not_leq(before[last as int], before[mid as int]);
            lemma_leq_total(before[last as int], before[mid as int]);
        }
    } else {
        proof {
            lemma_less_not_leq(arr@[last as int], arr@[mid as int]);
            if len >= 3 {
                lemma_leq_trans(s1[lo as int], s1[mid as int], s1[last as int]);
            }
        }
    }
    proof {
        if len >= 3 {
            assert(leq(arr@[lo as int], arr@[last as int]));
            assert(leq(arr@[mid as int], arr@[last as int]));
        }
    }
    if is_lt(&arr[mid], &arr[lo]) {
        let ghost before = arr@;
        arr.swap(lo, mid);
        proof {
            lemma_swap_range_perm(before, orig, lo as int, hi as int, lo as int, mid as int);
        }
    }
    proof {
        if len >= 3 {
            assert(leq(arr@[mid as int], arr@[last as int]));
        }
    }

    // Move the pivot next to the last element.
    let ghost before = arr@;
    arr.swap(mid, last - 1);
    proof {
        lemma_swap_range_perm(before, orig, lo as int, hi as int, mid as int, last - 1);
    }
    let pivot_idx = last - 1;
    let ghost pv = arr@[pivot_idx as int];
    proof {
        if len >= 3 {
            assert(leq(pv, arr@[last as int]));
        }
    }

    let mut i: usize = lo;
    let mut j: usize = pivot_idx;
    while i < j
        invariant
            total_order::<T>(),
            lo <= i <= j <= pivot_idx,
            pivot_idx + 1 == last,
            last + 1 == hi,
            hi <= arr@.len(),
            range_perm(arr@, orig, lo as int, hi as int),
            arr@[pivot_idx as int] == pv,
            len >= 3 ==> leq(pv, arr@[last as int]),
            forall|k: int| lo <= k < i ==> leq(#[trigger] arr@[k], pv),
            forall|k: int| j <= k < pivot_idx ==> less(pv, #[trigger] arr@[k]),
        decreases 2 * (j - i) + (if i < j && less(pv, arr@[i as int]) {
            1int
        } else {
            0int
        }),
    {
        let ghost i0 = i;
        let ghost j0 = j;
        while i < j && crate::order::is_le(&arr[i], &arr[pivot_idx])
            invariant
                total_order::<T>(),
                i0 <= i <= j <= pivot_idx,
                pivot_idx + 1 == last,
                last + 1 == hi,
                hi <= arr@.len(),
                arr@[pivot_idx as int] == pv,
                forall|k: int| lo <= k < i ==> leq(#[trigger] arr@[k], pv),
            decreases j - i,
        {
            i = i + 1;
        }
        while i < j && is_lt(&arr[pivot_idx], &arr[j - 1])
            invariant
                total_order::<T>(),
                i <= j <= j0 <= pivot_idx,
                pivot_idx + 1 == last,
                last + 1 == hi,
                hi <= arr@.len(),
                arr@[pivot_idx as int] == pv,
                forall|k: int| j <= k < pivot_idx ==> less(pv, #[trigger] arr@[k]),
            decreases j,
        {
            j = j - 1;
        }
        if i < j {
            proof {
                lemma_less_not_leq(pv, arr@[i as int]);
                lemma_less_not_leq(pv, arr@[j - 1]);
            }
            let ghost before = arr@;
            arr.swap(i, j - 1);
            proof {
                lemma_swap_range_perm(before, orig, lo as int, hi as int, i as int, j - 1);
                lemma_leq_total(pv, pv);
                lemma_less_not_leq(pv, arr@[i as int]);
            }
        }
    }

    if is_lt(&arr[pivot_idx], &arr[i]) {
        let ghost before = arr@;
        arr.swap(i, pivot_idx);
        proof {
            lemma_swap_range_perm(before, orig, lo as int, hi as int, i as int, pivot_idx as int);
            if len >= 3 {
                assert forall|k: int| i < k < hi implies leq(arr@[i as int], #[trigger] arr@[k]) by {
                    if k < pivot_idx {
                        assert(less(pv, before[k]));
                    } else if k == pivot_idx {
                        assert(less(pv, before[i as int]));
                    }
                }
            }
        }
        i
    } else {
        proof {
            if i < pivot_idx {
                lemma_less_not_leq(pv, arr@[i as int]);
            }
            lemma_leq_total(pv, pv);
        }
        pivot_idx
    }
}

/// The ranges still to be sorted, and for each index the position in the
/// stack of the range that holds it (`-1` for none), agree: the ranges lie in
/// `0 .. n`, and each index holds the position of the one range it lies in.
pub open spec fn stack_ids(st: Seq<(usize, usize)>, bid: Seq<int>, n: int) -> bool {
    &&& bid.len() == n
    &&& forall|t: int| 0 <= t < st.len() ==> (#[trigger] st[t]).0 <= st[t].1 <= n
    &&& forall|k: int|
        0 <= k < n ==> -1 <= #[trigger] bid[k] < st.len() && (bid[k] >= 0 ==> st[bid[k]].0 <= k
            < st[bid[k]].1)
    &&& forall|t: int, k: int|
        #![trigger st[t], bid[k]]
        0 <= t < st.len() && st[t].0 <= k < st[t].1 ==> bid[k] == t
}

/// Any two elements that are not left to be sorted within one range are in
/// order already.
pub open spec fn ordered_across<T: PartialOrd>(a: Seq<T>, bid: Seq<int>) -> bool {
    forall|i: int, j: int|
        0 <= i < j < a.len() && (bid[i] == -1 || bid[i] != bid[j]) ==> leq(
            #[trigger] a[i],
            #[trigger] a[j],
        )
}

/// What is left to do: twice the length of each range, plus one.
pub open spec fn stack_weight(st: Seq<(usize, usize)>) -> nat
    decreases st.len(),
{
    if st.len() == 0 {
        0
    } else {
        stack_weight(st.drop_last()) + 2 * ((st.last().1 - st.last().0) as nat) + 1
    }
}

/// Rearranging the elements inside one range keeps every pair that has one
/// element inside the range and one outside in order.
proof fn lemma_cross_block<T: PartialOrd>(
    new: Seq<T>,
    old: Seq<T>,
    bid: Seq<int>,
    s: int,
    e: int,
    t: int,
)
    requires
        range_perm(new, old, s, e),
        ordered_across(old, bid),
        bid.len() == old.len(),
        t >= 0,
        forall|k: int| 0 <= k < old.len() ==> (#[trigger] bid[k] == t <==> s <= k < e),
    ensures
        forall|i: int, j: int|
            0 <= i < j < new.len() && (s <= i < e) != (s <= j < e) ==> leq(
                #[trigger] new[i],
                #[trigger] new[j],
            ),
{
    assert forall|i: int, j: int|
        0 <= i < j < new.len() && (s <= i < e) != (s <= j < e) implies leq(
            #[trigger] new[i],
            #[trigger] new[j],
        ) by {
        if s <= i < e {
            let src = lemma_range_perm_source(new, old, s, e, i);
            assert(bid[src] == t);
            assert(leq(old[src], old[j]));
        } else {
            let src = lemma_range_perm_source(new, old, s, e, j);
            assert(bid[src] == t);
            assert(leq(old[i], old[src]));
        }
    }
}

/// Popping the top range and clearing its indices keeps the ids in step.
proof fn lemma_pop_ids(st: Seq<(usize, usize)>, bid: Seq<int>, n: int, bid1: Seq<int>)
    requires
        stack_ids(st, bid, n),
        st.len() > 0,
        bid1.len() == n,
        forall|k: int|
            0 <= k < n ==> #[trigger] bid1[k] == (if st.last().0 <= k < st.last().1 {
                -1
            } else {
                bid[k]
            }),
    ensures
        stack_ids(st.drop_last(), bid1, n),
        forall|k: int|
            0 <= k < n ==> (#[trigger] bid[k] == st.len() - 1 <==> st.last().0 <= k < st.last().1),
{
    let t = st.len() - 1;
    let sd = st.drop_last();
    assert forall|k: int| 0 <= k < n implies (#[trigger] bid[k] == t <==> st.last().0 <= k
        < st.last().1) by {
        if bid[k] == t {
            assert(st[bid[k]].0 <= k < st[bid[k]].1);
        }
        if st.last().0 <= k < st.last().1 {
            assert(st[t].0 <= k < st[t].1);
        }
    }
    assert forall|k: int|
        0 <= k < n implies -1 <= #[trigger] bid1[k] < sd.len() && (bid1[k] >= 0 ==> sd[bid1[k]].0
            <= k < sd[bid1[k]].1) by {
        if !(st.last().0 <= k < st.last().1) {
            assert(bid[k] != t);
            if bid[k] >= 0 {
                assert(st[bid[k]].0 <= k < st[bid[k]].1);
            }
        }
    }
    assert forall|u: int, k: int|
        #![trigger sd[u], bid1[k]]
        0 <= u < sd.len() && sd[u].0 <= k < sd[u].1 implies bid1[k] == u by {
        assert(st[u] == sd[u]);
        assert(bid[k] == u);
    }
}

/// Pushing two ranges adds their weights.
proof fn lemma_weight_push2(st: Seq<(usize, usize)>, a: (usize, usize), b: (usize, usize))
    ensures
        stack_weight(st.push(a).push(b)) == stack_weight(st) + 2 * ((a.1 - a.0) as nat) + 1 + 2 * ((
        b.1 - b.0) as nat) + 1,
{
    assert(st.push(a).push(b).drop_last() =~= st.push(a));
    assert(st.push(a).drop_last() =~= st);
    assert(stack_weight(st.push(a)) == stack_weight(st) + 2 * ((a.1 - a.0) as nat) + 1);
    assert(stack_weight(st.push(a).push(b)) == stack_weight(st.push(a)) + 2 * ((b.1 - b.0) as nat)
        + 1);
}

/// Sorts `arr` in ascending order. Not stable: equal elements may be
/// reordered.
pub fn sort<T: Ord>(arr: &mut [T])
    requires
        total_order::<T>(),
    ensures
        sorted(final(arr)@),
        permutes(final(arr)@, old(arr)@),
{
    let ghost orig = arr@;
    let n = arr.len();
    let mut stack: Vec<(usize, usize)> = Vec::with_capacity(32);
    stack.push((0, n));
    let ghost mut bid: Seq<int> = Seq::new(n as nat, |k: int| 0int);
    proof {
        assert(arr@.subrange(0, n as int) =~= orig.subrange(0, n as int));
        assert(stack_weight(stack@.drop_last()) == 0);
    }
    while stack.len() > 0
        invariant
            total_order::<T>(),
            n == arr@.len(),
            range_perm(arr@, orig, 0, n as int),
            stack_ids(stack@, bid, n as int),
            ordered_across(arr@, bid),
        decreases stack_weight(stack@),
    {
        let ghost st = stack@;
        let ghost t: int = st.len() - 1;
        let ghost before = arr@;
        let (start, end) = stack.pop().unwrap();
        // The popped range leaves the stack.
        let ghost bid1: Seq<int> = Seq::new(n as nat, |k: int| if start <= k < end { -1int } else { bid[k] });
        proof {
            assert(st.drop_last() =~= stack@);
            assert(st[t] == (start, end));
            lemma_pop_ids(st, bid, n as int, bid1);
            assert(stack_weight(st) == stack_weight(stack@) + 2 * ((end - start) as nat) + 1);
        }
        let len = end - start;
        if len <= 1 {
            proof {
                assert forall|i: int, j: int|
                    0 <= i < j < n && (bid1[i] == -1 || bid1[i] != bid1[j]) implies leq(
                    #[trigger] arr@[i],
                    #[trigger] arr@[j],
                ) by {
                    assert(bid[i] == -1 || bid[i] != bid[j]);
                }
                bid = bid1;
            }
        } else if len < INSERTION_SORT_THRESHOLD {
            insertion_sort(arr, start, end);
            proof {
                lemma_range_perm_widen(arr@, before, start as int, end as int, 0, n as int);
                lemma_range_perm_trans(orig, before, arr@, 0, n as int);
                lemma_cross_block(arr@, before, bid, start as int, end as int, t);
                assert forall|i: int, j: int|
                    0 <= i < j < n && (bid1[i] == -1 || bid1[i] != bid1[j]) implies leq(
                    #[trigger] arr@[i],
                    #[trigger] arr@[j],
                ) by {
                    if (start <= i < end) != (start <= j < end) {
                    } else if start <= i < end {
                    } else {
                        assert(bid[i] == -1 || bid[i] != bid[j]);
                    }
                }
                bid = bid1;
            }
        } else {
            let pivot_idx = partition(arr, start, end);
            let ghost after = arr@;
            proof {
                lemma_range_perm_widen(arr@, before, start as int, end as int, 0, n as int);
                lemma_range_perm_trans(orig, before, arr@, 0, n as int);
                lemma_cross_block(arr@, before, bid, start as int, end as int, t);
            }
            let left_first = pivot_idx - start > end - (pivot_idx + 1);
            if left_first {
                stack.push((start, pivot_idx));
                stack.push((pivot_idx + 1, end));
            } else {
                stack.push((pivot_idx + 1, end));
                stack.push((start, pivot_idx));
            }
            proof {
                if left_first {
                    lemma_weight_push2(st.drop_last(), (start, pivot_idx), ((pivot_idx + 1) as usize, end));
                } else {
                    lemma_weight_push2(st.drop_last(), ((pivot_idx + 1) as usize, end), (start, pivot_idx));
                }
                let id_left: int = if left_first { t } else { t + 1 };
                let id_right: int = if left_first { t + 1 } else { t };
                let bid2: Seq<int> = Seq::new(
                    n as nat,
                    |k: int|
                        if start <= k < pivot_idx {
                            id_left
                        } else if pivot_idx < k < end {
                            id_right
                        } else if k == pivot_idx {
                            -1int
                        } else {
                            bid[k]
                        },
                );
                assert(stack@[id_left] == (start, pivot_idx));
                assert(stack@[id_right] == ((pivot_idx + 1) as usize, end));
                assert(stack@.len() == t + 2);
                assert forall|u: int| 0 <= u < t implies #[trigger] stack@[u] == st[u] by {}
                assert forall|k: int|
                    0 <= k < n implies -1 <= #[trigger] bid2[k] < stack@.len() && (bid2[k] >= 0
                        ==> stack@[bid2[k]].0 <= k < stack@[bid2[k]].1) by {
                    if !(start <= k < end) {
                        assert(bid1[k] == bid[k]);
                        if bid[k] >= 0 {
                            assert(st[bid[k]] == stack@[bid[k]]);
                        }
                    }
                }
                assert forall|u: int, k: int|
                    #![trigger stack@[u], bid2[k]]
                    0 <= u < stack@.len() && stack@[u].0 <= k < stack@[u].1 implies bid2[k] == u by {
                    if u < t {
                        assert(st.drop_last()[u] == stack@[u]);
                        assert(bid1[k] == u);
                    }
                }
                assert forall|i: int, j: int|
                    0 <= i < j < n && (bid2[i] == -1 || bid2[i] != bid2[j]) implies leq(
                    #[trigger] arr@[i],
                    #[trigger] arr@[j],
                ) by {
                    if (start <= i < end) != (start <= j < end) {
                    } else if start <= i < end {
                        if i < pivot_idx && j > pivot_idx {
                            lemma_leq_trans(after[i], after[pivot_idx as int], after[j]);
                        }
                    } else {
                        assert(bid[i] == -1 || bid[i] != bid[j]);
                    }
                }
                bid = bid2;
                assert(stack@.drop_last().drop_last() =~= st.drop_last());
            }
        }
    }
    proof {
        assert forall|i: int, j: int| 0 <= i < j < n implies leq(#[trigger] arr@[i], #[trigger] arr@[j]) by {
            assert(bid[i] == -1);
        }
        lemma_range_perm_whole(arr@, orig);
    }
}

} // verus!
