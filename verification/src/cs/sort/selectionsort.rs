//! Selection sort: at each step, the least remaining element moves to the
//! front of the unsorted part.

use crate::cs::sort::sorted_between;
use crate::order::{
    is_lt, lemma_leq_total, lemma_leq_trans, lemma_less_leq_trans, lemma_less_not_leq, leq, less, sorted,
    total_order,
};
use crate::permutation::{lemma_range_perm_whole, lemma_swap_range_perm, permutes, range_perm};
use std::fmt::Debug;
use vstd::prelude::*;

verus! {

/// `m` is the place of the first least element of `s` from place `i` on:
/// no element there is smaller, and every one before it is larger.
pub open spec fn is_first_min<T: PartialOrd>(s: Seq<T>, i: int, m: int) -> bool {
    &&& i <= m < s.len()
    &&& forall|q: int| i <= q < s.len() ==> leq(s[m], #[trigger] s[q])
    &&& forall|q: int| i <= q < m ==> less(s[m], #[trigger] s[q])
}

/// The swap of selection sort at place `i`: the element there trades places
/// with the first least element from `i` on, which is strictly smaller
/// wherever the two places differ.
pub open spec fn selection_step<T: PartialOrd>(s: Seq<T>, i: int) -> Seq<T> {
    let m = choose|m: int| #[trigger] is_first_min(s, i, m);
    if 0 <= i <= m < s.len() {
        s.update(i, s[m]).update(m, s[i])
    } else {
        s
    }
}

/// Whether the step at place `i` swaps two different places.
pub open spec fn step_swaps<T: PartialOrd>(s: Seq<T>, i: int) -> bool {
    (choose|m: int| #[trigger] is_first_min(s, i, m)) != i
}

/// The result of the steps of selection sort at places `i`, `i + 1`, ...,
/// up to the last but one.
pub open spec fn selection_from<T: PartialOrd>(s: Seq<T>, i: int) -> Seq<T>
    decreases s.len() - i,
{
    if 0 <= i < s.len() - 1 {
        selection_from(selection_step(s, i), i + 1)
    } else {
        s
    }
}

/// How many of the steps at places `i`, `i + 1`, ... swap two different
/// places.
pub open spec fn swaps_from<T: PartialOrd>(s: Seq<T>, i: int) -> nat
    decreases s.len() - i,
{
    if 0 <= i < s.len() - 1 {
        (if step_swaps(s, i) {
            1nat
        } else {
            0nat
        }) + swaps_from(selection_step(s, i), i + 1)
    } else {
        0
    }
}

/// Selection sort swaps at most once per place, never at the last place,
/// and only with a strictly smaller element: at most `len - 1` swaps.
pub proof fn selection_swaps_at_most_one_per_place<T: PartialOrd>(s: Seq<T>, i: int)
    requires
        total_order::<T>(),
        0 <= i <= s.len(),
    ensures
        swaps_from(s, i) <= if s.len() > i { s.len() - 1 - i } else { 0 },
        0 <= i < s.len() - 1 && step_swaps(s, i) ==> {
            let m = choose|m: int| #[trigger] is_first_min(s, i, m);
            less(s[m], s[i])
        },
    decreases s.len() - i,
{
    if 0 <= i < s.len() - 1 {
        lemma_first_min_exists(s, i);
        let m = choose|m: int| #[trigger] is_first_min(s, i, m);
        if m != i {
            assert(less(s[m], s[i]));
        }
        selection_swaps_at_most_one_per_place(selection_step(s, i), i + 1);
    }
}

/// A place from `i` on holds a first least element.
proof fn lemma_first_min_exists<T: PartialOrd>(s: Seq<T>, i: int)
    requires
        total_order::<T>(),
        0 <= i < s.len(),
    ensures
        exists|m: int| #[trigger] is_first_min(s, i, m),
    decreases s.len() - i,
{
    if i == s.len() - 1 {
        lemma_leq_total(s[i], s[i]);
        assert(is_first_min(s, i, i));
    } else {
        lemma_first_min_exists(s, i + 1);
        let m = choose|m: int| #[trigger] is_first_min(s, i + 1, m);
        lemma_less_not_leq(s[m], s[i]);
        lemma_leq_total(s[i], s[m]);
        if less(s[m], s[i]) {
            assert(is_first_min(s, i, m));
        } else {
            lemma_leq_total(s[i], s[i]);
            assert forall|q: int| i <= q < s.len() implies leq(s[i], #[trigger] s[q]) by {
                if q > i {
                    lemma_leq_trans(s[i], s[m], s[q]);
                }
            }
            assert(is_first_min(s, i, i));
        }
    }
}

/// There is one first least element from `i` on.
proof fn lemma_first_min_unique<T: PartialOrd>(s: Seq<T>, i: int, m1: int, m2: int)
    requires
        total_order::<T>(),
        is_first_min(s, i, m1),
        is_first_min(s, i, m2),
    ensures
        m1 == m2,
{
    if m1 < m2 {
        assert(less(s[m2], s[m1]));
        assert(leq(s[m1], s[m2]));
        lemma_less_not_leq(s[m2], s[m1]);
    } else if m2 < m1 {
        assert(less(s[m1], s[m2]));
        assert(leq(s[m2], s[m1]));
        lemma_less_not_leq(s[m1], s[m2]);
    }
}

/// Sorts `slice` in ascending order: at each place in turn, the first least
/// of the remaining elements is swapped into it, where it is not there
/// already. Not stable.
pub fn sort<T>(slice: &mut [T])
    where
        T: PartialOrd + Clone + Debug,
    requires
        total_order::<T>(),
    ensures
        sorted(final(slice)@),
        permutes(final(slice)@, old(slice)@),
        final(slice)@ == selection_from(old(slice)@, 0),
{
    let ghost orig = slice@;
    let len = slice.len();
    proof {
        assert(slice@.subrange(0, len as int) =~= orig.subrange(0, len as int));
    }
    let mut i: usize = 0;
    while i < len
        invariant
            total_order::<T>(),
            len == slice@.len(),
            i <= len,
            range_perm(slice@, orig, 0, len as int),
            sorted_between(slice@, 0, i as int),
            forall|p: int, q: int| 0 <= p < i <= q < len ==> leq(#[trigger] slice@[p], #[trigger] slice@[q]),
            orig == old(slice)@,
            selection_from(slice@, i as int) == selection_from(orig, 0),
        decreases len - i,
    {
        let mut min_idx: usize = i;
        let mut j: usize = i + 1;
        proof {
            lemma_leq_total(slice@[i as int], slice@[i as int]);
        }
        while j < len
            invariant
                total_order::<T>(),
                len == slice@.len(),
                i < len,
                i <= min_idx < len,
                i < j <= len,
                forall|q: int| i <= q < j ==> leq(slice@[min_idx as int], #[trigger] slice@[q]),
                forall|q: int| i <= q < min_idx ==> less(slice@[min_idx as int], #[trigger] slice@[q]),
            decreases len - j,
        {
            if is_lt(&slice[j], &slice[min_idx]) {
                proof {
                    let s = slice@;
                    lemma_leq_total(s[j as int], s[j as int]);
                    assert forall|q: int| i <= q < j + 1 implies leq(s[j as int], #[trigger] s[q]) by {
                        if q < j {
                            lemma_less_not_leq(s[j as int], s[min_idx as int]);
                            lemma_leq_total(s[j as int], s[min_idx as int]);
                            lemma_leq_trans(s[j as int], s[min_idx as int], s[q]);
                        }
                    }
                    assert forall|q: int| i <= q < j implies less(s[j as int], #[trigger] s[q]) by {
                        lemma_less_leq_trans(s[j as int], s[min_idx as int], s[q]);
                    }
                }
                min_idx = j;
            } else {
                proof {
                    lemma_less_not_leq(slice@[j as int], slice@[min_idx as int]);
                    lemma_leq_total(slice@[j as int], slice@[min_idx as int]);
                }
            }
            j = j + 1;
        }
        let ghost cur = slice@;
        proof {
            assert(is_first_min(cur, i as int, min_idx as int));
            let m = choose|m: int| #[trigger] is_first_min(cur, i as int, m);
            lemma_first_min_unique(cur, i as int, m, min_idx as int);
        }
        if min_idx != i {
            let ghost before = slice@;
            slice.swap(i, min_idx);
            proof {
                lemma_swap_range_perm(before, orig, 0, len as int, i as int, min_idx as int);
                assert forall|q: int| i <= q < len implies leq(slice@[i as int], #[trigger] slice@[q]) by {
                    if q == min_idx {
                        assert(leq(before[min_idx as int], before[i as int]));
                    } else if q != i {
                        assert(leq(before[min_idx as int], before[q]));
                    }
                }
            }
        }
        proof {
            assert(slice@ =~= selection_step(cur, i as int));
            if i + 1 < len {
                assert(selection_from(cur, i as int) == selection_from(slice@, i + 1));
            } else {
                assert(selection_from(cur, i as int) == cur);
                assert(selection_from(slice@, i + 1) == slice@);
                assert(cur =~= slice@);
            }
            let s = slice@;
            assert forall|p: int, q: int| 0 <= p < q < i + 1 implies leq(#[trigger] s[p], #[trigger] s[q]) by {
                if q == i {
                }
            }
            assert forall|p: int, q: int| 0 <= p < i + 1 <= q < len implies leq(#[trigger] s[p], #[trigger] s[q]) by {
                if p == i {
                    assert(leq(s[i as int], s[q]));
                }
            }
        }
        i = i + 1;
    }
    proof {
        lemma_range_perm_whole(slice@, orig);
    }
}

} // verus!
