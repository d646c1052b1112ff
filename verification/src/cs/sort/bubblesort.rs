//! Bubble sort, which stops once a pass makes no swap and shortens each pass
//! to the position of the previous pass's last swap.

use crate::cs::sort::{
    keeps_order_of_equals, lemma_swap_adjacent_stable, rearranges, sorted_between,
    stable_rearrangement,
};
use crate::order::{is_lt, lemma_leq_total, lemma_leq_trans, lemma_less_not_leq, leq, sorted, total_order};
use crate::permutation::{lemma_range_perm_whole, lemma_swap_range_perm, permutes, range_perm};
use std::fmt::Debug;
use vstd::prelude::*;

verus! {

/// Sorts `slice` in ascending order by exchanging adjacent elements that are
/// out of order. Stable: elements that compare as equal keep their order.
pub fn sort<T>(slice: &mut [T])
    where
        T: PartialOrd + Clone + Debug,
    requires
        total_order::<T>(),
    ensures
        sorted(final(slice)@),
        permutes(final(slice)@, old(slice)@),
        stable_rearrangement(final(slice)@, old(slice)@),
{
    let ghost orig = slice@;
    let ghost mut perm: Seq<int> = Seq::new(slice@.len(), |k: int| k);
    proof {
        assert(slice@.subrange(0, slice@.len() as int) =~= orig.subrange(0, orig.len() as int));
        assert(rearranges(slice@, orig, perm));
    }
    if slice.len() <= 1 {
        proof {
            lemma_range_perm_whole(slice@, orig);
            assert(stable_rearrangement(slice@, orig)) by {
                assert(rearranges(slice@, orig, perm) && keeps_order_of_equals(slice@, perm));
            }
        }
        return;
    }
    let len = slice.len();
    let mut new_len: usize = len;
    loop
        invariant_except_break
            total_order::<T>(),
            len == slice@.len(),
            2 <= len,
            1 <= new_len <= len,
            range_perm(slice@, orig, 0, len as int),
            rearranges(slice@, orig, perm),
            keeps_order_of_equals(slice@, perm),
            sorted_between(slice@, new_len as int, len as int),
            forall|p: int, q: int|
                0 <= p < new_len <= q < len ==> leq(#[trigger] slice@[p], #[trigger] slice@[q]),
        ensures
            sorted(slice@),
            range_perm(slice@, orig, 0, len as int),
            rearranges(slice@, orig, perm),
            keeps_order_of_equals(slice@, perm),
        decreases new_len,
    {
        let mut swapped = false;
        let mut last_swap: usize = 0;
        let mut i: usize = 0;
        proof {
            lemma_leq_total(slice@[0], slice@[0]);
        }
        while i < new_len - 1
            invariant
                total_order::<T>(),
                len == slice@.len(),
                1 <= new_len <= len,
                i < new_len,
                last_swap <= i,
                swapped == (last_swap > 0),
                range_perm(slice@, orig, 0, len as int),
                rearranges(slice@, orig, perm),
                keeps_order_of_equals(slice@, perm),
                sorted_between(slice@, new_len as int, len as int),
                forall|p: int, q: int|
                    0 <= p < new_len <= q < len ==> leq(#[trigger] slice@[p], #[trigger] slice@[q]),
                forall|p: int| 0 <= p <= i ==> leq(#[trigger] slice@[p], slice@[i as int]),
                sorted_between(slice@, last_swap as int, i + 1),
                forall|p: int, q: int|
                    0 <= p < last_swap <= q <= i ==> leq(#[trigger] slice@[p], #[trigger] slice@[q]),
            decreases new_len - i,
        {
            if is_lt(&slice[i + 1], &slice[i]) {
                let ghost before = slice@;
                proof {
                    lemma_swap_adjacent_stable(before, orig, perm, i as int);
                    perm = perm.update(i as int, perm[i + 1]).update(i + 1, perm[i as int]);
                    lemma_swap_range_perm(before, orig, 0, len as int, i as int, i + 1);
                    lemma_less_not_leq(before[i + 1], before[i as int]);
                    lemma_leq_total(before[i + 1], before[i as int]);
                }
                slice.swap(i, i + 1);
                swapped = true;
                last_swap = i + 1;
                proof {
                    assert forall|p: int| 0 <= p <= i + 1 implies leq(
                        #[trigger] slice@[p],
                        slice@[i + 1],
                    ) by {
                        if p < i {
                            assert(leq(before[p], before[i as int]));
                        } else if p == i {
                        } else {
                            lemma_leq_total(before[i as int], before[i as int]);
                        }
                    }
                }
            } else {
                proof {
                    let s = slice@;
                    lemma_less_not_leq(s[i + 1], s[i as int]);
                    lemma_leq_total(s[i + 1], s[i + 1]);
                    assert forall|p: int| 0 <= p <= i + 1 implies leq(#[trigger] s[p], s[i + 1]) by {
                        if p <= i {
                            assert(leq(s[p], s[i as int]));
                            lemma_leq_trans(s[p], s[i as int], s[i + 1]);
                        }
                    }
                }
            }
            i = i + 1;
        }
        if !swapped {
            proof {
                let s = slice@;
                assert forall|p: int, q: int| 0 <= p < q < len implies leq(
                    #[trigger] s[p],
                    #[trigger] s[q],
                ) by {
                    if q < new_len {
                    } else if p >= new_len {
                    } else {
                    }
                }
            }
            break;
        }
        proof {
            let s = slice@;
            assert forall|p: int, q: int| last_swap <= p < q < len implies leq(
                #[trigger] s[p],
                #[trigger] s[q],
            ) by {
                if q < new_len {
                } else if p >= new_len {
                } else {
                }
            }
            assert forall|p: int, q: int| 0 <= p < last_swap <= q < len implies leq(
                #[trigger] s[p],
                #[trigger] s[q],
            ) by {
                if q < new_len {
                } else {
                }
            }
        }
        new_len = last_swap;
    }
    proof {
        lemma_range_perm_whole(slice@, orig);
        assert(rearranges(slice@, orig, perm) && keeps_order_of_equals(slice@, perm));
    }
}

} // verus!
