//! Shell sort with Knuth's gap sequence 1, 4, 13, 40, ...

use crate::cs::sort::sorted_between;
use crate::order::{is_lt, lemma_leq_trans, lemma_less_not_leq, leq, less, sorted, total_order};
use crate::permutation::{lemma_range_perm_whole, lemma_swap_range_perm, permutes, range_perm};
use std::fmt::Debug;
use vstd::prelude::*;

verus! {

/// Knuth's gap sequence: 1, 4, 13, 40, ..., each three times the previous
/// plus one.
pub open spec fn knuth_gap(k: nat) -> nat
    decreases k,
{
    if k == 0 {
        1
    } else {
        3 * knuth_gap((k - 1) as nat) + 1
    }
}

/// The first gap of Knuth's sequence that is not below `len / 3`.
pub fn calculate_initial_gap(len: usize) -> (gap: usize)
    ensures
        exists|k: nat|
            gap == #[trigger] knuth_gap(k) && gap >= len / 3 && (k == 0 || knuth_gap((k - 1) as nat) < len
                / 3),
{
    let mut gap: usize = 1;
    let ghost mut k: nat = 0;
    while gap < len / 3
        invariant
            gap == knuth_gap(k),
            k == 0 || knuth_gap((k - 1) as nat) < len / 3,
        decreases len - gap,
    {
        gap = 3 * gap + 1;
        proof {
            k = k + 1;
        }
    }
    gap
}

/// Sorts `slice` in ascending order by gapped insertion sorts with shrinking
/// gaps, the last of which is one. Not stable.
pub fn sort<T>(slice: &mut [T])
    where
        T: PartialOrd + Clone + Debug,
    requires
        total_order::<T>(),
    ensures
        sorted(final(slice)@),
        permutes(final(slice)@, old(slice)@),
{
    let ghost orig = slice@;
    let len = slice.len();
    proof {
        assert(slice@.subrange(0, len as int) =~= orig.subrange(0, len as int));
    }
    if len <= 1 {
        proof {
            lemma_range_perm_whole(slice@, orig);
        }
        return;
    }
    let mut gap = calculate_initial_gap(len);
    let ghost mut last_gap: usize = 0;
    while gap > 0
        invariant
            total_order::<T>(),
            len == slice@.len(),
            len >= 2,
            range_perm(slice@, orig, 0, len as int),
            gap == 0 ==> last_gap == 1 && sorted(slice@),
        decreases gap,
    {
        let mut i: usize = gap;
        while i < len
            invariant
                total_order::<T>(),
                len == slice@.len(),
                1 <= gap,
                gap <= i,
                range_perm(slice@, orig, 0, len as int),
                gap == 1 ==> i <= len && sorted_between(slice@, 0, i as int),
            decreases len - i,
        {
            let mut j: usize = i;
            while j >= gap && is_lt(&slice[j], &slice[j - gap])
                invariant
                    total_order::<T>(),
                    len == slice@.len(),
                    1 <= gap,
                    j <= i < len,
                    range_perm(slice@, orig, 0, len as int),
                    gap == 1 ==> sorted_between(slice@, 0, j as int),
                    gap == 1 ==> sorted_between(slice@, j + 1, i + 1),
                    gap == 1 ==> forall|p: int, q: int|
                        0 <= p < j < q <= i ==> leq(#[trigger] slice@[p], #[trigger] slice@[q]),
                    gap == 1 ==> forall|q: int| j < q <= i ==> less(slice@[j as int], #[trigger] slice@[q]),
                decreases j,
            {
                let ghost before = slice@;
                slice.swap(j - gap, j);
                proof {
                    lemma_swap_range_perm(before, orig, 0, len as int, j - gap, j as int);
                    if gap == 1 {
                        let x = before[j as int];
                        assert forall|p: int, q: int| 0 <= p < j - 1 < q <= i implies leq(
                            #[trigger] slice@[p],
                            #[trigger] slice@[q],
                        ) by {
                            if q == j {
                                assert(leq(before[p], before[j - 1]));
                            } else if q > j {
                                assert(leq(before[p], before[q]));
                            }
                        }
                        assert forall|p: int, q: int| j <= p < q < i + 1 implies leq(
                            #[trigger] slice@[p],
                            #[trigger] slice@[q],
                        ) by {
                            if p == j {
                                assert(leq(before[j - 1], before[q]));
                            } else {
                                assert(leq(before[p], before[q]));
                            }
                        }
                        assert forall|q: int| j - 1 < q <= i implies less(
                            slice@[j - 1],
                            #[trigger] slice@[q],
                        ) by {
                            if q > j {
                                assert(less(x, before[q]));
                            }
                        }
                    }
                }
                j = j - gap;
            }
            proof {
                if gap == 1 {
                    let s = slice@;
                    if j > 0 {
                        lemma_less_not_leq(s[j as int], s[j - 1]);
                    }
                    assert forall|p: int, q: int| 0 <= p < q < i + 1 implies leq(
                        #[trigger] s[p],
                        #[trigger] s[q],
                    ) by {
                        if q < j {
                        } else if p > j {
                        } else if p < j && q > j {
                        } else if p == j {
                            assert(less(s[j as int], s[q]));
                        } else {
                            if p < j - 1 {
                                assert(leq(s[p], s[j - 1]));
                                lemma_leq_trans(s[p], s[j - 1], s[j as int]);
                            }
                        }
                    }
                }
            }
            i = i + 1;
        }
        proof {
            if gap == 1 {
                assert(sorted(slice@));
            }
            last_gap = gap;
        }
        gap = if gap == 2 {
            1
        } else {
            gap / 3
        };
    }
    proof {
        lemma_range_perm_whole(slice@, orig);
    }
}

} // verus!
