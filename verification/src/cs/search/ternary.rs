//! Ternary search of a sorted slice.

use crate::cs::error::Error;
use crate::cs::search::{found_in, sorted_search_result};
use crate::order::{
    is_le, is_lt, is_sorted, lemma_leq_less_trans, lemma_leq_total, lemma_less_leq_trans, lemma_total_order_obeys,
    lemma_trichotomy, less, sorted, total_order,
};
use vstd::prelude::*;
use vstd::std_specs::cmp::PartialEqSpec;

verus! {

/// Searches a sorted slice for `target` by splitting the remaining range
/// into three parts at each step. Returns an invalid-input error when the
/// slice is not sorted.
pub fn search<T: Ord>(data: &[T], target: &T) -> (result: Result<Option<usize>, Error>)
    requires
        total_order::<T>(),
    ensures
        sorted_search_result(data@, *target, result, "Ternary search requires sorted input"@),
{
    proof {
        lemma_total_order_obeys::<T>();
    }
    if data.len() == 0 {
        return Ok(None);
    }
    if !is_sorted(data) {
        return Err(Error::invalid_input("Ternary search requires sorted input"));
    }
    let ghost d = data@;
    let ghost t = *target;
    let n = data.len();
    let mut left: usize = 0;
    let mut right: usize = n - 1;
    while left <= right
        invariant
            total_order::<T>(),
            T::obeys_eq_spec(),
            d == data@,
            t == *target,
            n == d.len(),
            n > 0,
            sorted(d),
            left <= right + 1,
            right < n,
            forall|k: int|
                0 <= k < n && (k < left || k > right) ==> !(#[trigger] d[k]).eq_spec(&t),
        decreases right + 1 - left,
    {
        if right - left < 2 {
            if data[left] == *target {
                return Ok(Some(left));
            }
            if right > left && data[right] == *target {
                return Ok(Some(right));
            }
            return Ok(None);
        }
        let mid1 = left + (right - left) / 3;
        let mid2 = right - (right - left) / 3;
        if data[mid1] == *target {
            return Ok(Some(mid1));
        }
        if data[mid2] == *target {
            return Ok(Some(mid2));
        }
        if is_lt(target, &data[mid1]) {
            proof {
                if left == 0 && mid1 == 0 {
                    lemma_leq_total(d[0], d[0]);
                }
                assert forall|k: int| mid1 <= k < n implies !(#[trigger] d[k]).eq_spec(&t) by {
                    if k > mid1 {
                        assert(crate::order::leq(d[mid1 as int], d[k]));
                    } else {
                        lemma_leq_total(d[k], d[k]);
                    }
                    lemma_less_leq_trans(t, d[mid1 as int], d[k]);
                    lemma_trichotomy(d[k], t);
                }
            }
            if mid1 == 0 {
                return Ok(None);
            }
            right = mid1 - 1;
        } else if is_lt(&data[mid2], target) {
            proof {
                assert forall|k: int| 0 <= k <= mid2 implies !(#[trigger] d[k]).eq_spec(&t) by {
                    if k < mid2 {
                        assert(crate::order::leq(d[k], d[mid2 as int]));
                    } else {
                        lemma_leq_total(d[k], d[k]);
                    }
                    lemma_leq_less_trans(d[k], d[mid2 as int], t);
                    lemma_trichotomy(d[k], t);
                }
            }
            left = mid2 + 1;
        } else {
            proof {
                lemma_trichotomy(d[mid1 as int], t);
                lemma_trichotomy(d[mid2 as int], t);
                assert forall|k: int| 0 <= k <= mid1 implies !(#[trigger] d[k]).eq_spec(&t) by {
                    if k < mid1 {
                        assert(crate::order::leq(d[k], d[mid1 as int]));
                        lemma_leq_less_trans(d[k], d[mid1 as int], t);
                        lemma_trichotomy(d[k], t);
                    }
                }
                assert forall|k: int| mid2 <= k < n implies !(#[trigger] d[k]).eq_spec(&t) by {
                    if k > mid2 {
                        assert(crate::order::leq(d[mid2 as int], d[k]));
                        lemma_less_leq_trans(t, d[mid2 as int], d[k]);
                        lemma_trichotomy(d[k], t);
                    }
                }
            }
            left = mid1 + 1;
            right = mid2 - 1;
        }
    }
    proof {
        assert(found_in(d, t, None));
    }
    Ok(None)
}

} // verus!
