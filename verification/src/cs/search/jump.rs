//! Jump search of a sorted slice, in blocks of the square root of its length.

use crate::cs::error::Error;
use crate::cs::search::{found_in, sorted_search_result};
use crate::order::{
    is_le, is_lt, is_sorted, lemma_leq_less_trans, lemma_leq_total, lemma_less_leq_trans, lemma_less_not_leq,
    lemma_total_order_obeys, lemma_trichotomy, leq, less, sorted, total_order,
};
use vstd::prelude::*;
use vstd::std_specs::cmp::PartialEqSpec;

verus! {

/// The integer square root: the largest `r` with `r * r <= n`.
pub fn isqrt(n: usize) -> (r: usize)
    ensures
        r * r <= n < (r + 1) * (r + 1),
{
    let big: u128 = n as u128;
    let mut lo: u128 = 0;
    let mut hi: u128 = 0x1_0000_0000;
    assert(0x1_0000_0000u128 * 0x1_0000_0000u128 == 0x1_0000_0000_0000_0000u128) by (nonlinear_arith);
    while hi - lo > 1
        invariant
            big == n,
            lo < hi <= 0x1_0000_0000,
            lo * lo <= big,
            big < hi * hi,
        decreases hi - lo,
    {
        let mid: u128 = lo + (hi - lo) / 2;
        assert(mid * mid <= 0x1_0000_0000_0000_0000) by (nonlinear_arith)
            requires
                mid <= 0x1_0000_0000,
        ;
        if mid * mid <= big {
            lo = mid;
        } else {
            hi = mid;
        }
    }
    assert(lo < 0x1_0000_0000);
    lo as usize
}

/// Searches a sorted slice for `target`: jumps ahead in blocks of
/// `floor(sqrt(len))` elements while the block's first element does not
/// exceed the target, then scans the block it stopped in. Returns an
/// invalid-input error when the slice is not sorted.
pub fn search<T: Ord>(data: &[T], target: &T) -> (result: Result<Option<usize>, Error>)
    requires
        total_order::<T>(),
        data@.len() <= usize::MAX / 2,
    ensures
        sorted_search_result(data@, *target, result, "Jump search requires sorted input"@),
{
    proof {
        lemma_total_order_obeys::<T>();
    }
    if data.len() == 0 {
        return Ok(None);
    }
    if !is_sorted(data) {
        return Err(Error::invalid_input("Jump search requires sorted input"));
    }
    let ghost d = data@;
    let ghost t = *target;
    let n = data.len();
    let jump_size = isqrt(n);
    if jump_size == 0 {
        assert(n < 1) by (nonlinear_arith)
            requires
                jump_size == 0,
                n < (jump_size + 1) * (jump_size + 1),
        ;
        return if data[0] == *target {
            Ok(Some(0))
        } else {
            Ok(None)
        };
    }
    assert(jump_size <= n) by (nonlinear_arith)
        requires
            jump_size * jump_size <= n,
            jump_size >= 1,
    ;
    let mut prev: usize = 0;
    let mut step: usize = jump_size;
    while step < n && is_le(&data[step], target)
        invariant
            total_order::<T>(),
            d == data@,
            t == *target,
            n == d.len(),
            n <= usize::MAX / 2,
            1 <= jump_size <= n,
            prev < n,
            step == prev + jump_size,
            prev == 0 || leq(d[prev as int], t),
        decreases n - prev,
    {
        prev = step;
        step = step + jump_size;
        if prev >= n {
            return Ok(None);
        }
    }
    proof {
        if step < n {
            lemma_less_not_leq(t, d[step as int]);
        }
    }
    if step > n {
        step = n;
    }
    let mut i: usize = prev;
    while i < step
        invariant
            total_order::<T>(),
            T::obeys_eq_spec(),
            d == data@,
            t == *target,
            n == d.len(),
            sorted(d),
            prev < step <= n,
            prev <= i <= step,
            step < n ==> less(t, d[step as int]),
            prev == 0 || leq(d[prev as int], t),
            forall|k: int| prev <= k < i ==> less(#[trigger] d[k], t),
        decreases step - i,
    {
        if data[i] == *target {
            return Ok(Some(i));
        } else if is_lt(target, &data[i]) {
            proof {
                assert forall|k: int| 0 <= k < n implies !(#[trigger] d[k]).eq_spec(&t) by {
                    if k >= i {
                        if k > i {
                            assert(leq(d[i as int], d[k]));
                        } else {
                            lemma_leq_total(d[k], d[k]);
                        }
                        lemma_less_leq_trans(t, d[i as int], d[k]);
                    } else if k >= prev {
                        assert(less(d[k], t));
                    } else {
                        if i == prev {
                            lemma_less_not_leq(t, d[prev as int]);
                        }
                        assert(less(d[prev as int], t));
                        assert(leq(d[k], d[prev as int]));
                        lemma_leq_less_trans(d[k], d[prev as int], t);
                    }
                    lemma_trichotomy(d[k], t);
                }
                assert(found_in(d, t, None));
            }
            return Ok(None);
        }
        proof {
            lemma_trichotomy(d[i as int], t);
        }
        i = i + 1;
    }
    proof {
        assert forall|k: int| 0 <= k < n implies !(#[trigger] d[k]).eq_spec(&t) by {
            if k >= step {
                if k > step {
                    assert(leq(d[step as int], d[k]));
                } else {
                    lemma_leq_total(d[k], d[k]);
                }
                lemma_less_leq_trans(t, d[step as int], d[k]);
            } else if k < prev {
                assert(less(d[prev as int], t));
                assert(leq(d[k], d[prev as int]));
                lemma_leq_less_trans(d[k], d[prev as int], t);
            } else {
                assert(less(d[k], t));
            }
            lemma_trichotomy(d[k], t);
        }
        assert(found_in(d, t, None));
    }
    Ok(None)
}

} // verus!
