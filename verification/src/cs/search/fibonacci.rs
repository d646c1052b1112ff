//! Fibonacci search of a sorted slice.

use crate::cs::error::Error;
use crate::cs::search::{found_in, sorted_search_result};
use crate::order::{
    is_lt, is_sorted, lemma_leq_less_trans, lemma_leq_total, lemma_less_leq_trans,
    lemma_total_order_obeys, lemma_trichotomy, leq, less, sorted, total_order,
};
use vstd::prelude::*;
use vstd::std_specs::cmp::PartialEqSpec;

verus! {

/// The Fibonacci numbers: 0, 1, 1, 2, 3, 5, ...
pub open spec fn fibonacci(k: nat) -> nat
    decreases k,
{
    if k == 0 {
        0
    } else if k == 1 {
        1
    } else {
        fibonacci((k - 2) as nat) + fibonacci((k - 1) as nat)
    }
}

/// The Fibonacci numbers never decrease, are positive from the first on,
/// and exceed one from the third on.
pub proof fn lemma_fibonacci_growth(k: nat)
    ensures
        fibonacci(k) <= fibonacci(k + 1),
        k >= 1 ==> fibonacci(k) >= 1,
        k >= 3 ==> fibonacci(k) >= 2,
    decreases k,
{
    if k >= 2 {
        lemma_fibonacci_growth((k - 1) as nat);
        lemma_fibonacci_growth((k - 2) as nat);
    }
}

/// Searches a sorted slice for `target`, narrowing the remaining range by
/// Fibonacci numbers. Returns an invalid-input error when the slice is not
/// sorted.
pub fn search<T: Ord>(data: &[T], target: &T) -> (result: Result<Option<usize>, Error>)
    requires
        total_order::<T>(),
        data@.len() <= usize::MAX / 2,
    ensures
        sorted_search_result(data@, *target, result, "Fibonacci search requires sorted input"@),
{
    proof {
        lemma_total_order_obeys::<T>();
    }
    if data.len() == 0 {
        return Ok(None);
    }
    if !is_sorted(data) {
        return Err(Error::invalid_input("Fibonacci search requires sorted input"));
    }
    let ghost d = data@;
    let ghost t = *target;
    let n = data.len();

    // The smallest Fibonacci number that is at least the length.
    let mut fib2: usize = 0;
    let mut fib1: usize = 1;
    let mut fib: usize = 1;
    let ghost mut k: nat = 2;
    while fib < n
        invariant
            n <= usize::MAX / 2,
            k >= 2,
            fib2 == fibonacci((k - 2) as nat),
            fib1 == fibonacci((k - 1) as nat),
            fib == fibonacci(k),
            fib <= 1 || fib < 2 * n,
        decreases 2 * n - fib,
    {
        proof {
            lemma_fibonacci_growth((k - 1) as nat);
            lemma_fibonacci_growth(k);
        }
        fib2 = fib1;
        fib1 = fib;
        fib = fib1 + fib2;
        proof {
            k = k + 1;
        }
    }

    // Every occurrence lies in `lo .. lo + fib`, one shorter when `fib1` is zero.
    let mut lo: usize = 0;
    while fib > 1
        invariant
            total_order::<T>(),
            T::obeys_eq_spec(),
            d == data@,
            t == *target,
            n == d.len(),
            n > 0,
            sorted(d),
            k >= 1,
            fib == fibonacci(k),
            fib1 == fibonacci((k - 1) as nat),
            k >= 2 ==> fib2 == fibonacci((k - 2) as nat),
            k == 1 ==> fib2 == 1,
            lo <= n,
            forall|j: int|
                0 <= j < n && (#[trigger] d[j]).eq_spec(&t) ==> lo <= j && j < lo + fib - (if fib1
                    == 0 {
                    1int
                } else {
                    0int
                }),
        decreases fib,
    {
        proof {
            lemma_fibonacci_growth((k - 3) as nat);
            lemma_fibonacci_growth((k - 2) as nat);
            lemma_fibonacci_growth((k - 1) as nat);
            lemma_fibonacci_growth(k);
            if k < 3 {
                assert(fibonacci(2) == 1);
            }
            assert(k >= 3);
            assert(fibonacci((k - 1) as nat) == fibonacci((k - 3) as nat) + fibonacci(
                (k - 2) as nat,
            ));
        }
        let i: usize = if fib2 <= n - lo {
            lo + fib2 - 1
        } else {
            n - 1
        };
        if data[i] == *target {
            return Ok(Some(i));
        }
        if is_lt(target, &data[i]) {
            proof {
                assert forall|j: int|
                    0 <= j < n && (#[trigger] d[j]).eq_spec(&t) implies j < i by {
                    if j >= i {
                        if j > i {
                            assert(leq(d[i as int], d[j]));
                        } else {
                            lemma_leq_total(d[j], d[j]);
                        }
                        lemma_less_leq_trans(t, d[i as int], d[j]);
                        lemma_trichotomy(d[j], t);
                    }
                }
                if k >= 4 {
                    assert(fibonacci((k - 2) as nat) == fibonacci((k - 4) as nat) + fibonacci(
                        (k - 3) as nat,
                    ));
                }
                k = (k - 2) as nat;
            }
            fib = fib2;
            fib1 = fib1 - fib2;
            fib2 = fib - fib1;
        } else {
            proof {
                lemma_trichotomy(d[i as int], t);
                assert forall|j: int|
                    0 <= j < n && (#[trigger] d[j]).eq_spec(&t) implies j > i by {
                    if j <= i {
                        if j < i {
                            assert(leq(d[j], d[i as int]));
                        } else {
                            lemma_leq_total(d[j], d[j]);
                        }
                        lemma_leq_less_trans(d[j], d[i as int], t);
                        lemma_trichotomy(d[j], t);
                    }
                }
                k = (k - 1) as nat;
            }
            fib = fib1;
            fib1 = fib2;
            fib2 = fib - fib1;
            lo = i + 1;
        }
    }
    proof {
        lemma_fibonacci_growth(k);
        lemma_fibonacci_growth((k - 1) as nat);
        if k >= 3 {
            assert(fib >= 2);
        }
    }
    if fib1 == 1 && lo < n {
        if data[lo] == *target {
            return Ok(Some(lo));
        }
    }
    proof {
        assert(found_in(d, t, None));
    }
    Ok(None)
}

} // verus!
