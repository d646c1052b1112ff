//! A plain linear search.

use vstd::prelude::*;
use vstd::std_specs::cmp::PartialEqSpec;

verus! {

/// `r` is the index of the first element of `s` that equals `target`, or
/// `None` where no element does.
pub open spec fn is_first_match<T: PartialEq>(s: Seq<T>, target: T, r: Option<usize>) -> bool {
    match r {
        Some(i) => {
            &&& i < s.len()
            &&& s[i as int].eq_spec(&target)
            &&& forall|k: int| 0 <= k < i ==> !(#[trigger] s[k]).eq_spec(&target)
        },
        None => forall|k: int| 0 <= k < s.len() ==> !(#[trigger] s[k]).eq_spec(&target),
    }
}

/// Returns the index of the first element of `arr` equal to `target`.
pub fn linear_search<T: PartialEq>(arr: &[T], target: &T) -> (result: Option<usize>)
    requires
        T::obeys_eq_spec(),
    ensures
        is_first_match(arr@, *target, result),
{
    let mut index: usize = 0;
    while index < arr.len()
        invariant
            T::obeys_eq_spec(),
            index <= arr@.len(),
            forall|k: int| 0 <= k < index ==> !(#[trigger] arr@[k]).eq_spec(target),
        decreases arr@.len() - index,
    {
        if arr[index] == *target {
            return Some(index);
        }
        index = index + 1;
    }
    None
}

} // verus!
