//! Linear search, which hands large inputs to rayon's parallel iterators.

use crate::algorithms::is_first_match;
use crate::cs::error::Error;
use rayon::iter::IndexedParallelIterator;
use rayon::iter::IntoParallelRefIterator;
use vstd::prelude::*;
use vstd::std_specs::cmp::PartialEqSpec;

verus! {

/// Inputs at least this long are searched in parallel.
pub const PARALLEL_THRESHOLD: usize = 1024;

/// Compares one element with the target; the predicate that the parallel
/// search applies to each element.
pub fn elem_eq<T: PartialEq>(item: &T, target: &T) -> (r: bool)
    requires
        T::obeys_eq_spec(),
    ensures
        r == item.eq_spec(target),
{
    *item == *target
}

/// rayon's `IndexedParallelIterator::position_first` over `data.par_iter()`
/// with the predicate `elem_eq(item, target)`. Its documentation promises the
/// index of the sequentially first item that matches the predicate, or `None`
/// where none does, whatever the order in which the threads run.
#[verifier::external_body]
fn par_position_first<T: PartialEq + Sync>(data: &[T], target: &T) -> (r: Option<usize>)
    requires
        T::obeys_eq_spec(),
    ensures
        is_first_match(data@, *target, r),
{
    data.par_iter().position_first(|item| elem_eq(item, target))
}

/// Returns the index of the first element of `data` equal to `target`,
/// searching in parallel once `data` holds at least `PARALLEL_THRESHOLD`
/// elements. The search itself never fails.
pub fn search<T: PartialEq + Sync>(data: &[T], target: &T) -> (result: Result<Option<usize>, Error>)
    requires
        T::obeys_eq_spec(),
    ensures
        result matches Ok(r) && is_first_match(data@, *target, r),
{
    if data.len() == 0 {
        return Ok(None);
    }
    if data.len() >= PARALLEL_THRESHOLD {
        return Ok(par_position_first(data, target));
    }
    let mut index: usize = 0;
    while index < data.len()
        invariant
            T::obeys_eq_spec(),
            index <= data@.len(),
            forall|k: int| 0 <= k < index ==> !(#[trigger] data@[k]).eq_spec(target),
        decreases data@.len() - index,
    {
        if elem_eq(&data[index], target) {
            return Ok(Some(index));
        }
        index = index + 1;
    }
    Ok(None)
}

} // verus!
