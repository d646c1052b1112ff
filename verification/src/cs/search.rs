//! Searching in sequences and graphs.

pub mod bfs;
pub mod dfs;
pub mod fibonacci;
pub mod graph;
pub mod jump;
pub mod linear;
pub mod sublist;
pub mod ternary;

use crate::cs::error::Error;
use crate::order::sorted;
use vstd::prelude::*;
use vstd::std_specs::cmp::PartialEqSpec;

verus! {

/// `r` is `Some` of an index whose element equals `target`, or `None` where
/// no element does.
pub open spec fn found_in<T: PartialEq>(s: Seq<T>, target: T, r: Option<usize>) -> bool {
    match r {
        Some(i) => i < s.len() && s[i as int].eq_spec(&target),
        None => forall|k: int| 0 <= k < s.len() ==> !(#[trigger] s[k]).eq_spec(&target),
    }
}

/// What the searches of a sorted slice return: `Ok(None)` for an empty
/// slice, an invalid-input error with `message` for an unsorted one, and
/// otherwise where `target` was found, if anywhere.
pub open spec fn sorted_search_result<T: PartialOrd>(
    s: Seq<T>,
    target: T,
    r: Result<Option<usize>, Error>,
    message: Seq<char>,
) -> bool {
    if s.len() == 0 {
        r matches Ok(None)
    } else if !sorted(s) {
        r matches Err(Error::InvalidInput(m)) && m@ == message
    } else {
        r matches Ok(o) && found_in(s, target, o)
    }
}

} // verus!
