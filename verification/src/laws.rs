//! Properties that relate the results of several functions of the library.

use crate::cs::error::Error;
use crate::cs::search::bfs::with_edge;
use crate::cs::search::graph::{is_path_between, is_shortest_path, reachable};
use crate::cs::search::sublist::{is_first_occurrence, sublist_result};
use crate::cs::string::rolling_hash::{small_modulus, RollingHash};
use crate::cs::string::suffix_array::{first_search_result, search_result, SearchResult};
use crate::order::{equiv, leq, lemma_eq_equiv, sorted, total_order};
use crate::pattern::{is_all_occurrences, matches_at};
use crate::permutation::permutes;
use vstd::prelude::*;
use vstd::std_specs::cmp::PartialEqSpec;

verus! {

broadcast use vstd::seq_lib::group_to_multiset_ensures;

/// Two strictly increasing sequences that hold the same values are equal.
pub proof fn increasing_lists_with_same_members_are_equal(v: Seq<usize>, w: Seq<usize>)
    requires
        forall|a: int, b: int| 0 <= a < b < v.len() ==> v[a] < v[b],
        forall|a: int, b: int| 0 <= a < b < w.len() ==> w[a] < w[b],
        forall|x: usize| v.contains(x) <==> w.contains(x),
    ensures
        v == w,
    decreases v.len() + w.len(),
{
    if v.len() == 0 {
        if w.len() > 0 {
            assert(w.contains(w[0]));
        }
    } else if w.len() == 0 {
        assert(v.contains(v[0]));
    } else {
        let x = v.last();
        let y = w.last();
        assert(v.contains(x));
        assert(w.contains(y));
        let i = choose|i: int| 0 <= i < w.len() && w[i] == x;
        let j = choose|j: int| 0 <= j < v.len() && v[j] == y;
        assert(x <= y);
        assert(y <= x);
        let v1 = v.drop_last();
        let w1 = w.drop_last();
        assert forall|z: usize| v1.contains(z) <==> w1.contains(z) by {
            if v1.contains(z) {
                let k = choose|k: int| 0 <= k < v1.len() && v1[k] == z;
                assert(v[k] == z && z < x);
                assert(w.contains(z));
                let l = choose|l: int| 0 <= l < w.len() && w[l] == z;
                assert(l != w.len() - 1);
                assert(w1[l] == z);
            }
            if w1.contains(z) {
                let k = choose|k: int| 0 <= k < w1.len() && w1[k] == z;
                assert(w[k] == z && z < y);
                assert(v.contains(z));
                let l = choose|l: int| 0 <= l < v.len() && v[l] == z;
                assert(l != v.len() - 1);
                assert(v1[l] == z);
            }
        }
        increasing_lists_with_same_members_are_equal(v1, w1);
        assert(v =~= v1.push(x));
        assert(w =~= w1.push(y));
    }
}

/// The first occurrence that a search reports is the first of all the
/// occurrences that a search for all of them lists, and there is none
/// exactly where that list is empty.
pub proof fn first_occurrence_heads_all_occurrences<T: PartialEq>(
    text: Seq<T>,
    pattern: Seq<T>,
    all: Seq<usize>,
    first: Option<usize>,
)
    requires
        is_all_occurrences(text, pattern, all),
        is_first_occurrence(text, pattern, first),
    ensures
        first == if all.len() == 0 {
            None
        } else {
            Some(all[0])
        },
{
    match first {
        Some(i) => {
            assert(all.contains(i));
            let k = choose|k: int| 0 <= k < all.len() && all[k] == i;
            assert(matches_at(text, pattern, all[0] as int));
            if k > 0 {
                assert(all[0] < all[k]);
            }
        },
        None => {
            if all.len() > 0 {
                assert(matches_at(text, pattern, all[0] as int));
            }
        },
    }
}

/// The Z-algorithm search and the Knuth-Morris-Pratt search list the same
/// positions.
pub proof fn z_search_agrees_with_kmp(text: Seq<u8>, pattern: Seq<u8>, z_all: Seq<usize>, kmp_all: Seq<usize>)
    requires
        is_all_occurrences(text, pattern, z_all),
        is_all_occurrences(text, pattern, kmp_all),
    ensures
        z_all == kmp_all,
{
    assert forall|x: usize| z_all.contains(x) <==> kmp_all.contains(x) by {
        if z_all.contains(x) {
            let k = choose|k: int| 0 <= k < z_all.len() && z_all[k] == x;
            assert(matches_at(text, pattern, z_all[k] as int));
        }
        if kmp_all.contains(x) {
            let k = choose|k: int| 0 <= k < kmp_all.len() && kmp_all[k] == x;
            assert(matches_at(text, pattern, kmp_all[k] as int));
        }
    }
    increasing_lists_with_same_members_are_equal(z_all, kmp_all);
}

/// The first position that the suffix-array search reports is the first of
/// all the positions that it lists, and an empty pattern is refused by both.
pub proof fn suffix_array_first_heads_all(
    text: Seq<char>,
    pattern: Seq<char>,
    all: SearchResult,
    first: Result<Option<usize>, String>,
)
    requires
        search_result(text, pattern, all),
        first_search_result(text, pattern, first),
    ensures
        all is Err <==> first is Err,
        all matches Ok(v) ==> first == Ok::<Option<usize>, String>(
            if v@.len() == 0 {
                None
            } else {
                Some(v@[0])
            },
        ),
{
    if let Ok(v) = all {
        if let Ok(o) = first {
            match o {
                Some(i) => {
                    assert(v@.contains(i));
                    let k = choose|k: int| 0 <= k < v@.len() && v@[k] == i;
                    assert(crate::cs::string::suffix_array::occurs_at(text, pattern, v@[0] as int));
                    if k > 0 {
                        assert(v@[0] < v@[k]);
                    }
                },
                None => {
                    if v@.len() > 0 {
                        assert(crate::cs::string::suffix_array::occurs_at(text, pattern, v@[0] as int));
                    }
                },
            }
        }
    }
}

/// The naive sub-list search and the Knuth-Morris-Pratt sub-list search
/// return the same result for every pattern that is not empty, and both
/// refuse an empty one.
pub proof fn sublist_searches_agree<T: PartialEq>(
    data: Seq<T>,
    pattern: Seq<T>,
    naive: Result<Option<usize>, Error>,
    kmp: Result<Option<usize>, Error>,
)
    requires
        sublist_result(data, pattern, naive),
        sublist_result(data, pattern, kmp),
    ensures
        naive is Err <==> kmp is Err,
        naive is Ok ==> naive == kmp,
{
    if let Ok(a) = naive {
        if let Ok(b) = kmp {
            match (a, b) {
                (Some(i), Some(j)) => {
                    if i < j {
                        assert(matches_at(data, pattern, i as int));
                    } else if j < i {
                        assert(matches_at(data, pattern, j as int));
                    }
                },
                (Some(i), None) => {
                    assert(matches_at(data, pattern, i as int));
                },
                (None, Some(j)) => {
                    assert(matches_at(data, pattern, j as int));
                },
                (None, None) => {},
            }
        }
    }
}

/// Under a total order whose equivalence is equality, two sorted
/// arrangements of the same elements are equal: every sort of the library
/// gives the same result on the same input.
pub proof fn sorted_arrangements_are_equal<T: PartialOrd>(a: Seq<T>, b: Seq<T>)
    requires
        total_order::<T>(),
        forall|x: T, y: T| #[trigger] x.eq_spec(&y) ==> x == y,
        sorted(a),
        sorted(b),
        permutes(a, b),
    ensures
        a == b,
    decreases a.len(),
{
    broadcast use vstd::multiset::group_multiset_axioms;

    assert(a.len() == a.to_multiset().len());
    assert(b.len() == b.to_multiset().len());
    if a.len() > 0 {
        let x = a.last();
        let y = b.last();
        let a1 = a.drop_last();
        let b1 = b.drop_last();
        assert(a =~= a1.push(x));
        assert(b =~= b1.push(y));
        assert(a.to_multiset().count(x) > 0);
        assert(b.contains(x));
        assert(b.to_multiset().count(y) > 0);
        assert(a.contains(y));
        let i = choose|i: int| 0 <= i < b.len() && b[i] == x;
        let j = choose|j: int| 0 <= j < a.len() && a[j] == y;
        if i < b.len() - 1 {
            assert(leq(b[i], b[b.len() - 1]));
        } else {
            crate::order::lemma_leq_total(x, x);
        }
        if j < a.len() - 1 {
            assert(leq(a[j], a[a.len() - 1]));
        } else {
            crate::order::lemma_leq_total(y, y);
        }
        assert(equiv(x, y));
        lemma_eq_equiv(x, y);
        assert(x == y);
        assert(a1.to_multiset() =~= a.to_multiset().remove(x));
        assert(b1.to_multiset() =~= b.to_multiset().remove(y));
        assert(sorted(a1)) by {
            assert forall|p: int, q: int| 0 <= p < q < a1.len() implies leq(#[trigger] a1[p], #[trigger] a1[q]) by {
                assert(leq(a[p], a[q]));
            }
        }
        assert(sorted(b1)) by {
            assert forall|p: int, q: int| 0 <= p < q < b1.len() implies leq(#[trigger] b1[p], #[trigger] b1[q]) by {
                assert(leq(b[p], b[q]));
            }
        }
        sorted_arrangements_are_equal(a1, b1);
    } else {
        assert(b.len() == 0);
        assert(a =~= b);
    }
}

/// Breadth-first search, depth-first search and breadth-first traversal
/// agree on whether a vertex can be reached from a start vertex of the
/// graph, and the breadth-first path is never longer than the depth-first
/// one.
pub proof fn graph_searches_agree<T>(
    adj: Map<T, Seq<T>>,
    start: T,
    target: T,
    breadth_first: Option<Seq<T>>,
    depth_first: Option<Seq<T>>,
    order: Seq<T>,
)
    requires
        match breadth_first {
            Some(p) => is_shortest_path(adj, p, start, target),
            None => !reachable(adj, start, target),
        },
        match depth_first {
            Some(p) => is_path_between(adj, p, start, target),
            None => !reachable(adj, start, target),
        },
        forall|v: T| order.contains(v) <==> reachable(adj, start, v),
    ensures
        breadth_first is Some <==> depth_first is Some,
        breadth_first is Some <==> order.contains(target),
        breadth_first is Some && depth_first is Some ==> breadth_first->0.len()
            <= depth_first->0.len(),
{
    if let Some(p) = breadth_first {
        assert(reachable(adj, start, target));
    }
    if let Some(q) = depth_first {
        assert(reachable(adj, start, target));
    }
}

/// After an edge is added from `source` to `destination`, the destination
/// can be reached from the source.
pub proof fn added_edge_is_reachable<T>(adj: Map<T, Seq<T>>, source: T, destination: T)
    ensures
        reachable(with_edge(adj, source, destination), source, destination),
{
    let g = with_edge(adj, source, destination);
    let p = seq![source, destination];
    let list = if adj.contains_key(source) {
        adj[source]
    } else {
        Seq::empty()
    };
    assert(g.contains_key(source));
    assert(g[source] == list.push(destination));
    assert(g[source][list.len() as int] == destination);
    assert(crate::cs::search::graph::is_edge(g, p[0], p[1]));
    assert(is_path_between(g, p, source, destination));
}

/// With a modulus small enough for exact arithmetic, two rolling hashes
/// whose windows hold the same bytes have the same hash, however the bytes
/// were pushed and popped.
pub proof fn same_window_same_hash<const B: u64, const M: u64>(
    first: &RollingHash<B, M>,
    second: &RollingHash<B, M>,
)
    requires
        first.wf(),
        second.wf(),
        first@ == second@,
        small_modulus(M),
    ensures
        first.spec_hash() == second.spec_hash(),
{
    crate::cs::string::rolling_hash::lemma_hash_of_window(first);
    crate::cs::string::rolling_hash::lemma_hash_of_window(second);
}

} // verus!
