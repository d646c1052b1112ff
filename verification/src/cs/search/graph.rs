//! The mathematical model of a directed graph given by adjacency lists, with
//! paths, reachability, and the facts that the graph searches rest on.

use std::hash::Hash;
use vstd::laws_eq::obeys_concrete_eq;
use vstd::prelude::*;
use vstd::std_specs::hash::obeys_key_model;

verus! {

/// A vertex type that behaves as the searches need: it hashes
/// deterministically, `==` is equality, and a clone equals its source.
pub open spec fn vertex_model<T: Eq + Hash + Clone>() -> bool {
    &&& obeys_key_model::<T>()
    &&& obeys_concrete_eq::<T>()
    &&& forall|a: T, b: T| #[trigger] call_ensures(T::clone, (&a,), b) ==> a == b
}

/// Copies a vertex.
pub fn copy_vertex<T: Eq + Hash + Clone>(v: &T) -> (r: T)
    requires
        vertex_model::<T>(),
    ensures
        r == *v,
{
    v.clone()
}

/// Compares two vertices.
pub fn same_vertex<T: Eq + Hash + Clone>(a: &T, b: &T) -> (r: bool)
    requires
        vertex_model::<T>(),
    ensures
        r == (*a == *b),
{
    proof {
        reveal(obeys_concrete_eq);
    }
    *a == *b
}

/// The adjacency lists of a map from vertices to vectors of successors.
pub open spec fn adjacency<T>(m: Map<T, Vec<T>>) -> Map<T, Seq<T>> {
    m.map_values(|v: Vec<T>| v@)
}

/// Every successor listed is itself a vertex of the graph.
pub open spec fn closed_adjacency<T>(adj: Map<T, Seq<T>>) -> bool {
    forall|v: T, w: T| adj.contains_key(v) && #[trigger] adj[v].contains(w) ==> adj.contains_key(w)
}

/// There is an edge from `a` to `b`.
pub open spec fn is_edge<T>(adj: Map<T, Seq<T>>, a: T, b: T) -> bool {
    adj.contains_key(a) && adj[a].contains(b)
}

/// `p` is a path: a nonempty sequence of vertices of the graph, each joined
/// to the next by an edge.
pub open spec fn is_path<T>(adj: Map<T, Seq<T>>, p: Seq<T>) -> bool {
    &&& p.len() > 0
    &&& adj.contains_key(p[0])
    &&& forall|i: int| 0 <= i < p.len() - 1 ==> #[trigger] is_edge(adj, p[i], p[i + 1])
}

/// `p` is a path from `s` to `t`.
pub open spec fn is_path_between<T>(adj: Map<T, Seq<T>>, p: Seq<T>, s: T, t: T) -> bool {
    is_path(adj, p) && p[0] == s && p.last() == t
}

/// `t` can be reached from `s`.
pub open spec fn reachable<T>(adj: Map<T, Seq<T>>, s: T, t: T) -> bool {
    exists|p: Seq<T>| is_path_between(adj, p, s, t)
}

/// `t` can be reached from `s` by a path of at most `k` vertices.
pub open spec fn reachable_within<T>(adj: Map<T, Seq<T>>, s: T, t: T, k: int) -> bool {
    exists|p: Seq<T>| is_path_between(adj, p, s, t) && p.len() <= k
}

/// `p` is a path from `s` to `t` and no path between them is shorter.
pub open spec fn is_shortest_path<T>(adj: Map<T, Seq<T>>, p: Seq<T>, s: T, t: T) -> bool {
    &&& is_path_between(adj, p, s, t)
    &&& forall|q: Seq<T>| #[trigger] is_path_between(adj, q, s, t) ==> p.len() <= q.len()
}

/// Every successor of a vertex of `set` that is not `pending` lies in `set`.
pub open spec fn closed_except<T>(adj: Map<T, Seq<T>>, set: Set<T>, pending: Set<T>) -> bool {
    forall|v: T, w: T|
        #![trigger set.contains(v), adj[v].contains(w)]
        set.contains(v) && !pending.contains(v) && adj[v].contains(w) ==> set.contains(w)
}

/// A path with its last vertex removed is still a path.
pub proof fn lemma_path_prefix<T>(adj: Map<T, Seq<T>>, p: Seq<T>, n: int)
    requires
        is_path(adj, p),
        1 <= n <= p.len(),
    ensures
        is_path(adj, p.subrange(0, n)),
{
    let q = p.subrange(0, n);
    assert forall|i: int| 0 <= i < q.len() - 1 implies #[trigger] is_edge(adj, q[i], q[i + 1]) by {
        assert(is_edge(adj, p[i], p[i + 1]));
    }
}

/// A path extended by an edge out of its last vertex is a path.
pub proof fn lemma_path_push<T>(adj: Map<T, Seq<T>>, p: Seq<T>, w: T)
    requires
        is_path(adj, p),
        is_edge(adj, p.last(), w),
    ensures
        is_path(adj, p.push(w)),
{
    let q = p.push(w);
    assert forall|i: int| 0 <= i < q.len() - 1 implies #[trigger] is_edge(adj, q[i], q[i + 1]) by {
        if i < p.len() - 1 {
            assert(is_edge(adj, p[i], p[i + 1]));
        }
    }
}

/// A set that holds `s` and every successor of its members holds every
/// vertex reachable from `s`.
pub proof fn lemma_closed_holds_reachable<T>(
    adj: Map<T, Seq<T>>,
    set: Set<T>,
    s: T,
    p: Seq<T>,
    t: T,
)
    requires
        set.contains(s),
        closed_except(adj, set, Set::empty()),
        is_path_between(adj, p, s, t),
    ensures
        set.contains(t),
    decreases p.len(),
{
    if p.len() > 1 {
        let q = p.subrange(0, p.len() - 1);
        lemma_path_prefix(adj, p, p.len() - 1);
        lemma_closed_holds_reachable(adj, set, s, q, q.last());
        let i = p.len() - 2;
        assert(is_edge(adj, p[i], p[i + 1]));
        assert(set.contains(q.last()) && adj[q.last()].contains(t));
    }
}

/// Where every vertex of `set` that is still `pending` lies at distance at
/// least `level` and the distances recorded for `set` are lower bounds, any
/// path from `s` to a vertex outside `set` has at least `level + 2` vertices.
pub proof fn lemma_outside_is_far<T>(
    adj: Map<T, Seq<T>>,
    set: Set<T>,
    pending: Set<T>,
    dist: Map<T, nat>,
    level: nat,
    s: T,
    p: Seq<T>,
    u: T,
)
    requires
        set.contains(s),
        closed_except(adj, set, pending),
        forall|v: T| #[trigger] pending.contains(v) && set.contains(v) ==> dist[v] >= level,
        forall|v: T, q: Seq<T>|
            set.contains(v) && #[trigger] is_path_between(adj, q, s, v) ==> q.len() >= dist[v] + 1,
        is_path_between(adj, p, s, u),
        !set.contains(u),
    ensures
        p.len() >= level + 2,
    decreases p.len(),
{
    let q = p.subrange(0, p.len() - 1);
    lemma_path_prefix(adj, p, p.len() - 1);
    let x = q.last();
    let i = p.len() - 2;
    assert(is_edge(adj, p[i], p[i + 1]));
    assert(is_path_between(adj, q, s, x));
    if set.contains(x) {
        assert(adj[x].contains(u));
        assert(pending.contains(x));
    } else {
        lemma_outside_is_far(adj, set, pending, dist, level, s, q, x);
    }
}

} // verus!
