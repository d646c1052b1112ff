//! Breadth-first search over a directed graph kept as adjacency lists.

use crate::cs::error::Error;
use crate::cs::search::graph::{
    adjacency, closed_adjacency, closed_except, copy_vertex, is_edge, is_path, is_path_between,
    is_shortest_path, lemma_closed_holds_reachable, lemma_outside_is_far, lemma_path_push,
    reachable, reachable_within, same_vertex, vertex_model,
};
use std::collections::{HashMap, HashSet, VecDeque};
use std::hash::Hash;
use vstd::prelude::*;

verus! {

/// The adjacency map after a directed edge from `s` to `d` is added: `d` is
/// appended to the successors of `s`, and both become vertices.
pub open spec fn with_edge<T>(adj: Map<T, Seq<T>>, s: T, d: T) -> Map<T, Seq<T>> {
    let list = if adj.contains_key(s) {
        adj[s]
    } else {
        Seq::empty()
    };
    let mid = adj.insert(s, list.push(d));
    if mid.contains_key(d) {
        mid
    } else {
        mid.insert(d, Seq::empty())
    }
}

/// The adjacency map after `v` is added as a vertex, if it was not one.
pub open spec fn with_vertex<T>(adj: Map<T, Seq<T>>, v: T) -> Map<T, Seq<T>> {
    if adj.contains_key(v) {
        adj
    } else {
        adj.insert(v, Seq::empty())
    }
}

/// The error that a search from a vertex outside the graph returns.
pub open spec fn is_missing_start_error(e: Error) -> bool {
    e matches Error::InvalidInput(m) && m@ == "Start vertex not found in graph"@
}

/// The error returned for a start vertex that the graph does not hold.
fn missing_start() -> (e: Error)
    ensures
        is_missing_start_error(e),
{
    Error::invalid_input("Start vertex not found in graph")
}

/// A directed graph given by adjacency lists.
#[derive(Debug, Clone)]
pub struct Graph<T> {
    edges: HashMap<T, Vec<T>>,
}

impl<T> View for Graph<T> {
    type V = Map<T, Seq<T>>;

    /// Each vertex with its successors, in the order in which the edges were added.
    closed spec fn view(&self) -> Map<T, Seq<T>> {
        adjacency(self.edges@)
    }
}

impl<T: Eq + Hash + Clone> Default for Graph<T> {
    /// An empty graph.
    fn default() -> (g: Self)
        ensures
            g@ == Map::<T, Seq<T>>::empty(),
    {
        Self::new()
    }
}

impl<T: Eq + Hash + Clone> Graph<T> {
    /// Every successor is a vertex of the graph.
    pub open spec fn wf(&self) -> bool {
        closed_adjacency(self@)
    }

    /// Creates an empty graph.
    pub fn new() -> (g: Self)
        ensures
            g@ == Map::<T, Seq<T>>::empty(),
            g.wf(),
    {
        let g = Graph { edges: HashMap::new() };
        proof {
            assert(g@ =~= Map::<T, Seq<T>>::empty());
        }
        g
    }

    /// Adds a vertex with no edges, unless the graph holds it already.
    pub fn add_vertex(&mut self, vertex: T)
        requires
            vertex_model::<T>(),
            old(self).wf(),
        ensures
            final(self)@ == with_vertex(old(self)@, vertex),
            final(self).wf(),
    {
        if !self.edges.contains_key(&vertex) {
            self.edges.insert(vertex, Vec::new());
        }
        proof {
            assert(self@ =~= with_vertex(old(self)@, vertex));
        }
    }

    /// Adds a directed edge from `source` to `destination`; both become
    /// vertices of the graph.
    pub fn add_edge(&mut self, source: T, destination: T)
        requires
            vertex_model::<T>(),
            old(self).wf(),
        ensures
            final(self)@ == with_edge(old(self)@, source, destination),
            final(self).wf(),
    {
        let ghost adj0 = old(self)@;
        let mut list = match self.edges.remove(&source) {
            Some(l) => l,
            None => Vec::new(),
        };
        list.push(copy_vertex(&destination));
        self.edges.insert(source, list);
        if !self.edges.contains_key(&destination) {
            self.edges.insert(destination, Vec::new());
        }
        proof {
            assert(self@ =~= with_edge(adj0, source, destination));
            let adj = self@;
            assert forall|v: T, w: T|
                adj.contains_key(v) && #[trigger] adj[v].contains(w) implies adj.contains_key(w) by {
                if w != destination {
                    let k = choose|k: int| 0 <= k < adj[v].len() && adj[v][k] == w;
                    if v == source {
                        assert(adj0.contains_key(v) && adj0[v][k] == w);
                    } else {
                        assert(adj0.contains_key(v) && adj0[v] == adj[v]);
                    }
                    assert(adj0[v].contains(w));
                }
            }
        }
    }

    /// Finds a shortest path from `start` to `target`, breadth first.
    ///
    /// Returns an invalid-input error where `start` is not a vertex,
    /// `Ok(Some(path))` with a shortest path where `target` can be reached,
    /// and `Ok(None)` where it cannot.
    pub fn search(&self, start: &T, target: &T) -> (result: Result<Option<Vec<T>>, Error>)
        requires
            vertex_model::<T>(),
            self.wf(),
        ensures
            !self@.contains_key(*start) ==> (result matches Err(e) && is_missing_start_error(e)),
            self@.contains_key(*start) ==> match result {
                Ok(Some(path)) => is_shortest_path(self@, path@, *start, *target),
                Ok(None) => !reachable(self@, *start, *target),
                Err(_) => false,
            },
            *start == *target && self@.contains_key(*start) ==> (result matches Ok(Some(path))
                && path@ == seq![*start]),
    {
        if !self.edges.contains_key(start) {
            return Err(missing_start());
        }
        let ghost adj = self@;
        proof {
            assert(adj.dom() =~= self.edges@.dom());
        }
        if same_vertex(start, target) {
            let path = vec![copy_vertex(start)];
            proof {
                assert(is_path_between(adj, path@, *start, *target));
            }
            return Ok(Some(path));
        }
        let mut queue: VecDeque<T> = VecDeque::new();
        let mut visited: HashSet<T> = HashSet::new();
        let mut parent: HashMap<T, T> = HashMap::new();
        let ghost mut dist: Map<T, nat> = Map::empty().insert(*start, 0nat);
        let ghost mut level: nat = 0;
        queue.push_back(copy_vertex(start));
        visited.insert(copy_vertex(start));
        proof {
            assert(queue@[0] == *start);
            assert(queue@.to_set().contains(*start));
            assert(visited@ =~= Set::<T>::empty().insert(*start));
            assert forall|v: T, q: Seq<T>|
                visited@.contains(v) && #[trigger] is_path_between(adj, q, *start, v) implies q.len()
                >= dist[v] + 1 by {}
        }
        loop
            invariant
                vertex_model::<T>(),
                self.wf(),
                adj == self@,
                adj.dom().finite(),
                adj.contains_key(*start),
                *start != *target,
                visited@ == dist.dom(),
                visited@.contains(*start),
                !visited@.contains(*target),
                dist[*start] == 0,
                forall|v: T| #[trigger] visited@.contains(v) ==> adj.contains_key(v),
                forall|i: int| 0 <= i < queue@.len() ==> visited@.contains(#[trigger] queue@[i]),
                forall|i: int, j: int|
                    0 <= i <= j < queue@.len() ==> dist[#[trigger] queue@[i]] <= dist[#[trigger] queue@[j]],
                forall|i: int|
                    0 <= i < queue@.len() ==> level <= dist[#[trigger] queue@[i]] <= level + 1,
                closed_except(adj, visited@, queue@.to_set()),
                forall|v: T, q: Seq<T>|
                    visited@.contains(v) && #[trigger] is_path_between(adj, q, *start, v) ==> q.len()
                        >= dist[v] + 1,
                forall|v: T| #[trigger]
                    visited@.contains(v) && v != *start ==> {
                        &&& parent@.contains_key(v)
                        &&& visited@.contains(parent@[v])
                        &&& dist[parent@[v]] + 1 == dist[v]
                        &&& is_edge(adj, parent@[v], v)
                    },
            decreases adj.dom().difference(visited@).len(), queue@.len(),
        {
            let ghost visited0 = visited@;
            let ghost qold = queue@;
            let current = match queue.pop_front() {
                Some(c) => c,
                None => {
                    proof {
                        assert(queue@.to_set() =~= Set::<T>::empty());
                        assert(!reachable(adj, *start, *target)) by {
                            if reachable(adj, *start, *target) {
                                let p = choose|p: Seq<T>| is_path_between(adj, p, *start, *target);
                                lemma_closed_holds_reachable(adj, visited@, *start, p, *target);
                            }
                        }
                    }
                    return Ok(None);
                },
            };
            proof {
                assert(qold[0] == current);
                assert(visited@.contains(current));
                level = dist[current];
                assert(closed_except(adj, visited@, queue@.to_set().insert(current))) by {
                    assert forall|v: T, w: T|
                        visited@.contains(v) && !queue@.to_set().insert(current).contains(v)
                            && adj[v].contains(w) implies visited@.contains(w) by {
                        if qold.contains(v) {
                            let k = choose|k: int| 0 <= k < qold.len() && qold[k] == v;
                            if k > 0 {
                                assert(queue@[k - 1] == v);
                            }
                        }
                        assert(!qold.to_set().contains(v));
                    }
                }
            }
            let ghost queue1 = queue@;
            let neighbors = match self.edges.get(&current) {
                Some(n) => n,
                None => {
                    proof {
                        assert(false);
                    }
                    return Ok(None);
                },
            };
            assert(neighbors@ == adj[current]);
            let mut i: usize = 0;
            while i < neighbors.len()
                invariant
                    vertex_model::<T>(),
                    self.wf(),
                    adj == self@,
                    adj.dom().finite(),
                    adj.contains_key(*start),
                    adj.contains_key(current),
                    neighbors@ == adj[current],
                    *start != *target,
                    visited@ == dist.dom(),
                    visited0.subset_of(visited@),
                    visited@.contains(*start),
                    visited@.contains(current),
                    !visited@.contains(*target),
                    dist[*start] == 0,
                    dist[current] == level,
                    0 <= i <= neighbors@.len(),
                    forall|k: int| 0 <= k < i ==> visited@.contains(#[trigger] neighbors@[k]),
                    forall|v: T| #[trigger] visited@.contains(v) ==> adj.contains_key(v),
                    forall|k: int| 0 <= k < queue@.len() ==> visited@.contains(#[trigger] queue@[k]),
                    forall|k: int, j: int|
                        0 <= k <= j < queue@.len() ==> dist[#[trigger] queue@[k]]
                            <= dist[#[trigger] queue@[j]],
                    forall|k: int|
                        0 <= k < queue@.len() ==> level <= dist[#[trigger] queue@[k]] <= level + 1,
                    closed_except(adj, visited@, queue@.to_set().insert(current)),
                    forall|v: T, q: Seq<T>|
                        visited@.contains(v) && #[trigger] is_path_between(adj, q, *start, v)
                            ==> q.len() >= dist[v] + 1,
                    forall|v: T| #[trigger]
                        visited@.contains(v) && v != *start ==> {
                            &&& parent@.contains_key(v)
                            &&& visited@.contains(parent@[v])
                            &&& dist[parent@[v]] + 1 == dist[v]
                            &&& is_edge(adj, parent@[v], v)
                        },
                    visited@ == visited0 || adj.dom().difference(visited@).len() < adj.dom().difference(
                        visited0,
                    ).len(),
                    visited@ == visited0 ==> queue@ == queue1,
                decreases neighbors@.len() - i,
            {
                let neighbor = &neighbors[i];
                if !visited.contains(neighbor) {
                    let ghost q0 = queue@;
                    let ghost vis_before = visited@;
                    proof {
                        assert(adj[current].contains(*neighbor));
                        assert(adj.contains_key(*neighbor));
                        let pending = queue@.to_set().insert(current);
                        assert forall|q: Seq<T>| #[trigger]
                            is_path_between(adj, q, *start, *neighbor) implies q.len() >= level + 2 by {
                            lemma_outside_is_far(
                                adj,
                                visited@,
                                pending,
                                dist,
                                level,
                                *start,
                                q,
                                *neighbor,
                            );
                        }
                        assert(adj.dom().difference(visited@.insert(*neighbor)).len() < adj.dom().difference(
                            visited0,
                        ).len()) by {
                            assert(adj.dom().difference(visited@.insert(*neighbor)) =~= adj.dom().difference(
                                visited@,
                            ).remove(*neighbor));
                            vstd::set_lib::lemma_len_subset(
                                adj.dom().difference(visited@),
                                adj.dom().difference(visited0),
                            );
                        }
                    }
                    visited.insert(copy_vertex(neighbor));
                    parent.insert(copy_vertex(neighbor), copy_vertex(&current));
                    proof {
                        dist = dist.insert(*neighbor, level + 1);
                    }
                    queue.push_back(copy_vertex(neighbor));
                    proof {
                        assert(queue@[queue@.len() - 1] == *neighbor);
                        assert(closed_except(adj, visited@, queue@.to_set().insert(current))) by {
                            assert forall|v: T, w: T|
                                visited@.contains(v) && !queue@.to_set().insert(current).contains(v)
                                    && adj[v].contains(w) implies visited@.contains(w) by {
                                assert(v != *neighbor);
                                if q0.contains(v) {
                                    let k = choose|k: int| 0 <= k < q0.len() && q0[k] == v;
                                    assert(queue@[k] == v);
                                }
                                assert(!q0.to_set().insert(current).contains(v));
                                assert(vis_before.contains(v));
                            }
                        }
                    }
                    if same_vertex(neighbor, target) {
                        let path = reconstruct_path(&parent, start, target, Ghost(adj), Ghost(visited@), Ghost(dist));
                        return Ok(Some(path));
                    }
                }
                i = i + 1;
            }
            proof {
                assert(closed_except(adj, visited@, queue@.to_set())) by {
                    assert forall|v: T, w: T|
                        visited@.contains(v) && !queue@.to_set().contains(v) && adj[v].contains(
                            w,
                        ) implies visited@.contains(w) by {
                        if v == current {
                            let k = choose|k: int| 0 <= k < neighbors@.len() && neighbors@[k] == w;
                            assert(visited@.contains(neighbors@[k]));
                        }
                    }
                }
            }
        }
    }

    /// Lists the vertices reachable from `start`, each once, breadth first:
    /// `start` first, and no vertex before one that is nearer to `start`.
    pub fn traverse(&self, start: &T) -> (result: Result<Vec<T>, Error>)
        requires
            vertex_model::<T>(),
            self.wf(),
        ensures
            !self@.contains_key(*start) ==> (result matches Err(e) && is_missing_start_error(e)),
            self@.contains_key(*start) ==> (result matches Ok(order) && {
                &&& order@.len() > 0
                &&& order@[0] == *start
                &&& order@.no_duplicates()
                &&& forall|v: T| order@.contains(v) <==> reachable(self@, *start, v)
                &&& forall|i: int, j: int, q: Seq<T>|
                    0 <= i < j < order@.len() && #[trigger] is_path_between(self@, q, *start, order@[j])
                        ==> reachable_within(self@, *start, #[trigger] order@[i], q.len() as int)
            }),
    {
        if !self.edges.contains_key(start) {
            return Err(missing_start());
        }
        let ghost adj = self@;
        proof {
            assert(adj.dom() =~= self.edges@.dom());
        }
        let mut result: Vec<T> = Vec::new();
        let mut queue: VecDeque<T> = VecDeque::new();
        let mut visited: HashSet<T> = HashSet::new();
        let ghost mut dist: Map<T, nat> = Map::empty().insert(*start, 0nat);
        let ghost mut witness: Map<T, Seq<T>> = Map::empty().insert(*start, seq![*start]);
        let ghost mut level: nat = 0;
        queue.push_back(copy_vertex(start));
        visited.insert(copy_vertex(start));
        result.push(copy_vertex(start));
        proof {
            assert(queue@[0] == *start);
            assert(queue@.to_set().contains(*start));
            assert(visited@ =~= Set::<T>::empty().insert(*start));
            assert(result@ =~= seq![*start]);
            assert forall|v: T, q: Seq<T>|
                visited@.contains(v) && #[trigger] is_path_between(adj, q, *start, v) implies q.len()
                >= dist[v] + 1 by {}
            assert(is_path_between(adj, witness[*start], *start, *start));
        }
        loop
            invariant
                vertex_model::<T>(),
                self.wf(),
                adj == self@,
                adj.dom().finite(),
                adj.contains_key(*start),
                visited@ == dist.dom(),
                visited@ == witness.dom(),
                visited@.contains(*start),
                dist[*start] == 0,
                result@.len() > 0,
                result@[0] == *start,
                result@.no_duplicates(),
                forall|v: T| result@.contains(v) <==> visited@.contains(v),
                forall|i: int, j: int|
                    0 <= i <= j < result@.len() ==> dist[#[trigger] result@[i]] <= dist[#[trigger] result@[j]],
                forall|v: T| #[trigger] visited@.contains(v) ==> adj.contains_key(v) && dist[v] <= level + 1,
                forall|v: T| #[trigger]
                    visited@.contains(v) ==> is_path_between(adj, witness[v], *start, v)
                        && witness[v].len() == dist[v] + 1,
                forall|i: int| 0 <= i < queue@.len() ==> visited@.contains(#[trigger] queue@[i]),
                forall|i: int, j: int|
                    0 <= i <= j < queue@.len() ==> dist[#[trigger] queue@[i]] <= dist[#[trigger] queue@[j]],
                forall|i: int|
                    0 <= i < queue@.len() ==> level <= dist[#[trigger] queue@[i]] <= level + 1,
                closed_except(adj, visited@, queue@.to_set()),
                forall|v: T, q: Seq<T>|
                    visited@.contains(v) && #[trigger] is_path_between(adj, q, *start, v) ==> q.len()
                        >= dist[v] + 1,
            decreases adj.dom().difference(visited@).len(), queue@.len(),
        {
            let ghost visited0 = visited@;
            let ghost qold = queue@;
            let current = match queue.pop_front() {
                Some(c) => c,
                None => {
                    proof {
                        assert(queue@.to_set() =~= Set::<T>::empty());
                        assert forall|v: T| result@.contains(v) <==> reachable(adj, *start, v) by {
                            if reachable(adj, *start, v) {
                                let p = choose|p: Seq<T>| is_path_between(adj, p, *start, v);
                                lemma_closed_holds_reachable(adj, visited@, *start, p, v);
                            }
                            if result@.contains(v) {
                                assert(is_path_between(adj, witness[v], *start, v));
                            }
                        }
                        assert forall|i: int, j: int, q: Seq<T>|
                            0 <= i < j < result@.len() && #[trigger] is_path_between(
                                adj,
                                q,
                                *start,
                                result@[j],
                            ) implies reachable_within(adj, *start, #[trigger] result@[i], q.len() as int) by {
                            let vi = result@[i];
                            assert(visited@.contains(vi));
                            assert(visited@.contains(result@[j]));
                            assert(is_path_between(adj, witness[vi], *start, vi));
                        }
                    }
                    return Ok(result);
                },
            };
            proof {
                assert(qold[0] == current);
                assert(visited@.contains(current));
                level = dist[current];
                assert(closed_except(adj, visited@, queue@.to_set().insert(current))) by {
                    assert forall|v: T, w: T|
                        visited@.contains(v) && !queue@.to_set().insert(current).contains(v)
                            && adj[v].contains(w) implies visited@.contains(w) by {
                        if qold.contains(v) {
                            let k = choose|k: int| 0 <= k < qold.len() && qold[k] == v;
                            if k > 0 {
                                assert(queue@[k - 1] == v);
                            }
                        }
                        assert(!qold.to_set().contains(v));
                    }
                }
            }
            let ghost queue1 = queue@;
            let neighbors = match self.edges.get(&current) {
                Some(n) => n,
                None => {
                    proof {
                        assert(false);
                    }
                    return Ok(result);
                },
            };
            assert(neighbors@ == adj[current]);
            let mut i: usize = 0;
            while i < neighbors.len()
                invariant
                    vertex_model::<T>(),
                    self.wf(),
                    adj == self@,
                    adj.dom().finite(),
                    adj.contains_key(*start),
                    adj.contains_key(current),
                    neighbors@ == adj[current],
                    visited@ == dist.dom(),
                    visited@ == witness.dom(),
                    visited0.subset_of(visited@),
                    visited@.contains(*start),
                    visited@.contains(current),
                    dist[*start] == 0,
                    dist[current] == level,
                    result@.len() > 0,
                    result@[0] == *start,
                    result@.no_duplicates(),
                    forall|v: T| result@.contains(v) <==> visited@.contains(v),
                    forall|k: int, j: int|
                        0 <= k <= j < result@.len() ==> dist[#[trigger] result@[k]]
                            <= dist[#[trigger] result@[j]],
                    forall|v: T| #[trigger]
                        visited@.contains(v) ==> adj.contains_key(v) && dist[v] <= level + 1,
                    forall|v: T| #[trigger]
                        visited@.contains(v) ==> is_path_between(adj, witness[v], *start, v)
                            && witness[v].len() == dist[v] + 1,
                    0 <= i <= neighbors@.len(),
                    forall|k: int| 0 <= k < i ==> visited@.contains(#[trigger] neighbors@[k]),
                    forall|k: int| 0 <= k < queue@.len() ==> visited@.contains(#[trigger] queue@[k]),
                    forall|k: int, j: int|
                        0 <= k <= j < queue@.len() ==> dist[#[trigger] queue@[k]]
                            <= dist[#[trigger] queue@[j]],
                    forall|k: int|
                        0 <= k < queue@.len() ==> level <= dist[#[trigger] queue@[k]] <= level + 1,
                    closed_except(adj, visited@, queue@.to_set().insert(current)),
                    forall|v: T, q: Seq<T>|
                        visited@.contains(v) && #[trigger] is_path_between(adj, q, *start, v)
                            ==> q.len() >= dist[v] + 1,
                    visited@ == visited0 || adj.dom().difference(visited@).len() < adj.dom().difference(
                        visited0,
                    ).len(),
                    visited@ == visited0 ==> queue@ == queue1,
                decreases neighbors@.len() - i,
            {
                let neighbor = &neighbors[i];
                if !visited.contains(neighbor) {
                    let ghost q0 = queue@;
                    let ghost vis_before = visited@;
                    proof {
                        assert(adj[current].contains(*neighbor));
                        assert(adj.contains_key(*neighbor));
                        let pending = queue@.to_set().insert(current);
                        assert forall|q: Seq<T>| #[trigger]
                            is_path_between(adj, q, *start, *neighbor) implies q.len() >= level + 2 by {
                            lemma_outside_is_far(
                                adj,
                                visited@,
                                pending,
                                dist,
                                level,
                                *start,
                                q,
                                *neighbor,
                            );
                        }
                        assert(adj.dom().difference(visited@.insert(*neighbor)).len() < adj.dom().difference(
                            visited0,
                        ).len()) by {
                            assert(adj.dom().difference(visited@.insert(*neighbor)) =~= adj.dom().difference(
                                visited@,
                            ).remove(*neighbor));
                            vstd::set_lib::lemma_len_subset(
                                adj.dom().difference(visited@),
                                adj.dom().difference(visited0),
                            );
                        }
                        lemma_path_push(adj, witness[current], *neighbor);
                        witness = witness.insert(*neighbor, witness[current].push(*neighbor));
                        dist = dist.insert(*neighbor, level + 1);
                    }
                    let ghost r0 = result@;
                    visited.insert(copy_vertex(neighbor));
                    queue.push_back(copy_vertex(neighbor));
                    result.push(copy_vertex(neighbor));
                    proof {
                        assert(result@[result@.len() - 1] == *neighbor);
                        assert forall|v: T| result@.contains(v) <==> visited@.contains(v) by {
                            if r0.contains(v) {
                                let k = choose|k: int| 0 <= k < r0.len() && r0[k] == v;
                                assert(result@[k] == v);
                            }
                            if result@.contains(v) && v != *neighbor {
                                let k = choose|k: int| 0 <= k < result@.len() && result@[k] == v;
                                assert(r0[k] == v);
                            }
                        }
                        assert forall|k: int, j: int|
                            0 <= k <= j < result@.len() implies dist[#[trigger] result@[k]]
                            <= dist[#[trigger] result@[j]] by {
                            if j == result@.len() - 1 {
                                assert(visited@.contains(result@[k]));
                            } else {
                                assert(result@[k] == r0[k] && result@[j] == r0[j]);
                            }
                        }
                        assert(queue@[queue@.len() - 1] == *neighbor);
                        assert(closed_except(adj, visited@, queue@.to_set().insert(current))) by {
                            assert forall|v: T, w: T|
                                visited@.contains(v) && !queue@.to_set().insert(current).contains(v)
                                    && adj[v].contains(w) implies visited@.contains(w) by {
                                assert(v != *neighbor);
                                if q0.contains(v) {
                                    let k = choose|k: int| 0 <= k < q0.len() && q0[k] == v;
                                    assert(queue@[k] == v);
                                }
                                assert(!q0.to_set().insert(current).contains(v));
                                assert(vis_before.contains(v));
                            }
                        }
                    }
                }
                i = i + 1;
            }
            proof {
                assert(closed_except(adj, visited@, queue@.to_set())) by {
                    assert forall|v: T, w: T|
                        visited@.contains(v) && !queue@.to_set().contains(v) && adj[v].contains(
                            w,
                        ) implies visited@.contains(w) by {
                        if v == current {
                            let k = choose|k: int| 0 <= k < neighbors@.len() && neighbors@[k] == w;
                            assert(visited@.contains(neighbors@[k]));
                        }
                    }
                }
            }
        }
    }
}

/// Follows the recorded predecessors back from `target` to `start` and
/// returns the path they trace, from `start` to `target`.
fn reconstruct_path<T: Eq + Hash + Clone>(
    parent: &HashMap<T, T>,
    start: &T,
    target: &T,
    Ghost(adj): Ghost<Map<T, Seq<T>>>,
    Ghost(visited): Ghost<Set<T>>,
    Ghost(dist): Ghost<Map<T, nat>>,
) -> (path: Vec<T>)
    requires
        vertex_model::<T>(),
        adj.contains_key(*start),
        visited.contains(*target),
        dist[*start] == 0,
        forall|v: T| #[trigger]
            visited.contains(v) && v != *start ==> {
                &&& parent@.contains_key(v)
                &&& visited.contains(parent@[v])
                &&& dist[parent@[v]] + 1 == dist[v]
                &&& is_edge(adj, parent@[v], v)
            },
    ensures
        is_path_between(adj, path@, *start, *target),
        path@.len() == dist[*target] + 1,
{
    let mut reversed: Vec<T> = Vec::new();
    let mut current = copy_vertex(target);
    reversed.push(copy_vertex(&current));
    while !same_vertex(&current, start)
        invariant
            vertex_model::<T>(),
            adj.contains_key(*start),
            dist[*start] == 0,
            forall|v: T| #[trigger]
                visited.contains(v) && v != *start ==> {
                    &&& parent@.contains_key(v)
                    &&& visited.contains(parent@[v])
                    &&& dist[parent@[v]] + 1 == dist[v]
                    &&& is_edge(adj, parent@[v], v)
                },
            visited.contains(current),
            reversed@.len() > 0,
            reversed@[0] == *target,
            reversed@.last() == current,
            reversed@.len() + dist[current] == dist[*target] + 1,
            forall|k: int|
                0 <= k < reversed@.len() - 1 ==> is_edge(adj, #[trigger] reversed@[k + 1], reversed@[k]),
        decreases dist[current],
    {
        let next = match parent.get(&current) {
            Some(p) => copy_vertex(p),
            None => {
                proof {
                    assert(false);
                }
                return reversed;
            },
        };
        current = next;
        reversed.push(copy_vertex(&current));
    }
    let mut path: Vec<T> = Vec::new();
    let n = reversed.len();
    let mut k: usize = 0;
    while k < n
        invariant
            vertex_model::<T>(),
            n == reversed@.len(),
            0 <= k <= n,
            path@.len() == k,
            forall|j: int| 0 <= j < k ==> path@[j] == reversed@[n - 1 - j],
        decreases n - k,
    {
        path.push(copy_vertex(&reversed[n - 1 - k]));
        k = k + 1;
    }
    proof {
        assert(path@[0] == *start);
        assert(is_edge(adj, *start, reversed@[n - 2]) || n == 1);
        assert forall|i: int| 0 <= i < path@.len() - 1 implies #[trigger] is_edge(
            adj,
            path@[i],
            path@[i + 1],
        ) by {
            let k = n - 2 - i;
            assert(is_edge(adj, reversed@[k + 1], reversed@[k]));
        }
        assert(is_path(adj, path@));
    }
    path
}

} // verus!
