//! Depth-first search over a directed graph kept as adjacency lists,
//! recursively and with an explicit stack.

use crate::cs::error::Error;
use crate::cs::search::bfs::{is_missing_start_error, with_edge, with_vertex};
use crate::cs::search::graph::{
    adjacency, closed_adjacency, closed_except, copy_vertex, is_edge, is_path, is_path_between,
    lemma_closed_holds_reachable, lemma_path_push, reachable, same_vertex, vertex_model,
};
use std::collections::{HashMap, HashSet};
use std::hash::Hash;
use vstd::prelude::*;

verus! {

/// The error returned for a start vertex that the graph does not hold.
fn missing_start() -> (e: Error)
    ensures
        is_missing_start_error(e),
{
    Error::invalid_input("Start vertex not found in graph")
}

/// The vertices of the entries of a search stack.
pub open spec fn stack_vertices<T>(stack: Seq<(T, Vec<T>)>) -> Set<T> {
    Set::new(|v: T| exists|k: int| 0 <= k < stack.len() && (#[trigger] stack[k]).0 == v)
}

/// `p` repeats no vertex, and each of its vertices is in `visited`.
pub open spec fn simple_within<T>(p: Seq<T>, visited: Set<T>) -> bool {
    &&& p.no_duplicates()
    &&& forall|k: int| 0 <= k < p.len() ==> visited.contains(#[trigger] p[k])
}

/// Visiting more vertices keeps such a path one.
proof fn lemma_simple_grow<T>(p: Seq<T>, visited: Set<T>, more: Set<T>)
    requires
        simple_within(p, visited),
        visited.subset_of(more),
    ensures
        simple_within(p, more),
{
    assert forall|k: int| 0 <= k < p.len() implies more.contains(#[trigger] p[k]) by {
        assert(visited.contains(p[k]));
    }
}

/// Extending such a path by a vertex that was not visited, and then
/// visiting it, gives such a path again.
proof fn lemma_simple_push<T>(p: Seq<T>, visited: Set<T>, more: Set<T>, v: T)
    requires
        simple_within(p, visited),
        !visited.contains(v),
        visited.insert(v).subset_of(more),
    ensures
        simple_within(p.push(v), more),
{
    let q = p.push(v);
    assert forall|a: int, b: int| 0 <= a < q.len() && 0 <= b < q.len() && a != b implies q[a] != q[b] by {
        if b == p.len() {
            assert(visited.contains(p[a]));
        } else if a == p.len() {
            assert(visited.contains(p[b]));
        } else {
            assert(q[a] == p[a] && q[b] == p[b]);
        }
    }
    assert forall|k: int| 0 <= k < q.len() implies more.contains(#[trigger] q[k]) by {
        if k < p.len() {
            assert(visited.contains(p[k]));
        }
    }
}

/// Copies a sequence of vertices.
fn copy_path<T: Eq + Hash + Clone>(p: &Vec<T>) -> (r: Vec<T>)
    requires
        vertex_model::<T>(),
    ensures
        r@ == p@,
{
    let mut r: Vec<T> = Vec::new();
    let mut k: usize = 0;
    while k < p.len()
        invariant
            vertex_model::<T>(),
            0 <= k <= p@.len(),
            r@ == p@.subrange(0, k as int),
        decreases p@.len() - k,
    {
        r.push(copy_vertex(&p[k]));
        k = k + 1;
    }
    proof {
        assert(r@ =~= p@);
    }
    r
}

/// A directed graph given by adjacency lists.
#[derive(Debug, Clone)]
pub struct Graph<T> {
    edges: HashMap<T, Vec<T>>,
}

impl<T> View for Graph<T> {
    type V = Map<T, Seq<T>>;

    /// Each vertex with its successors, in the order in which the edges were added.
    closed spec fn view(&self) -> Map<T, Seq<T>> {
        adjacency(self.edges@)
    }
}

impl<T: Eq + Hash + Clone> Graph<T> {
    /// Every successor is a vertex of the graph.
    pub open spec fn wf(&self) -> bool {
        closed_adjacency(self@)
    }

    /// Creates an empty graph.
    pub fn new() -> (g: Self)
        ensures
            g@ == Map::<T, Seq<T>>::empty(),
            g.wf(),
    {
        let g = Graph { edges: HashMap::new() };
        proof {
            assert(g@ =~= Map::<T, Seq<T>>::empty());
        }
        g
    }

    /// Adds a vertex with no edges, unless the graph holds it already.
    pub fn add_vertex(&mut self, vertex: T)
        requires
            vertex_model::<T>(),
            old(self).wf(),
        ensures
            final(self)@ == with_vertex(old(self)@, vertex),
            final(self).wf(),
    {
        if !self.edges.contains_key(&vertex) {
            self.edges.insert(vertex, Vec::new());
        }
        proof {
            assert(self@ =~= with_vertex(old(self)@, vertex));
        }
    }

    /// Adds a directed edge from `source` to `destination`; both become
    /// vertices of the graph.
    pub fn add_edge(&mut self, source: T, destination: T)
        requires
            vertex_model::<T>(),
            old(self).wf(),
        ensures
            final(self)@ == with_edge(old(self)@, source, destination),
            final(self).wf(),
    {
        let ghost adj0 = old(self)@;
        let mut list = match self.edges.remove(&source) {
            Some(l) => l,
            None => Vec::new(),
        };
        list.push(copy_vertex(&destination));
        self.edges.insert(source, list);
        if !self.edges.contains_key(&destination) {
            self.edges.insert(destination, Vec::new());
        }
        proof {
            assert(self@ =~= with_edge(adj0, source, destination));
            let adj = self@;
            assert forall|v: T, w: T|
                adj.contains_key(v) && #[trigger] adj[v].contains(w) implies adj.contains_key(w) by {
                if w != destination {
                    let k = choose|k: int| 0 <= k < adj[v].len() && adj[v][k] == w;
                    if v == source {
                        assert(adj0.contains_key(v) && adj0[v][k] == w);
                    } else {
                        assert(adj0.contains_key(v) && adj0[v] == adj[v]);
                    }
                    assert(adj0[v].contains(w));
                }
            }
        }
    }

    /// Finds a path from `start` to `target`, depth first.
    ///
    /// Returns an invalid-input error where `start` is not a vertex,
    /// `Ok(Some(path))` with a path where `target` can be reached, and
    /// `Ok(None)` where it cannot.
    pub fn search(&self, start: &T, target: &T) -> (result: Result<Option<Vec<T>>, Error>)
        requires
            vertex_model::<T>(),
            self.wf(),
        ensures
            !self@.contains_key(*start) ==> (result matches Err(e) && is_missing_start_error(e)),
            self@.contains_key(*start) ==> match result {
                Ok(Some(path)) => is_path_between(self@, path@, *start, *target) && path@.no_duplicates(),
                Ok(None) => !reachable(self@, *start, *target),
                Err(_) => false,
            },
            *start == *target && self@.contains_key(*start) ==> (result matches Ok(Some(path))
                && path@ == seq![*start]),
    {
        if !self.edges.contains_key(start) {
            return Err(missing_start());
        }
        proof {
            assert(self@.dom() =~= self.edges@.dom());
        }
        let mut visited: HashSet<T> = HashSet::new();
        let mut path: Vec<T> = Vec::new();
        proof {
            assert(path@.to_set() =~= Set::<T>::empty());
        }
        if self.dfs_recursive(start, target, &mut visited, &mut path, Ghost(*start)) {
            Ok(Some(path))
        } else {
            proof {
                assert(path@.to_set() =~= Set::<T>::empty());
                if reachable(self@, *start, *target) {
                    let p = choose|p: Seq<T>| is_path_between(self@, p, *start, *target);
                    lemma_closed_holds_reachable(self@, visited@, *start, p, *target);
                }
            }
            Ok(None)
        }
    }

    /// Visits `current` and, depth first, every vertex reachable from it that
    /// is not yet visited, until `target` is met. On success `path` holds a
    /// path from `start` to `target`; otherwise it is as it was, and every
    /// vertex visited that is not on it has all its successors visited.
    fn dfs_recursive(
        &self,
        current: &T,
        target: &T,
        visited: &mut HashSet<T>,
        path: &mut Vec<T>,
        Ghost(start): Ghost<T>,
    ) -> (found: bool)
        requires
            vertex_model::<T>(),
            self.wf(),
            self@.dom().finite(),
            self@.contains_key(*current),
            !old(visited)@.contains(*current),
            !old(visited)@.contains(*target),
            old(visited)@.subset_of(self@.dom()),
            forall|k: int| 0 <= k < old(path)@.len() ==> old(visited)@.contains(#[trigger] old(path)@[k]),
            old(path)@.no_duplicates(),
            closed_except(self@, old(visited)@, old(path)@.to_set()),
            old(path)@.len() == 0 ==> *current == start,
            old(path)@.len() > 0 ==> is_path_between(self@, old(path)@, start, old(path)@.last())
                && is_edge(self@, old(path)@.last(), *current),
        ensures
            old(visited)@.insert(*current).subset_of(final(visited)@),
            final(visited)@.subset_of(self@.dom()),
            found ==> is_path_between(self@, final(path)@, start, *target),
            found ==> final(path)@.no_duplicates(),
            *current == *target ==> found && final(path)@ == old(path)@.push(*current),
            !found ==> {
                &&& final(path)@ == old(path)@
                &&& !final(visited)@.contains(*target)
                &&& closed_except(self@, final(visited)@, old(path)@.to_set())
            },
        decreases self@.dom().difference(old(visited)@).len(),
    {
        let ghost adj = self@;
        let ghost visited0 = visited@;
        let ghost path0 = path@;
        visited.insert(copy_vertex(current));
        path.push(copy_vertex(current));
        proof {
            if path0.len() > 0 {
                lemma_path_push(adj, path0, *current);
            } else {
                assert(path@ =~= seq![*current]);
            }
            assert(is_path_between(adj, path@, start, *current));
            assert(path@[path@.len() - 1] == *current);
            lemma_simple_push(path0, visited0, visited@, *current);
            assert forall|v: T| path0.to_set().contains(v) implies path@.to_set().contains(v) by {
                let k = choose|k: int| 0 <= k < path0.len() && path0[k] == v;
                assert(path@[k] == v);
            }
        }
        if same_vertex(current, target) {
            return true;
        }
        let neighbors = match self.edges.get(current) {
            Some(n) => n,
            None => {
                proof {
                    assert(false);
                }
                return false;
            },
        };
        assert(neighbors@ == adj[*current]);
        let mut i: usize = 0;
        while i < neighbors.len()
            invariant
                vertex_model::<T>(),
                self.wf(),
                adj == self@,
                adj.dom().finite(),
                adj.contains_key(*current),
                neighbors@ == adj[*current],
                *current != *target,
                !visited0.contains(*current),
                visited0 == old(visited)@,
                visited0.insert(*current).subset_of(visited@),
                visited@.subset_of(adj.dom()),
                !visited@.contains(*target),
                path@ == path0.push(*current),
                forall|k: int| 0 <= k < path@.len() ==> visited@.contains(#[trigger] path@[k]),
                path@.no_duplicates(),
                is_path_between(adj, path@, start, *current),
                closed_except(adj, visited@, path@.to_set()),
                0 <= i <= neighbors@.len(),
                forall|k: int| 0 <= k < i ==> visited@.contains(#[trigger] neighbors@[k]),
            decreases neighbors@.len() - i,
        {
            let neighbor = &neighbors[i];
            if !visited.contains(neighbor) {
                proof {
                    assert(adj[*current].contains(*neighbor));
                    assert(path@.last() == *current);
                    assert(adj.dom().difference(visited@).subset_of(
                        adj.dom().difference(visited0).remove(*current),
                    ));
                    assert(adj.dom().difference(visited0).contains(*current));
                    assert(adj.dom().difference(visited0).finite());
                    vstd::set_lib::lemma_len_subset(
                        adj.dom().difference(visited@),
                        adj.dom().difference(visited0).remove(*current),
                    );
                    assert(adj.dom().difference(visited@).len() < adj.dom().difference(
                        visited0,
                    ).len());
                }
                let ghost before = visited@;
                let found = self.dfs_recursive(neighbor, target, visited, path, Ghost(start));
                proof {
                    assert forall|v: T| visited0.insert(*current).contains(v) implies visited@.contains(
                        v,
                    ) by {
                        assert(before.contains(v));
                    }
                }
                if found {
                    return true;
                }
            }
            i = i + 1;
        }
        path.pop();
        proof {
            assert(path@ =~= path0);
            assert forall|v: T, w: T|
                visited@.contains(v) && !path0.to_set().contains(v) && adj[v].contains(
                    w,
                ) implies visited@.contains(w) by {
                if v == *current {
                    let k = choose|k: int| 0 <= k < neighbors@.len() && neighbors@[k] == w;
                    assert(visited@.contains(neighbors@[k]));
                } else {
                    let pushed = path0.push(*current);
                    if pushed.to_set().contains(v) {
                        let k = choose|k: int| 0 <= k < pushed.len() && pushed[k] == v;
                        assert(path0[k] == v);
                    }
                }
            }
        }
        false
    }

    /// Finds a path from `start` to `target`, depth first, with an explicit
    /// stack in place of recursion.
    ///
    /// Returns an invalid-input error where `start` is not a vertex,
    /// `Ok(Some(path))` with a path where `target` can be reached, and
    /// `Ok(None)` where it cannot.
    pub fn search_iterative(&self, start: &T, target: &T) -> (result: Result<
        Option<Vec<T>>,
        Error,
    >)
        requires
            vertex_model::<T>(),
            self.wf(),
        ensures
            !self@.contains_key(*start) ==> (result matches Err(e) && is_missing_start_error(e)),
            self@.contains_key(*start) ==> match result {
                Ok(Some(path)) => is_path_between(self@, path@, *start, *target) && path@.no_duplicates(),
                Ok(None) => !reachable(self@, *start, *target),
                Err(_) => false,
            },
            *start == *target && self@.contains_key(*start) ==> (result matches Ok(Some(path))
                && path@ == seq![*start]),
    {
        if !self.edges.contains_key(start) {
            return Err(missing_start());
        }
        let ghost adj = self@;
        proof {
            assert(adj.dom() =~= self.edges@.dom());
        }
        let mut stack: Vec<(T, Vec<T>)> = Vec::new();
        stack.push((copy_vertex(start), vec![copy_vertex(start)]));
        let mut visited: HashSet<T> = HashSet::new();
        visited.insert(copy_vertex(start));
        proof {
            assert(stack@[0].0 == *start);
            assert(stack_vertices(stack@).contains(*start));
            assert(visited@ =~= Set::<T>::empty().insert(*start));
            assert(is_path_between(adj, stack@[0].1@, *start, *start));
            assert(stack@[0].1@ =~= seq![*start]);
            assert(simple_within(stack@[0].1@, visited@));
        }
        loop
            invariant
                vertex_model::<T>(),
                self.wf(),
                adj == self@,
                adj.dom().finite(),
                adj.contains_key(*start),
                visited@.subset_of(adj.dom()),
                forall|k: int|
                    0 <= k < stack@.len() ==> visited@.contains((#[trigger] stack@[k]).0)
                        && is_path_between(adj, stack@[k].1@, *start, stack@[k].0)
                        && simple_within(stack@[k].1@, visited@),
                closed_except(adj, visited@, stack_vertices(stack@)),
                visited@.contains(*target) ==> stack_vertices(stack@).contains(*target),
                visited@.contains(*start),
                *start == *target ==> stack@.len() == 1 && stack@[0].0 == *start && stack@[0].1@
                    == seq![*start],
            decreases adj.dom().difference(visited@).len(), stack@.len(),
        {
            let ghost visited0 = visited@;
            let ghost sold = stack@;
            let (current, path) = match stack.pop() {
                Some(entry) => entry,
                None => {
                    proof {
                        assert(stack_vertices(stack@) =~= Set::<T>::empty());
                        assert(!visited@.contains(*target));
                        if reachable(adj, *start, *target) {
                            let p = choose|p: Seq<T>| is_path_between(adj, p, *start, *target);
                            lemma_closed_holds_reachable(adj, visited@, *start, p, *target);
                        }
                    }
                    return Ok(None);
                },
            };
            proof {
                assert(sold[sold.len() - 1] == (current, path));
                assert(simple_within(path@, visited@));
            }
            if same_vertex(&current, target) {
                    return Ok(Some(path));
            }
            proof {
                assert forall|v: T| #[trigger]
                    stack_vertices(sold).contains(v) implies stack_vertices(stack@).insert(
                    current,
                ).contains(v) by {
                    let k = choose|k: int| 0 <= k < sold.len() && (#[trigger] sold[k]).0 == v;
                    if k < stack@.len() {
                        assert(stack@[k] == sold[k]);
                    }
                }
            }
            let ghost stack1 = stack@;
            let neighbors = match self.edges.get(&current) {
                Some(n) => n,
                None => {
                    proof {
                        assert(false);
                    }
                    return Ok(None);
                },
            };
            assert(neighbors@ == adj[current]);
            let n = neighbors.len();
            let mut i: usize = 0;
            while i < n
                invariant
                    vertex_model::<T>(),
                    self.wf(),
                    adj == self@,
                    adj.dom().finite(),
                    adj.contains_key(*start),
                    adj.contains_key(current),
                    n == neighbors@.len(),
                    neighbors@ == adj[current],
                    current != *target,
                    visited@.contains(current),
                    is_path_between(adj, path@, *start, current),
                    simple_within(path@, visited@),
                    visited0.subset_of(visited@),
                    visited@.subset_of(adj.dom()),
                    visited@.contains(*start),
                    forall|k: int|
                        0 <= k < stack@.len() ==> visited@.contains((#[trigger] stack@[k]).0)
                            && is_path_between(adj, stack@[k].1@, *start, stack@[k].0)
                            && simple_within(stack@[k].1@, visited@),
                    closed_except(adj, visited@, stack_vertices(stack@).insert(current)),
                    visited@.contains(*target) ==> stack_vertices(stack@).contains(*target),
                    0 <= i <= n,
                    forall|k: int| n - i <= k < n ==> visited@.contains(#[trigger] neighbors@[k]),
                    visited@ == visited0 || adj.dom().difference(visited@).len() < adj.dom().difference(
                        visited0,
                    ).len(),
                    visited@ == visited0 ==> stack@ == stack1,
                decreases n - i,
            {
                let neighbor = &neighbors[n - 1 - i];
                if !visited.contains(neighbor) {
                    let ghost s0 = stack@;
                    let ghost vis_before = visited@;
                    proof {
                        assert(adj[current].contains(*neighbor));
                        assert(adj.dom().difference(visited@.insert(*neighbor)).len() < adj.dom().difference(
                            visited0,
                        ).len()) by {
                            assert(adj.dom().difference(visited@.insert(*neighbor)) =~= adj.dom().difference(
                                visited@,
                            ).remove(*neighbor));
                            vstd::set_lib::lemma_len_subset(
                                adj.dom().difference(visited@),
                                adj.dom().difference(visited0),
                            );
                        }
                    }
                    visited.insert(copy_vertex(neighbor));
                    let mut new_path = copy_path(&path);
                    new_path.push(copy_vertex(neighbor));
                    proof {
                        lemma_path_push(adj, path@, *neighbor);
                        lemma_simple_push(path@, vis_before, visited@, *neighbor);
                        lemma_simple_grow(path@, vis_before, visited@);
                    }
                    stack.push((copy_vertex(neighbor), new_path));
                    proof {
                        assert(stack@[stack@.len() - 1].0 == *neighbor);
                        assert(stack_vertices(stack@).contains(*neighbor));
                        assert forall|v: T| #[trigger]
                            stack_vertices(s0).contains(v) implies stack_vertices(stack@).contains(v) by {
                            let k = choose|k: int| 0 <= k < s0.len() && (#[trigger] s0[k]).0 == v;
                            assert(stack@[k] == s0[k]);
                        }
                        assert forall|v: T, w: T|
                            visited@.contains(v) && !stack_vertices(stack@).insert(current).contains(v)
                                && adj[v].contains(w) implies visited@.contains(w) by {
                            assert(v != *neighbor);
                            assert(vis_before.contains(v));
                        }
                        assert forall|k: int|
                            0 <= k < stack@.len() implies visited@.contains((#[trigger] stack@[k]).0)
                                && is_path_between(adj, stack@[k].1@, *start, stack@[k].0)
                                && simple_within(stack@[k].1@, visited@) by {
                            if k < s0.len() {
                                assert(stack@[k] == s0[k]);
                                lemma_simple_grow(s0[k].1@, vis_before, visited@);
                            }
                        }
                    }
                }
                i = i + 1;
            }
            proof {
                assert forall|v: T, w: T|
                    visited@.contains(v) && !stack_vertices(stack@).contains(v) && adj[v].contains(
                        w,
                    ) implies visited@.contains(w) by {
                    if v == current {
                        let k = choose|k: int| 0 <= k < neighbors@.len() && neighbors@[k] == w;
                        assert(visited@.contains(neighbors@[k]));
                    }
                }
                if visited@.contains(*target) {
                    assert(stack_vertices(stack@).contains(*target));
                }
            }
        }
    }
}

} // verus!
