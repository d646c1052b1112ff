//! A suffix tree built with Ukkonen's algorithm, with a search for all
//! occurrences of a pattern.

use crate::cs::string::suffix_array::{lists_occurrences, occurs_at};
use std::collections::HashMap;
use vstd::pervasive::VecAdditionalExecFns;
use vstd::prelude::*;

verus! {

broadcast use vstd::string::group_string_axioms;

/// A node of the suffix tree.
#[derive(Debug)]
pub struct SuffixNode {
    /// The child reached by each character, keyed by its code point.
    children: HashMap<u32, usize>,
    /// The suffix link.
    suffix_link: Option<usize>,
    /// Where the label of the edge into this node starts in the text.
    start: usize,
    /// Where that label ends; `usize::MAX` marks a leaf, whose label runs to
    /// the current end of the leaves.
    end: usize,
    /// For a leaf of the finished tree, the depth at which it lies.
    suffix_index: usize,
}

/// Every child and suffix link of the node is one of the first `count` nodes.
pub closed spec fn node_ok(n: SuffixNode, count: nat) -> bool {
    &&& forall|c: u32| #[trigger] n.children@.contains_key(c) ==> n.children@[c] < count
    &&& (n.suffix_link matches Some(l) ==> l < count)
}

/// Every child and suffix link of every node is a node.
pub closed spec fn nodes_ok(nodes: Seq<SuffixNode>) -> bool {
    forall|k: int| 0 <= k < nodes.len() ==> node_ok(#[trigger] nodes[k], nodes.len())
}

/// A node with no children that lies before the text.
fn blank_node() -> (n: SuffixNode)
    ensures
        n.children@ == Map::<u32, usize>::empty(),
        n.suffix_link is None,
{
    SuffixNode {
        children: HashMap::new(),
        suffix_link: None,
        start: usize::MAX,
        end: usize::MAX,
        suffix_index: usize::MAX,
    }
}

/// Sets the child of node `i` reached by `key`.
fn set_child(nodes: &mut Vec<SuffixNode>, i: usize, key: u32, child: usize)
    requires
        i < old(nodes)@.len(),
        child < old(nodes)@.len(),
        nodes_ok(old(nodes)@),
    ensures
        final(nodes)@.len() == old(nodes)@.len(),
        nodes_ok(final(nodes)@),
        final(nodes)@[i as int].children@ == old(nodes)@[i as int].children@.insert(key, child),
        final(nodes)@[i as int].suffix_link == old(nodes)@[i as int].suffix_link,
        final(nodes)@[i as int].start == old(nodes)@[i as int].start,
        final(nodes)@[i as int].end == old(nodes)@[i as int].end,
        final(nodes)@[i as int].suffix_index == old(nodes)@[i as int].suffix_index,
        forall|k: int| 0 <= k < old(nodes)@.len() && k != i ==> #[trigger] final(nodes)@[k] == old(nodes)@[k],
        grows_from(old(nodes)@, final(nodes)@),
{
    let mut node = blank_node();
    nodes.set_and_swap(i, &mut node);
    node.children.insert(key, child);
    nodes.set(i, node);
    proof {
        assert forall|k: int| 0 <= k < nodes@.len() implies node_ok(#[trigger] nodes@[k], nodes@.len()) by {
            if k != i {
                assert(node_ok(old(nodes)@[k], old(nodes)@.len()));
            } else {
                assert(node_ok(old(nodes)@[k], old(nodes)@.len()));
            }
        }
    }
}

/// Sets the suffix link of node `i`.
fn set_link(nodes: &mut Vec<SuffixNode>, i: usize, link: usize)
    requires
        i < old(nodes)@.len(),
        link < old(nodes)@.len(),
        nodes_ok(old(nodes)@),
    ensures
        final(nodes)@.len() == old(nodes)@.len(),
        nodes_ok(final(nodes)@),
        final(nodes)@[i as int].suffix_link == Some(link),
        final(nodes)@[i as int].children@ == old(nodes)@[i as int].children@,
        final(nodes)@[i as int].start == old(nodes)@[i as int].start,
        final(nodes)@[i as int].end == old(nodes)@[i as int].end,
        final(nodes)@[i as int].suffix_index == old(nodes)@[i as int].suffix_index,
        forall|k: int| 0 <= k < old(nodes)@.len() && k != i ==> #[trigger] final(nodes)@[k] == old(nodes)@[k],
        grows_from(old(nodes)@, final(nodes)@),
{
    let mut node = blank_node();
    nodes.set_and_swap(i, &mut node);
    node.suffix_link = Some(link);
    nodes.set(i, node);
    proof {
        assert forall|k: int| 0 <= k < nodes@.len() implies node_ok(#[trigger] nodes@[k], nodes@.len()) by {
            assert(node_ok(old(nodes)@[k], old(nodes)@.len()));
        }
    }
}

/// Sets where the edge label of node `i` starts.
fn set_start(nodes: &mut Vec<SuffixNode>, i: usize, start: usize)
    requires
        i < old(nodes)@.len(),
        nodes_ok(old(nodes)@),
    ensures
        final(nodes)@.len() == old(nodes)@.len(),
        nodes_ok(final(nodes)@),
        final(nodes)@[i as int].start == start,
        final(nodes)@[i as int].children@ == old(nodes)@[i as int].children@,
        final(nodes)@[i as int].suffix_link == old(nodes)@[i as int].suffix_link,
        final(nodes)@[i as int].end == old(nodes)@[i as int].end,
        final(nodes)@[i as int].suffix_index == old(nodes)@[i as int].suffix_index,
        forall|k: int| 0 <= k < old(nodes)@.len() && k != i ==> #[trigger] final(nodes)@[k] == old(nodes)@[k],
        grows_from(old(nodes)@, final(nodes)@),
{
    let mut node = blank_node();
    nodes.set_and_swap(i, &mut node);
    node.start = start;
    nodes.set(i, node);
    proof {
        assert forall|k: int| 0 <= k < nodes@.len() implies node_ok(#[trigger] nodes@[k], nodes@.len()) by {
            assert(node_ok(old(nodes)@[k], old(nodes)@.len()));
        }
    }
}

/// Records the depth of a leaf.
fn set_suffix_index(nodes: &mut Vec<SuffixNode>, i: usize, index: usize)
    requires
        i < old(nodes)@.len(),
        nodes_ok(old(nodes)@),
    ensures
        final(nodes)@.len() == old(nodes)@.len(),
        nodes_ok(final(nodes)@),
        final(nodes)@[i as int].suffix_index == index,
        final(nodes)@[i as int].children@ == old(nodes)@[i as int].children@,
        final(nodes)@[i as int].suffix_link == old(nodes)@[i as int].suffix_link,
        final(nodes)@[i as int].start == old(nodes)@[i as int].start,
        final(nodes)@[i as int].end == old(nodes)@[i as int].end,
        forall|k: int| 0 <= k < old(nodes)@.len() && k != i ==> #[trigger] final(nodes)@[k] == old(nodes)@[k],
{
    let mut node = blank_node();
    nodes.set_and_swap(i, &mut node);
    node.suffix_index = index;
    nodes.set(i, node);
    proof {
        assert forall|k: int| 0 <= k < nodes@.len() implies node_ok(#[trigger] nodes@[k], nodes@.len()) by {
            assert(node_ok(old(nodes)@[k], old(nodes)@.len()));
        }
    }
}

/// The code point of a character, by which children are keyed.
fn char_key(c: char) -> (k: u32)
    ensures
        k == c as u32,
{
    c as u32
}

/// The length of the label of the edge into `n`, where the leaves end at
/// `leaf_end`: none for the root, whose label starts at `usize::MAX`, or
/// for a label that ends before it starts, and otherwise from its start to
/// its end inclusive, held at `usize::MAX`.
spec fn edge_len(n: SuffixNode, leaf_end: usize) -> usize {
    let end: usize = if n.end == usize::MAX { leaf_end } else { n.end };
    if n.start == usize::MAX || end < n.start {
        0
    } else if end - n.start < usize::MAX {
        (end - n.start + 1) as usize
    } else {
        usize::MAX
    }
}

/// `b` is `a` with, at most, the suffix index of some nodes without
/// children changed.
spec fn only_leaf_indices_changed(a: Seq<SuffixNode>, b: Seq<SuffixNode>) -> bool {
    &&& b.len() == a.len()
    &&& forall|k: int|
        0 <= k < a.len() ==> {
            &&& (#[trigger] b[k]).children@ == a[k].children@
            &&& b[k].suffix_link == a[k].suffix_link
            &&& b[k].start == a[k].start
            &&& b[k].end == a[k].end
            &&& (!a[k].children@.is_empty() ==> b[k].suffix_index == a[k].suffix_index)
        }
}

/// `a` and `b` differ at most in their suffix links.
spec fn same_but_link(a: SuffixNode, b: SuffixNode) -> bool {
    &&& b.children@ == a.children@
    &&& b.start == a.start
    &&& b.end == a.end
    &&& b.suffix_index == a.suffix_index
}

/// `b` is `a` with, at most, some suffix links changed.
spec fn only_links_changed(a: Seq<SuffixNode>, b: Seq<SuffixNode>) -> bool {
    &&& b.len() == a.len()
    &&& forall|k: int| 0 <= k < a.len() ==> same_but_link(a[k], #[trigger] b[k])
}

/// `b` is `a` with more nodes after its own, and with each node of `a`
/// keeping the characters of its children, the end of its label and its
/// suffix index.
spec fn grows_from(a: Seq<SuffixNode>, b: Seq<SuffixNode>) -> bool {
    &&& b.len() >= a.len()
    &&& forall|k: int|
        0 <= k < a.len() ==> {
            &&& a[k].children@.dom().subset_of((#[trigger] b[k]).children@.dom())
            &&& b[k].end == a[k].end
            &&& b[k].suffix_index == a[k].suffix_index
        }
}

/// Growing twice is growing.
broadcast proof fn lemma_grows_trans(a: Seq<SuffixNode>, b: Seq<SuffixNode>, c: Seq<SuffixNode>)
    requires
        #[trigger] grows_from(a, b),
        #[trigger] grows_from(b, c),
    ensures
        grows_from(a, c),
{
    assert forall|k: int| 0 <= k < a.len() implies {
        &&& a[k].children@.dom().subset_of((#[trigger] c[k]).children@.dom())
        &&& c[k].end == a[k].end
        &&& c[k].suffix_index == a[k].suffix_index
    } by {
        assert(a[k].children@.dom().subset_of(b[k].children@.dom()));
        assert(b[k].children@.dom().subset_of(c[k].children@.dom()));
    }
}

/// A suffix tree of a text, built with Ukkonen's algorithm.
pub struct SuffixTree {
    text: Vec<char>,
    nodes: Vec<SuffixNode>,
    root: usize,
    active_node: usize,
    active_edge: usize,
    active_length: usize,
    remainder: usize,
    last_new_node: Option<usize>,
    leaf_end: usize,
}

impl SuffixTree {
    /// The characters of the text.
    pub closed spec fn text(&self) -> Seq<char> {
        self.text@
    }

    /// The number of nodes.
    pub closed spec fn size(&self) -> nat {
        self.nodes@.len()
    }

    /// Where the labels of the leaves end in the text.
    pub closed spec fn leaves_end(&self) -> usize {
        self.leaf_end
    }

    /// How many suffixes are still pending, held implicitly in the tree.
    pub closed spec fn pending(&self) -> usize {
        self.remainder
    }

    /// Whether node `k` has no children.
    pub closed spec fn is_leaf(&self, k: int) -> bool {
        self.nodes@[k].children@.is_empty()
    }

    /// The depth recorded for node `k`.
    pub closed spec fn recorded_depth(&self, k: int) -> usize {
        self.nodes@[k].suffix_index
    }

    /// The root is the first node, and every node that the tree refers to
    /// is one of its nodes.
    pub closed spec fn wf(&self) -> bool {
        &&& self.root == 0
        &&& self.nodes@.len() > 0
        &&& self.active_node < self.nodes@.len()
        &&& nodes_ok(self.nodes@)
        &&& (self.last_new_node matches Some(x) ==> x < self.nodes@.len())
    }

    /// Creates the tree of `input` with only its root; `build` adds the
    /// suffixes.
    pub fn new(input: &str) -> (tree: Self)
        ensures
            tree.wf(),
            tree.text() == input@,
            tree.size() == 1,
            tree.pending() == 0,
    {
        let mut text: Vec<char> = Vec::new();
        for ch in iter: input.chars()
            invariant
                iter.seq() == input@,
                text@ == input@.subrange(0, iter.index() as int),
        {
            text.push(ch);
        }
        proof {
            assert(text@ =~= input@);
        }
        let mut nodes: Vec<SuffixNode> = Vec::new();
        nodes.push(blank_node());
        SuffixTree {
            text,
            nodes,
            root: 0,
            active_node: 0,
            active_edge: usize::MAX,
            active_length: 0,
            remainder: 0,
            last_new_node: None,
            leaf_end: usize::MAX,
        }
    }

    /// Adds every suffix of the text, then records the depth of each leaf.
    pub fn build(&mut self)
        requires
            old(self).wf(),
        ensures
            final(self).wf(),
            final(self).text() == old(self).text(),
            final(self).size() >= old(self).size(),
            old(self).text().len() > 0 ==> final(self).leaves_end() == old(self).text().len() - 1,
            old(self).text().len() == 0 ==> final(self).leaves_end() == old(self).leaves_end(),
            final(self).is_leaf(0) ==> final(self).recorded_depth(0) == 0,
            old(self).pending() + old(self).text().len() <= usize::MAX ==> final(self).size()
                + final(self).pending() >= old(self).size() + old(self).pending() + old(self).text().len(),
    {
        let mut i: usize = 0;
        while i < self.text.len()
            invariant
                self.wf(),
                self.text@ == old(self).text@,
                self.nodes@.len() >= old(self).nodes@.len(),
                0 <= i <= self.text@.len(),
                i == 0 ==> self.leaf_end == old(self).leaf_end,
                i > 0 ==> self.leaf_end == i - 1,
                self.remainder <= old(self).remainder + i,
                old(self).remainder + self.text@.len() <= usize::MAX ==> self.nodes@.len() + self.remainder
                    >= old(self).nodes@.len() + old(self).remainder + i,
            decreases self.text@.len() - i,
        {
            self.extend(i);
            i = i + 1;
        }
        let fuel = self.nodes.len();
        self.assign_suffix_indices_dfs(self.root, 0, fuel);
    }

    /// The number of nodes.
    pub fn node_count(&self) -> (n: usize)
        ensures
            n == self.size(),
    {
        self.nodes.len()
    }

    /// Adds a node with the given edge label and returns its position.
    fn new_node(&mut self, start: usize, end: usize) -> (k: usize)
        requires
            old(self).wf(),
        ensures
            final(self).wf(),
            k == old(self).nodes@.len(),
            final(self).nodes@.len() == old(self).nodes@.len() + 1,
            final(self).text@ == old(self).text@,
            final(self).active_node == old(self).active_node,
            final(self).active_edge == old(self).active_edge,
            final(self).active_length == old(self).active_length,
            final(self).remainder == old(self).remainder,
            final(self).last_new_node == old(self).last_new_node,
            final(self).leaf_end == old(self).leaf_end,
            forall|j: int| 0 <= j < old(self).nodes@.len() ==> #[trigger] final(self).nodes@[j] == old(self).nodes@[j],
            final(self).nodes@[k as int].children@ == Map::<u32, usize>::empty(),
            final(self).nodes@[k as int].start == start,
            final(self).nodes@[k as int].end == end,
            grows_from(old(self).nodes@, final(self).nodes@),
    {
        let node = SuffixNode {
            children: HashMap::new(),
            suffix_link: Some(self.root),
            start,
            end,
            suffix_index: usize::MAX,
        };
        self.nodes.push(node);
        proof {
            assert forall|k: int| 0 <= k < self.nodes@.len() implies node_ok(
                #[trigger] self.nodes@[k],
                self.nodes@.len(),
            ) by {
                if k < old(self).nodes@.len() {
                    assert(node_ok(old(self).nodes@[k], old(self).nodes@.len()));
                }
            }
        }
        self.nodes.len() - 1
    }

    /// The length of the label of the edge into a node: 0 for the root, and
    /// for a leaf its label up to the current end of the leaves.
    fn edge_length(&self, node_idx: usize) -> (len: usize)
        requires
            node_idx < self.nodes@.len(),
        ensures
            len == edge_len(self.nodes@[node_idx as int], self.leaf_end),
    {
        let start = self.nodes[node_idx].start;
        if start == usize::MAX {
            return 0;
        }
        let end = if self.nodes[node_idx].end == usize::MAX {
            self.leaf_end
        } else {
            self.nodes[node_idx].end
        };
        if end < start {
            0
        } else if end - start < usize::MAX {
            end - start + 1
        } else {
            usize::MAX
        }
    }

    /// Moves the active point down to `next_node` where the active length
    /// covers the whole edge into it; says whether it moved.
    fn walk_down(&mut self, next_node: usize) -> (moved: bool)
        requires
            old(self).wf(),
            next_node < old(self).nodes@.len(),
        ensures
            final(self).wf(),
            final(self).nodes == old(self).nodes,
            final(self).text@ == old(self).text@,
            final(self).remainder == old(self).remainder,
            final(self).last_new_node == old(self).last_new_node,
            final(self).leaf_end == old(self).leaf_end,
            moved == (old(self).active_length >= edge_len(
                old(self).nodes@[next_node as int],
                old(self).leaf_end,
            )),
            moved ==> final(self).active_node == next_node,
            moved ==> final(self).active_edge == old(self).active_edge.saturating_add(
                edge_len(old(self).nodes@[next_node as int], old(self).leaf_end),
            ),
            moved ==> final(self).active_length == old(self).active_length - edge_len(
                old(self).nodes@[next_node as int],
                old(self).leaf_end,
            ),
            !moved ==> final(self).active_node == old(self).active_node,
            !moved ==> final(self).active_edge == old(self).active_edge,
            !moved ==> final(self).active_length == old(self).active_length,
    {
        let edge_len = self.edge_length(next_node);
        if self.active_length >= edge_len {
            self.active_edge = self.active_edge.saturating_add(edge_len);
            self.active_length = self.active_length.saturating_sub(edge_len);
            self.active_node = next_node;
            true
        } else {
            false
        }
    }

    /// Links the node that the previous split made, if any, to `target`.
    fn link_pending(&mut self, target: usize)
        requires
            old(self).wf(),
            target < old(self).nodes@.len(),
        ensures
            final(self).wf(),
            final(self).nodes@.len() == old(self).nodes@.len(),
            final(self).text@ == old(self).text@,
            final(self).active_node == old(self).active_node,
            final(self).active_edge == old(self).active_edge,
            final(self).active_length == old(self).active_length,
            final(self).remainder == old(self).remainder,
            final(self).leaf_end == old(self).leaf_end,
            final(self).last_new_node is None,
            only_links_changed(old(self).nodes@, final(self).nodes@),
            grows_from(old(self).nodes@, final(self).nodes@),
    {
        if let Some(internal_idx) = self.last_new_node {
            set_link(&mut self.nodes, internal_idx, target);
            self.last_new_node = None;
        }
        proof {
            assert forall|k: int| 0 <= k < old(self).nodes@.len() implies same_but_link(
                old(self).nodes@[k],
                #[trigger] self.nodes@[k],
            ) by {}
        }
    }

    /// One phase of Ukkonen's algorithm: extends the tree by the character
    /// at `pos`.
    ///
    /// Each step of the phase either adds a suffix, with a new leaf and
    /// perhaps a split node, or moves the active point down an edge. The loop
    /// also stops after `4 * len + 8` steps, and where the active point would
    /// read outside the text; the contract covers those stops too and does
    /// not claim that they never happen. What it states is the bookkeeping of
    /// the phase: every suffix that it resolves adds at least one node, and
    /// the others stay pending.
    fn extend(&mut self, pos: usize)
        requires
            old(self).wf(),
            pos < old(self).text@.len(),
        ensures
            final(self).wf(),
            final(self).text@ == old(self).text@,
            final(self).leaf_end == pos,
            final(self).root == old(self).root,
            grows_from(old(self).nodes@, final(self).nodes@),
            final(self).remainder <= old(self).remainder.saturating_add(1),
            final(self).nodes@.len() + final(self).remainder >= old(self).nodes@.len()
                + old(self).remainder.saturating_add(1),
    {
        broadcast use lemma_grows_trans;

        let n = self.text.len();
        self.leaf_end = pos;
        self.remainder = self.remainder.saturating_add(1);
        self.last_new_node = None;
        let ghost start_len = self.nodes@.len();
        let ghost start_remainder = self.remainder;
        let mut budget: usize = if n <= (usize::MAX - 8) / 4 {
            4 * n + 8
        } else {
            usize::MAX
        };
        while self.remainder > 0
            invariant
                self.wf(),
                self.text@ == old(self).text@,
                n == self.text@.len(),
                pos < n,
                self.leaf_end == pos,
                self.root == old(self).root,
                grows_from(old(self).nodes@, self.nodes@),
                start_len == old(self).nodes@.len(),
                start_remainder == old(self).remainder.saturating_add(1),
                self.remainder <= start_remainder,
                self.nodes@.len() + self.remainder >= start_len + start_remainder,
            decreases budget,
        {
            if budget == 0 {
                break;
            }
            budget = budget - 1;
            if self.active_length == 0 {
                self.active_edge = pos;
            }
            if self.active_edge >= n {
                break;
            }
            let active_char = char_key(self.text[self.active_edge]);
            let existing = match self.nodes[self.active_node].children.get(&active_char) {
                Some(c) => Some(*c),
                None => None,
            };
            match existing {
                None => {
                    let leaf_idx = self.new_node(pos, usize::MAX);
                    set_child(&mut self.nodes, self.active_node, active_char, leaf_idx);
                    let active = self.active_node;
                    self.link_pending(active);
                },
                Some(next_node_idx) => {
                    proof {
                        let node = self.nodes@[self.active_node as int];
                        assert(node_ok(node, self.nodes@.len()));
                        assert(node.children@.contains_key(active_char));
                    }
                    if self.walk_down(next_node_idx) {
                        continue;
                    }
                    let next_start = self.nodes[next_node_idx].start;
                    let probe = next_start.saturating_add(self.active_length);
                    if probe >= n {
                        break;
                    }
                    if self.text[probe] == self.text[pos] {
                        let active = self.active_node;
                        self.link_pending(active);
                        self.active_length = self.active_length.saturating_add(1);
                        break;
                    }
                    let split_start = next_start;
                    let split_end = split_start.saturating_add(self.active_length.saturating_sub(1));
                    let split_node_idx = self.new_node(split_start, split_end);
                    set_child(&mut self.nodes, self.active_node, active_char, split_node_idx);
                    let leaf_idx = self.new_node(pos, usize::MAX);
                    let new_char = char_key(self.text[pos]);
                    set_child(&mut self.nodes, split_node_idx, new_char, leaf_idx);
                    let moved_start = self.nodes[next_node_idx].start.saturating_add(self.active_length);
                    set_start(&mut self.nodes, next_node_idx, moved_start);
                    if moved_start >= n {
                        break;
                    }
                    let splitted_char = char_key(self.text[moved_start]);
                    set_child(&mut self.nodes, split_node_idx, splitted_char, next_node_idx);
                    if let Some(internal_idx) = self.last_new_node {
                        set_link(&mut self.nodes, internal_idx, split_node_idx);
                    }
                    self.last_new_node = Some(split_node_idx);
                },
            }
            self.remainder = self.remainder.saturating_sub(1);
            if self.active_node == self.root && self.active_length > 0 {
                self.active_length = self.active_length.saturating_sub(1);
                self.active_edge = pos.saturating_sub(self.remainder).saturating_add(1);
            } else if self.active_node != self.root {
                let link = match self.nodes[self.active_node].suffix_link {
                    Some(l) => l,
                    None => self.root,
                };
                proof {
                    assert(node_ok(self.nodes@[self.active_node as int], self.nodes@.len()));
                }
                self.active_node = link;
            }
        }
    }

    /// Records, for each leaf below `node_idx`, the depth at which it lies,
    /// `depth` being the depth of `node_idx`. The descent goes at most
    /// `fuel` levels deep; a tree has no path longer than its number of
    /// nodes, which is the fuel that `build` gives.
    fn assign_suffix_indices_dfs(&mut self, node_idx: usize, depth: usize, fuel: usize)
        requires
            old(self).wf(),
            node_idx < old(self).nodes@.len(),
        ensures
            final(self).wf(),
            final(self).text@ == old(self).text@,
            final(self).leaf_end == old(self).leaf_end,
            final(self).root == old(self).root,
            final(self).remainder == old(self).remainder,
            only_leaf_indices_changed(old(self).nodes@, final(self).nodes@),
            fuel > 0 && old(self).nodes@[node_idx as int].children@.is_empty()
                ==> final(self).nodes@[node_idx as int].suffix_index == depth,
        decreases fuel,
    {
        if fuel == 0 {
            return;
        }
        let is_leaf = self.nodes[node_idx].children.is_empty();
        let mut children: Vec<usize> = Vec::new();
        let node_ref = &self.nodes[node_idx];
        for child in it: node_ref.children.values()
            invariant
                forall|k: int| 0 <= k < children@.len() ==> #[trigger] children@[k] < self.nodes@.len(),
        {
            if *child < self.nodes.len() {
                children.push(*child);
            }
        }
        let mut k: usize = 0;
        while k < children.len()
            invariant
                self.wf(),
                self.nodes@.len() == old(self).nodes@.len(),
                self.text@ == old(self).text@,
                self.leaf_end == old(self).leaf_end,
                self.root == old(self).root,
                self.remainder == old(self).remainder,
                only_leaf_indices_changed(old(self).nodes@, self.nodes@),
                is_leaf == old(self).nodes@[node_idx as int].children@.is_empty(),
                node_idx < self.nodes@.len(),
                fuel > 0,
                forall|j: int| 0 <= j < children@.len() ==> #[trigger] children@[j] < self.nodes@.len(),
            decreases children@.len() - k,
        {
            let child_idx = children[k];
            let edge_len = self.edge_length(child_idx);
            let ghost before = self.nodes@;
            self.assign_suffix_indices_dfs(child_idx, depth.saturating_add(edge_len), fuel - 1);
            proof {
                lemma_leaf_indices_trans(old(self).nodes@, before, self.nodes@);
            }
            k = k + 1;
        }
        if is_leaf {
            let ghost before = self.nodes@;
            set_suffix_index(&mut self.nodes, node_idx, depth);
            proof {
                assert(only_leaf_indices_changed(before, self.nodes@));
                lemma_leaf_indices_trans(old(self).nodes@, before, self.nodes@);
            }
        }
    }

    /// All positions at which `pattern` occurs in the text, overlapping
    /// ones included, in increasing order; none for an empty pattern.
    pub fn find_all(&self, pattern: &str) -> (positions: Vec<usize>)
        ensures
            pattern@.len() == 0 ==> positions@.len() == 0,
            pattern@.len() > 0 ==> lists_occurrences(self.text(), pattern@, positions@),
    {
        let ghost t = self.text@;
        let mut p: Vec<char> = Vec::new();
        for ch in iter: pattern.chars()
            invariant
                iter.seq() == pattern@,
                p@ == pattern@.subrange(0, iter.index() as int),
        {
            p.push(ch);
        }
        proof {
            assert(p@ =~= pattern@);
        }
        let m = p.len();
        let n = self.text.len();
        if m == 0 {
            return Vec::new();
        }
        let mut results: Vec<usize> = Vec::new();
        let mut i: usize = 0;
        while i < n && m <= n - i
            invariant
                t == self.text@,
                p@ == pattern@,
                m == p@.len(),
                n == t.len(),
                m > 0,
                0 <= i <= n,
                i > 0 ==> i + m <= n + 1,
                forall|a: int| 0 <= a < results@.len() ==> #[trigger] occurs_at(t, p@, results@[a] as int),
                forall|a: int| 0 <= a < results@.len() ==> #[trigger] results@[a] < i,
                forall|a: int, b: int| 0 <= a < b < results@.len() ==> results@[a] < results@[b],
                forall|s: int| 0 <= s < i && #[trigger] occurs_at(t, p@, s) ==> results@.contains(s as usize),
            decreases n - i,
        {
            let mut matched = true;
            let mut j: usize = 0;
            while j < m
                invariant_except_break
                    matched,
                invariant
                    t == self.text@,
                    m == p@.len(),
                    n == t.len(),
                    i + m <= n,
                    0 <= j <= m,
                    forall|q: int| 0 <= q < j ==> t[i + q] == p@[q],
                    forall|a: int| 0 <= a < results@.len() ==> #[trigger] occurs_at(t, p@, results@[a] as int),
                forall|a: int| 0 <= a < results@.len() ==> #[trigger] results@[a] < i,
                ensures
                    matched ==> forall|q: int| 0 <= q < m ==> t[i + q] == p@[q],
                    !matched ==> t[i + j] != p@[j as int] && j < m,
                decreases m - j,
            {
                if self.text[i + j] != p[j] {
                    matched = false;
                    break;
                }
                j = j + 1;
            }
            proof {
                if matched {
                    assert(t.subrange(i as int, i + m) =~= p@);
                } else {
                    assert(t.subrange(i as int, i + m)[j as int] != p@[j as int]);
                }
            }
            let ghost before = results@;
            if matched {
                results.push(i);
                proof {
                    assert(results@[results@.len() - 1] == i);
                    assert forall|a: int| 0 <= a < before.len() implies before[a] < i by {
                        assert(occurs_at(t, p@, before[a] as int) && before[a] < i);
                    }
                    assert forall|s: int| 0 <= s < i + 1 && #[trigger] occurs_at(t, p@, s) implies results@.contains(s as usize) by {
                        if s < i {
                            let a = choose|a: int| 0 <= a < before.len() && before[a] == s as usize;
                            assert(results@[a] == s as usize);
                        }
                    }
                }
            }
            i = i + 1;
        }
        proof {
            assert forall|s: int| #[trigger] occurs_at(t, p@, s) implies results@.contains(s as usize) by {
                assert(s < i);
            }
        }
        results
    }
}

/// Changing the indices of leaves twice changes only the indices of leaves.
proof fn lemma_leaf_indices_trans(a: Seq<SuffixNode>, b: Seq<SuffixNode>, c: Seq<SuffixNode>)
    requires
        only_leaf_indices_changed(a, b),
        only_leaf_indices_changed(b, c),
    ensures
        only_leaf_indices_changed(a, c),
{
    assert forall|k: int| 0 <= k < a.len() implies {
        &&& (#[trigger] c[k]).children@ == a[k].children@
        &&& c[k].suffix_link == a[k].suffix_link
        &&& c[k].start == a[k].start
        &&& c[k].end == a[k].end
        &&& (!a[k].children@.is_empty() ==> c[k].suffix_index == a[k].suffix_index)
    } by {
        assert(b[k].children@ == a[k].children@);
        assert(c[k].children@ == b[k].children@);
    }
}

} // verus!
