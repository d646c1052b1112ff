//! A suffix automaton: the smallest automaton that accepts the substrings of
//! a text, with the end positions of each state for finding occurrences.

use crate::order::sorted;
use crate::permutation::{permutes, sort_unstable};
use std::collections::HashMap;
use vstd::pervasive::VecAdditionalExecFns;
use vstd::prelude::*;

verus! {

broadcast use {vstd::string::group_string_axioms, vstd::seq_lib::group_to_multiset_ensures};

/// A state of the automaton.
#[derive(Debug, Clone)]
struct State {
    /// The length of the longest substring that leads to this state.
    len: usize,
    /// The suffix link.
    link: Option<usize>,
    /// The transitions, keyed by the code point of their character.
    next: HashMap<u32, usize>,
    /// The end positions of the substrings of this state, each once.
    end_pos: Vec<usize>,
    /// Whether the state lies on the suffix path of the whole text.
    is_terminal: bool,
}

/// Every transition and link of the state leads to one of the first `count`
/// states, and its end positions lie before `limit`, each once.
spec fn state_ok(s: State, count: nat, limit: nat) -> bool {
    &&& forall|c: u32| #[trigger] s.next@.contains_key(c) ==> s.next@[c] < count
    &&& (s.link matches Some(l) ==> l < count)
    &&& forall|k: int| 0 <= k < s.end_pos@.len() ==> #[trigger] s.end_pos@[k] < limit
    &&& s.end_pos@.no_duplicates()
}

/// Every state is well formed.
spec fn states_ok(states: Seq<State>, limit: nat) -> bool {
    forall|k: int| 0 <= k < states.len() ==> state_ok(#[trigger] states[k], states.len(), limit)
}

/// `b` is `a`, marked terminal if `a` is.
spec fn marks_added(a: State, b: State) -> bool {
    &&& b.len == a.len
    &&& b.link == a.link
    &&& b.next@ == a.next@
    &&& b.end_pos@ == a.end_pos@
    &&& (a.is_terminal ==> b.is_terminal)
}

/// `b` is `a` with, at most, more states marked terminal.
spec fn only_marks_added(a: Seq<State>, b: Seq<State>) -> bool {
    &&& b.len() == a.len()
    &&& forall|k: int| 0 <= k < a.len() ==> marks_added(a[k], #[trigger] b[k])
}

/// Every value of `a` is a value of `b`.
spec fn includes(a: Seq<usize>, b: Seq<usize>) -> bool {
    forall|x: usize| #[trigger] a.contains(x) ==> b.contains(x)
}

/// `b` is `a` with, at most, more end positions.
spec fn positions_added(a: State, b: State) -> bool {
    &&& b.len == a.len
    &&& b.link == a.link
    &&& b.next@ == a.next@
    &&& b.is_terminal == a.is_terminal
    &&& includes(a.end_pos@, b.end_pos@)
}

/// `b` is `a` with, at most, more end positions in some states.
spec fn only_positions_added(a: Seq<State>, b: Seq<State>) -> bool {
    &&& b.len() == a.len()
    &&& forall|k: int| 0 <= k < a.len() ==> positions_added(a[k], #[trigger] b[k])
}

/// Every end position of a state of `b` is one of some state of `a`.
spec fn positions_come_from(a: Seq<State>, b: Seq<State>) -> bool {
    forall|k: int, x: usize|
        0 <= k < b.len() && #[trigger] b[k].end_pos@.contains(x) ==> exists|j: int|
            0 <= j < a.len() && #[trigger] a[j].end_pos@.contains(x)
}

/// The end positions that state `k` has in `a` are among those that its
/// suffix link has in `b`.
spec fn handed_to_link(a: Seq<State>, b: Seq<State>, k: int) -> bool {
    a[k].link matches Some(l) ==> includes(a[k].end_pos@, b[l as int].end_pos@)
}

/// Every suffix link leads to a state with a smaller length.
spec fn links_shorter(s: Seq<State>) -> bool {
    forall|k: int|
        0 <= k < s.len() ==> ((#[trigger] s[k]).link matches Some(l) ==> l < s.len() && s[l as int].len < s[k].len)
}

/// The end positions of state `k` are among those of its suffix link.
spec fn closed_at(s: Seq<State>, k: int) -> bool {
    s[k].link matches Some(l) ==> includes(s[k].end_pos@, s[l as int].end_pos@)
}

/// The end positions of every state are among those of its suffix link.
spec fn positions_closed(s: Seq<State>) -> bool {
    forall|k: int| 0 <= k < s.len() ==> #[trigger] closed_at(s, k)
}

/// While the state ordered at place `idx` hands its end positions on, a
/// state ordered after it, whose positions are already among its link's,
/// keeps that: its own positions stay, for its link is ordered before `idx`
/// only if shorter, and its link's positions only grow.
proof fn lemma_closed_stays(
    start: Seq<State>,
    outer: Seq<State>,
    now: Seq<State>,
    x: int,
    i: int,
    order: Seq<usize>,
    lens: Seq<usize>,
    idx: int,
    jj: int,
)
    requires
        links_shorter(start),
        only_positions_added(start, outer),
        only_positions_added(outer, now),
        outer.len() == start.len(),
        0 <= idx < jj < order.len(),
        order.len() == start.len(),
        lens.len() == start.len(),
        forall|j: int| 0 <= j < order.len() ==> #[trigger] order[j] < start.len(),
        forall|j: int| 0 <= j < start.len() ==> #[trigger] lens[j] == start[j].len,
        forall|a: int, b: int|
            0 <= a <= b < order.len() ==> lens[#[trigger] order[a] as int] <= lens[#[trigger] order[b] as int],
        x == order[jj] as int,
        i == order[idx] as int,
        closed_at(outer, x),
        start[i].link matches Some(li) ==> forall|k: int| 0 <= k < start.len() && k != li ==> #[trigger] now[k] == outer[k],
        start[i].link is None ==> now == outer,
    ensures
        closed_at(now, x),
{
    assert(positions_added(start[x], outer[x]));
    if let Some(l) = outer[x].link {
        assert(start[x].link == Some(l));
        assert(positions_added(outer[l as int], now[l as int]));
        if let Some(li) = start[i].link {
            if x == li as int {
                assert(start[x].len < start[i].len);
                assert(lens[order[idx] as int] <= lens[order[jj] as int]);
            }
            assert(now[x] == outer[x]);
        }
    }
}

/// Adding end positions twice adds end positions.
proof fn lemma_positions_trans(a: Seq<State>, b: Seq<State>, c: Seq<State>)
    requires
        only_positions_added(a, b),
        only_positions_added(b, c),
    ensures
        only_positions_added(a, c),
{
    assert forall|k: int| 0 <= k < a.len() implies positions_added(a[k], #[trigger] c[k]) by {
        assert(positions_added(a[k], b[k]));
        assert(positions_added(b[k], c[k]));
    }
}

/// What a state handed to its link stays there while end positions are added.
proof fn lemma_handed_stays(a: Seq<State>, b: Seq<State>, c: Seq<State>, k: int)
    requires
        handed_to_link(a, b, k),
        only_positions_added(b, c),
        0 <= k < a.len(),
        a[k].link matches Some(l) ==> 0 <= l < b.len(),
    ensures
        handed_to_link(a, c, k),
{
    if let Some(l) = a[k].link {
        assert(positions_added(b[l as int], c[l as int]));
    }
}

/// `b` has the length, end positions and terminal mark of `a`.
spec fn same_content(a: State, b: State) -> bool {
    &&& b.len == a.len
    &&& b.end_pos@ == a.end_pos@
    &&& b.is_terminal == a.is_terminal
}

/// Every character on which `a` has a transition, `b` has one on too.
spec fn keys_kept(a: State, b: State) -> bool {
    forall|c: u32| #[trigger] a.next@.contains_key(c) ==> b.next@.contains_key(c)
}

/// `b` has the transitions of `a` on the same characters, each to the same
/// state but that on `key`, which may lead to `to` where it led to `from`.
spec fn redirected(a: State, b: State, key: u32, from: usize, to: usize) -> bool {
    &&& forall|c: u32| #[trigger] b.next@.contains_key(c) == a.next@.contains_key(c)
    &&& forall|c: u32|
        #[trigger] b.next@.contains_key(c) ==> b.next@[c] == a.next@[c] || (c == key && a.next@[c] == from
            && b.next@[c] == to)
}

/// Whether the state that `p` leads to on `key` is too long to be the link
/// of the new state, so that it is cloned.
spec fn needs_clone(s: Seq<State>, p: usize, key: u32) -> bool {
    &&& p != usize::MAX
    &&& s[p as int].next@.contains_key(key)
    &&& s[p as int].len.saturating_add(1) != s[s[p as int].next@[key] as int].len
}

/// The state of `b` just past those of `a` is a clone of state `q` of `a`
/// with length `len`: it has the transitions and the link of `q`, no end
/// positions, and no terminal mark.
spec fn cloned_from(a: Seq<State>, b: Seq<State>, q: int, len: usize) -> bool {
    let c = b[a.len() as int];
    &&& c.len == len
    &&& c.next@ == a[q].next@
    &&& c.link == a[q].link
    &&& c.end_pos@.len() == 0
    &&& !c.is_terminal
}

/// The suffix link of `s`, or the root where it has none.
spec fn link_or_root(s: State) -> usize {
    match s.link {
        Some(l) => l,
        None => 0,
    }
}

/// The state reached from `p` by following `i` suffix links, a missing link
/// leading to the root.
spec fn follow(s: Seq<State>, p: int, i: nat) -> int
    decreases i,
{
    if i == 0 {
        p
    } else {
        link_or_root(s[follow(s, p, (i - 1) as nat)]) as int
    }
}

/// None of the first `i + 1` states on the path of suffix links from `p` is
/// the root.
spec fn before_root(s: Seq<State>, p: int, i: nat) -> bool {
    forall|j: nat| j <= i ==> #[trigger] follow(s, p, j) != 0
}

/// Whether state `k` is one of the states on the path of suffix links from
/// `p`, within its first `count` states, before the root.
spec fn on_suffix_path(s: Seq<State>, p: int, k: int, count: nat) -> bool {
    exists|i: nat| i < count && before_root(s, p, i) && #[trigger] follow(s, p, i) == k
}

/// The state reached from `p` by following `j` suffix links; `usize::MAX`
/// once a state on the way has no link, or `p` is no state.
spec fn link_path(s: Seq<State>, p: usize, j: nat) -> usize
    decreases j,
{
    if j == 0 {
        p
    } else {
        let x = link_path(s, p, (j - 1) as nat);
        if x < s.len() {
            match s[x as int].link {
                Some(l) => l,
                None => usize::MAX,
            }
        } else {
            usize::MAX
        }
    }
}

/// The first `i + 1` states on the suffix path from `p` exist and lead to
/// `q` on `key`.
spec fn path_leads_to(s: Seq<State>, p: usize, key: u32, q: usize, i: nat) -> bool {
    forall|j: nat|
        j <= i ==> {
            let x = #[trigger] link_path(s, p, j);
            &&& x < s.len()
            &&& s[x as int].next@.contains_key(key)
            &&& s[x as int].next@[key] == q
        }
}

/// The first `i + 1` states on the suffix path from `p` exist and have no
/// transition on `key`.
spec fn path_lacks(s: Seq<State>, p: usize, key: u32, i: nat) -> bool {
    forall|j: nat|
        j <= i ==> {
            let x = #[trigger] link_path(s, p, j);
            &&& x < s.len()
            &&& !s[x as int].next@.contains_key(key)
        }
}

/// Two places on a suffix path that hold the same state go on alike.
proof fn lemma_link_path_periodic(s: Seq<State>, p: usize, a: nat, b: nat, t: nat)
    requires
        link_path(s, p, a) == link_path(s, p, b),
    ensures
        link_path(s, p, a + t) == link_path(s, p, b + t),
    decreases t,
{
    if t > 0 {
        lemma_link_path_periodic(s, p, a, b, (t - 1) as nat);
        assert(link_path(s, p, a + t) == link_path(s, p, (a + (t - 1)) as nat + 1));
        assert(link_path(s, p, b + t) == link_path(s, p, (b + (t - 1)) as nat + 1));
    }
}

/// Where the path meets again at place `m` a state of place `j0 < m`, every
/// later place holds a state of one of the first `m` places.
proof fn lemma_link_path_repeats(s: Seq<State>, p: usize, j0: nat, m: nat, i: nat) -> (k: nat)
    requires
        j0 < m,
        link_path(s, p, m) == link_path(s, p, j0),
        i >= m,
    ensures
        k < m,
        link_path(s, p, i) == link_path(s, p, k),
    decreases i,
{
    let d = (m - j0) as nat;
    let t = (i - m) as nat;
    lemma_link_path_periodic(s, p, j0, m, t);
    assert(link_path(s, p, j0 + t) == link_path(s, p, i));
    let back = (j0 + t) as nat;
    if back < m {
        back
    } else {
        lemma_link_path_repeats(s, p, j0, m, back)
    }
}

/// How many of the first `upto` states lead to `q` on `key`.
spec fn count_leading(s: Seq<State>, key: u32, q: usize, upto: int) -> nat
    decreases upto,
{
    if upto <= 0 {
        0
    } else {
        count_leading(s, key, q, upto - 1) + if s[upto - 1].next@.contains_key(key) && s[upto
            - 1].next@[key] == q {
            1nat
        } else {
            0nat
        }
    }
}

/// How many of the first `upto` states have no transition on `key`.
spec fn count_lacking(s: Seq<State>, key: u32, upto: int) -> nat
    decreases upto,
{
    if upto <= 0 {
        0
    } else {
        count_lacking(s, key, upto - 1) + if !s[upto - 1].next@.contains_key(key) {
            1nat
        } else {
            0nat
        }
    }
}

/// The counts are at most the number of states counted.
proof fn lemma_counts_bounded(s: Seq<State>, key: u32, q: usize, upto: int)
    requires
        upto >= 0,
    ensures
        count_leading(s, key, q, upto) <= upto,
        count_lacking(s, key, upto) <= upto,
    decreases upto,
{
    if upto > 0 {
        lemma_counts_bounded(s, key, q, upto - 1);
    }
}

/// Changing one state among the first `upto` from leading to `q` on `key`
/// to not doing so lowers that count by one; changing one from lacking a
/// transition on `key` to having one lowers that count by one.
proof fn lemma_counts_update(a: Seq<State>, b: Seq<State>, key: u32, q: usize, r: int, upto: int)
    requires
        0 <= r < upto <= a.len(),
        b.len() == a.len(),
        forall|k: int| 0 <= k < a.len() && k != r ==> #[trigger] b[k] == a[k],
    ensures
        (a[r].next@.contains_key(key) && a[r].next@[key] == q) && !(b[r].next@.contains_key(key)
            && b[r].next@[key] == q) ==> count_leading(b, key, q, upto) + 1 == count_leading(a, key, q, upto),
        !a[r].next@.contains_key(key) && b[r].next@.contains_key(key) ==> count_lacking(b, key, upto) + 1
            == count_lacking(a, key, upto),
    decreases upto,
{
    if upto - 1 > r {
        lemma_counts_update(a, b, key, q, r, upto - 1);
        assert(b[upto - 1] == a[upto - 1]);
    } else {
        lemma_counts_same(a, b, key, q, r);
    }
}

/// The counts over states that two sequences share agree.
proof fn lemma_counts_same(a: Seq<State>, b: Seq<State>, key: u32, q: usize, upto: int)
    requires
        0 <= upto <= a.len(),
        upto <= b.len(),
        forall|k: int| 0 <= k < upto ==> #[trigger] b[k] == a[k],
    ensures
        count_leading(b, key, q, upto) == count_leading(a, key, q, upto),
        count_lacking(b, key, upto) == count_lacking(a, key, upto),
    decreases upto,
{
    if upto > 0 {
        lemma_counts_same(a, b, key, q, upto - 1);
        assert(b[upto - 1] == a[upto - 1]);
    }
}

/// A state with the given length and nothing else.
fn new_state(len: usize) -> (s: State)
    ensures
        s.len == len,
        s.next@ == Map::<u32, usize>::empty(),
        s.link is None,
        s.end_pos@ == Seq::<usize>::empty(),
        !s.is_terminal,
{
    State { len, link: None, next: HashMap::new(), end_pos: Vec::new(), is_terminal: false }
}

/// The code point of a character, by which transitions are keyed.
fn char_key(c: char) -> (k: u32)
    ensures
        k == c as u32,
{
    c as u32
}

/// The code points of the characters, by which transitions are keyed.
pub open spec fn char_keys(s: Seq<char>) -> Seq<u32> {
    s.map_values(|c: char| c as u32)
}

/// A suffix automaton of a text.
pub struct SuffixAutomaton {
    states: Vec<State>,
    last: usize,
    text: Ghost<Seq<char>>,
}

impl SuffixAutomaton {
    /// The text whose substrings the automaton accepts.
    pub closed spec fn text(&self) -> Seq<char> {
        self.text@
    }

    /// The number of states.
    pub closed spec fn state_count(&self) -> nat {
        self.states@.len()
    }

    /// Every suffix link leads to a state whose longest substring is
    /// shorter.
    pub closed spec fn links_shorten(&self) -> bool {
        links_shorter(self.states@)
    }

    /// The end positions of every state are among those of its suffix link.
    pub closed spec fn positions_flow_to_links(&self) -> bool {
        positions_closed(self.states@)
    }

    /// The state of the whole text, the last one added.
    pub closed spec fn last_state(&self) -> int {
        self.last as int
    }

    /// The length of the longest substring that leads to state `s`.
    pub closed spec fn longest_len(&self, s: int) -> nat {
        self.states@[s].len as nat
    }

    /// Whether state `s` lies on the suffix path of the whole text.
    pub closed spec fn is_terminal(&self, s: int) -> bool {
        self.states@[s].is_terminal
    }

    /// The transitions of state `s`, keyed by the code point of their
    /// character.
    pub closed spec fn transitions(&self, s: int) -> Map<u32, usize> {
        self.states@[s].next@
    }

    /// The end positions recorded for state `s`.
    pub closed spec fn end_positions(&self, s: int) -> Seq<usize> {
        self.states@[s].end_pos@
    }

    /// The state reached from `s` by following the transitions keyed by
    /// `keys` in turn, if each of them exists.
    pub open spec fn walk(&self, s: int, keys: Seq<u32>) -> Option<int>
        decreases keys.len(),
    {
        if keys.len() == 0 {
            Some(s)
        } else {
            match self.walk(s, keys.drop_last()) {
                Some(q) => if self.transitions(q).contains_key(keys.last()) {
                    Some(self.transitions(q)[keys.last()] as int)
                } else {
                    None
                },
                None => None,
            }
        }
    }

    /// The root is the first state, every transition and link leads to a
    /// state, and every end position lies in the text.
    pub closed spec fn wf(&self) -> bool {
        &&& self.states@.len() > 0
        &&& self.last < self.states@.len()
        &&& self.text@.len() <= usize::MAX
        &&& states_ok(self.states@, self.text@.len())
    }

    /// Takes state `i` out, leaving a blank state in its place.
    fn take(&mut self, i: usize) -> (s: State)
        requires
            old(self).wf(),
            i < old(self).states@.len(),
        ensures
            final(self).wf(),
            s == old(self).states@[i as int],
            state_ok(s, old(self).states@.len(), old(self).text@.len()),
            final(self).states@.len() == old(self).states@.len(),
            forall|k: int| 0 <= k < old(self).states@.len() && k != i ==> #[trigger] final(self).states@[k] == old(self).states@[k],
            final(self).last == old(self).last,
            final(self).text@ == old(self).text@,
    {
        let mut s = new_state(0);
        self.states.set_and_swap(i, &mut s);
        proof {
            assert(state_ok(old(self).states@[i as int], old(self).states@.len(), old(self).text@.len()));
            assert forall|k: int| 0 <= k < self.states@.len() implies state_ok(
                #[trigger] self.states@[k],
                self.states@.len(),
                self.text@.len(),
            ) by {
                if k != i {
                    assert(state_ok(old(self).states@[k], old(self).states@.len(), old(self).text@.len()));
                }
            }
        }
        s
    }

    /// Puts state `s` in place `i`.
    fn put(&mut self, i: usize, s: State)
        requires
            old(self).wf(),
            i < old(self).states@.len(),
            state_ok(s, old(self).states@.len(), old(self).text@.len()),
        ensures
            final(self).wf(),
            final(self).states@ == old(self).states@.update(i as int, s),
            final(self).last == old(self).last,
            final(self).text@ == old(self).text@,
    {
        self.states.set(i, s);
        proof {
            assert forall|k: int| 0 <= k < self.states@.len() implies state_ok(
                #[trigger] self.states@[k],
                self.states@.len(),
                self.text@.len(),
            ) by {
                if k != i {
                    assert(state_ok(old(self).states@[k], old(self).states@.len(), old(self).text@.len()));
                }
            }
        }
    }

    /// Builds the automaton of `text`.
    pub fn new(text: &str) -> (sa: Self)
        requires
            text@.len() <= usize::MAX,
        ensures
            sa.text() == text@,
            sa.wf(),
            text@.len() + 1 <= sa.state_count() <= 2 * text@.len() + 1,
            0 <= sa.last_state() < sa.state_count(),
            sa.longest_len(sa.last_state()) == text@.len(),
            text@.len() > 0 ==> sa.end_positions(sa.last_state()).contains((text@.len() - 1) as usize),
            sa.is_terminal(0),
            sa.is_terminal(sa.last_state()),
            sa.links_shorten() ==> sa.positions_flow_to_links(),
    {
        let mut states: Vec<State> = Vec::new();
        states.push(new_state(0));
        let mut sa = SuffixAutomaton { states, last: 0, text: Ghost(text@) };
        proof {
            assert(state_ok(sa.states@[0], 1, text@.len()));
        }
        let mut pos: usize = 0;
        for ch in iter: text.chars()
            invariant
                iter.seq() == text@,
                pos == iter.index(),
                sa.text@ == text@,
                text@.len() <= usize::MAX,
                sa.wf(),
                pos + 1 <= sa.states@.len() <= 2 * pos + 1,
                sa.states@[sa.last as int].len == pos,
                pos > 0 ==> sa.states@[sa.last as int].end_pos@.contains((pos - 1) as usize),
        {
            sa.extend(ch, pos);
            proof {
                assert(sa.states@[sa.last as int].end_pos@[0] == pos);
            }
            pos = pos + 1;
        }
        proof {
            assert(pos == text@.len());
        }
        let ghost built = sa.states@;
        sa.mark_terminals();
        proof {
            assert(marks_added(built[sa.last as int], sa.states@[sa.last as int]));
        }
        let ghost marked = sa.states@;
        sa.propagate_positions();
        proof {
            if links_shorter(sa.states@) {
                assert forall|k: int| 0 <= k < marked.len() implies ((#[trigger] marked[k]).link matches Some(l)
                    ==> l < marked.len() && marked[l as int].len < marked[k].len) by {
                    assert(positions_added(marked[k], sa.states@[k]));
                    if let Some(l) = marked[k].link {
                        assert(sa.states@[k].link == Some(l));
                        assert(positions_added(marked[l as int], sa.states@[l as int]));
                    }
                }
            }
            assert(positions_added(marked[sa.last as int], sa.states@[sa.last as int]));
            assert(positions_added(marked[0], sa.states@[0]));
            if pos > 0 {
                assert(marked[sa.last as int].end_pos@.contains((pos - 1) as usize));
            }
        }
        sa
    }

    /// Extends the automaton by the character `ch` at position `pos`.
    ///
    /// Each loop follows suffix links, and also stops after as many steps as
    /// there are states; the contract covers that stop too and does not
    /// claim that it never happens.
    fn extend(&mut self, ch: char, pos: usize)
        requires
            old(self).wf(),
            pos < old(self).text@.len(),
        ensures
            final(self).wf(),
            final(self).text@ == old(self).text@,
            final(self).last == old(self).states@.len(),
            final(self).states@.len() == old(self).states@.len() + 1 || final(self).states@.len()
                == old(self).states@.len() + 2,
            final(self).states@[old(self).states@.len() as int].len == old(self).states@[old(
                self,
            ).last as int].len.saturating_add(1),
            final(self).states@[old(self).states@.len() as int].end_pos@ == seq![pos],
            final(self).states@[old(self).states@.len() as int].link is Some,
            forall|k: int|
                0 <= k < old(self).states@.len() ==> same_content(old(self).states@[k], #[trigger] final(self).states@[k])
                    && keys_kept(old(self).states@[k], final(self).states@[k]),
            final(self).states@[old(self).last as int].next@.contains_key(ch as u32),
            forall|i: nat|
                #[trigger] path_lacks(old(self).states@, old(self).last, ch as u32, i) ==> {
                    let x = link_path(old(self).states@, old(self).last, i) as int;
                    &&& final(self).states@[x].next@.contains_key(ch as u32)
                    &&& (final(self).states@[x].next@[ch as u32] == old(self).states@.len()
                        || final(self).states@[x].next@[ch as u32] == old(self).states@.len() + 1)
                },
    {
        let ghost limit = self.text@.len();
        let ghost n: nat = self.states@.len();
        let key = char_key(ch);
        let cur = self.states.len();
        let mut fresh = new_state(self.states[self.last].len.saturating_add(1));
        fresh.end_pos.push(pos);
        self.states.push(fresh);
        proof {
            assert(self.states@[cur as int].end_pos@ =~= seq![pos]);
            assert forall|k: int| 0 <= k < self.states@.len() implies state_ok(
                #[trigger] self.states@[k],
                self.states@.len(),
                limit,
            ) by {
                if k < cur {
                    assert(state_ok(old(self).states@[k], old(self).states@.len(), limit));
                }
            }
        }
        let mut p: usize = self.last;
        let mut budget: usize = self.states.len();
        let ghost mut steps: nat = 0;
        proof {
            lemma_counts_bounded(self.states@, key, 0, n as int);
            assert forall|k: int|
                0 <= k < n && #[trigger] self.states@[k].next@.contains_key(key) && !old(self).states@[k].next@.contains_key(
                    key,
                ) implies exists|j: nat| j < steps && link_path(old(self).states@, old(self).last, j) == k by {
                assert(self.states@[k] == old(self).states@[k]);
            }
        }
        while p != usize::MAX && budget > 0
            invariant
                self.wf(),
                self.text@ == old(self).text@,
                self.last == old(self).last,
                states_ok(old(self).states@, limit),
                forall|k: int| 0 <= k < n ==> (#[trigger] self.states@[k]).link == old(self).states@[k].link,
                p == link_path(old(self).states@, old(self).last, steps),
                budget >= count_lacking(self.states@, key, n as int) + 1,
                forall|j: nat|
                    j < steps ==> {
                        let x = #[trigger] link_path(old(self).states@, old(self).last, j);
                        &&& x < n
                        &&& !old(self).states@[x as int].next@.contains_key(key)
                        &&& self.states@[x as int].next@.contains_key(key)
                        &&& self.states@[x as int].next@[key] == cur
                    },
                forall|k: int|
                    0 <= k < n && #[trigger] self.states@[k].next@.contains_key(key) && !old(self).states@[k].next@.contains_key(
                        key,
                    ) ==> exists|j: nat| j < steps && link_path(old(self).states@, old(self).last, j) == k,
                limit == self.text@.len(),
                n == old(self).states@.len(),
                cur == n,
                self.states@.len() == cur + 1,
                p == usize::MAX || p < self.states@.len(),
                self.states@[cur as int].len == old(self).states@[old(self).last as int].len.saturating_add(1),
                self.states@[cur as int].end_pos@ == seq![pos],
                forall|k: int|
                    0 <= k < n ==> same_content(old(self).states@[k], #[trigger] self.states@[k]) && keys_kept(
                        old(self).states@[k],
                        self.states@[k],
                    ),
                old(self).last < n,
                self.states@[old(self).last as int].next@.contains_key(key) || (p == old(self).last && budget
                    > 0),
            ensures
                self.states@[old(self).last as int].next@.contains_key(key),
                p == usize::MAX || budget == 0 || self.states@[p as int].next@.contains_key(key),
            decreases budget,
        {
            if self.states[p].next.contains_key(&key) {
                break;
            }
            let ghost before = self.states@;
            let mut s = self.take(p);
            s.next.insert(key, cur);
            let link = s.link;
            self.put(p, s);
            proof {
                assert(p < n) by {
                    if p >= n {
                        assert(p == cur);
                        if steps > 0 {
                            let x = link_path(old(self).states@, old(self).last, (steps - 1) as nat);
                            assert(x < n);
                            assert(state_ok(old(self).states@[x as int], n, limit));
                        }
                    }
                }
                lemma_counts_update(before, self.states@, key, 0, p as int, n as int);
                assert(before[p as int].link == link);
                assert(old(self).states@[p as int].link == link);
                assert forall|k: int| 0 <= k < n implies (#[trigger] self.states@[k]).link == old(self).states@[k].link by {
                    if k != p {
                        assert(self.states@[k] == before[k]);
                    }
                }
                assert forall|j: nat| j < steps implies #[trigger] link_path(old(self).states@, old(self).last, j)
                    != p by {
                    let x = link_path(old(self).states@, old(self).last, j);
                    assert(before[x as int].next@.contains_key(key));
                }
                assert forall|j: nat|
                    j < steps + 1 implies {
                        let x = #[trigger] link_path(old(self).states@, old(self).last, j);
                        &&& x < n
                        &&& !old(self).states@[x as int].next@.contains_key(key)
                        &&& self.states@[x as int].next@.contains_key(key)
                        &&& self.states@[x as int].next@[key] == cur
                    } by {
                    let x = link_path(old(self).states@, old(self).last, j);
                    if j < steps {
                        assert(self.states@[x as int] == before[x as int]);
                    } else {
                        assert(x == p);
                        if old(self).states@[p as int].next@.contains_key(key) {
                            assert(keys_kept(old(self).states@[p as int], before[p as int]));
                        }
                    }
                }
                assert forall|k: int|
                    0 <= k < n && #[trigger] self.states@[k].next@.contains_key(key) && !old(self).states@[k].next@.contains_key(
                        key,
                    ) implies exists|j: nat| j < steps + 1 && link_path(old(self).states@, old(self).last, j) == k by {
                    if k == p {
                        assert(link_path(old(self).states@, old(self).last, steps) == k);
                    } else {
                        assert(self.states@[k] == before[k]);
                        let j = choose|j: nat| j < steps && link_path(old(self).states@, old(self).last, j) == k;
                    }
                }
                assert forall|k: int| 0 <= k < n implies same_content(old(self).states@[k], #[trigger] self.states@[k])
                    && keys_kept(old(self).states@[k], self.states@[k]) by {
                    assert(keys_kept(old(self).states@[k], before[k]));
                    if k == p {
                        assert forall|c: u32| #[trigger] old(self).states@[k].next@.contains_key(c) implies self.states@[k].next@.contains_key(c) by {
                            assert(before[k].next@.contains_key(c));
                        }
                    }
                }
            }
            p = match link {
                Some(l) => l,
                None => usize::MAX,
            };
            budget = budget - 1;
            proof {
                steps = steps + 1;
            }
        }
        let ghost mid = self.states@;
        proof {
            assert forall|i: nat| #[trigger] path_lacks(old(self).states@, old(self).last, key, i) implies mid[link_path(
                old(self).states@,
                old(self).last,
                i,
            ) as int].next@.contains_key(key) && mid[link_path(old(self).states@, old(self).last, i) as int].next@[key]
                == cur by {
                if i >= steps {
                    assert(link_path(old(self).states@, old(self).last, steps) == p);
                    assert(p < n);
                    assert(mid[p as int].next@.contains_key(key));
                    let j0 = choose|j: nat| j < steps && link_path(old(self).states@, old(self).last, j) == p;
                    let k = lemma_link_path_repeats(old(self).states@, old(self).last, j0, steps, i);
                    assert(link_path(old(self).states@, old(self).last, k) == link_path(
                        old(self).states@,
                        old(self).last,
                        i,
                    ));
                }
            }
        }
        self.finish_extend(key, cur, p);
        proof {
            assert forall|k: int| 0 <= k < n implies same_content(old(self).states@[k], #[trigger] self.states@[k])
                && keys_kept(old(self).states@[k], self.states@[k]) by {
                assert(same_content(mid[k], self.states@[k]) && keys_kept(mid[k], self.states@[k]));
                assert(keys_kept(old(self).states@[k], mid[k]));
                assert forall|c: u32| #[trigger] old(self).states@[k].next@.contains_key(c) implies self.states@[k].next@.contains_key(c) by {
                    assert(mid[k].next@.contains_key(c));
                }
            }
            assert(same_content(mid[cur as int], self.states@[cur as int]));
            assert(mid[old(self).last as int].next@.contains_key(key));
            assert(keys_kept(mid[old(self).last as int], self.states@[old(self).last as int]));
            assert(self.states@[old(self).last as int].next@.contains_key(key));
        }
    }

    /// The rest of one extension: the link of the new state `cur`, cloning
    /// the state behind `p`'s transition on `key` where its length is too
    /// large.
    fn finish_extend(&mut self, key: u32, cur: usize, p: usize)
        requires
            old(self).wf(),
            cur < old(self).states@.len(),
            p == usize::MAX || p < old(self).states@.len(),
        ensures
            final(self).wf(),
            final(self).text@ == old(self).text@,
            final(self).last == cur,
            final(self).states@[cur as int].link is Some,
            forall|k: int|
                0 <= k < old(self).states@.len() ==> same_content(old(self).states@[k], #[trigger] final(self).states@[k])
                    && keys_kept(old(self).states@[k], final(self).states@[k]),
            p == usize::MAX || !old(self).states@[p as int].next@.contains_key(key)
                ==> final(self).states@[cur as int].link == Some(0usize),
            p != usize::MAX && old(self).states@[p as int].next@.contains_key(key) && !needs_clone(
                old(self).states@,
                p,
                key,
            ) ==> final(self).states@[cur as int].link == Some(old(self).states@[p as int].next@[key]),
            !needs_clone(old(self).states@, p, key) ==> final(self).states@.len() == old(self).states@.len(),
            !needs_clone(old(self).states@, p, key) ==> final(self).states@[cur as int].next@ == old(
                self,
            ).states@[cur as int].next@,
            !needs_clone(old(self).states@, p, key) ==> forall|k: int|
                0 <= k < old(self).states@.len() && k != cur ==> #[trigger] final(self).states@[k] == old(
                    self,
                ).states@[k],
            needs_clone(old(self).states@, p, key) ==> final(self).states@.len() == old(self).states@.len() + 1,
            needs_clone(old(self).states@, p, key) ==> cloned_from(
                old(self).states@,
                final(self).states@,
                old(self).states@[p as int].next@[key] as int,
                old(self).states@[p as int].len.saturating_add(1),
            ),
            needs_clone(old(self).states@, p, key) ==> final(self).states@[cur as int].link == Some(
                old(self).states@.len() as usize,
            ),
            needs_clone(old(self).states@, p, key) ==> final(self).states@[old(self).states@[p as int].next@[key] as int].link
                == Some(old(self).states@.len() as usize),
            needs_clone(old(self).states@, p, key) ==> forall|k: int|
                0 <= k < old(self).states@.len() && k != cur && k != old(self).states@[p as int].next@[key]
                    ==> #[trigger] final(self).states@[k].link == old(self).states@[k].link,
            needs_clone(old(self).states@, p, key) ==> forall|k: int|
                0 <= k < old(self).states@.len() ==> redirected(
                    old(self).states@[k],
                    #[trigger] final(self).states@[k],
                    key,
                    old(self).states@[p as int].next@[key],
                    old(self).states@.len() as usize,
                ),
            needs_clone(old(self).states@, p, key) ==> forall|i: nat|
                #[trigger] path_leads_to(old(self).states@, p, key, old(self).states@[p as int].next@[key], i)
                    ==> final(self).states@[link_path(old(self).states@, p, i) as int].next@[key]
                    == old(self).states@.len() as usize,
    {
        let ghost limit = self.text@.len();
        let ghost n: nat = self.states@.len();
        if p == usize::MAX || !self.states[p].next.contains_key(&key) {
            self.set_link(cur, 0);
            proof {
                assert(keys_kept(old(self).states@[cur as int], self.states@[cur as int]));
                assert forall|k: int| 0 <= k < n implies same_content(old(self).states@[k], #[trigger] self.states@[k])
                    && keys_kept(old(self).states@[k], self.states@[k]) by {
                    if k != cur {
                        assert(self.states@[k] == old(self).states@[k]);
                    }
                }
            }
        } else {
            let q = match self.states[p].next.get(&key) {
                Some(q) => *q,
                None => {
                    proof {
                        assert(false);
                    }
                    0
                },
            };
            proof {
                assert(state_ok(self.states@[p as int], self.states@.len(), limit));
            }
            if self.states[p].len.saturating_add(1) == self.states[q].len {
                self.set_link(cur, q);
                proof {
                    assert(keys_kept(old(self).states@[cur as int], self.states@[cur as int]));
                    assert forall|k: int| 0 <= k < n implies same_content(old(self).states@[k], #[trigger] self.states@[k])
                        && keys_kept(old(self).states@[k], self.states@[k]) by {
                        if k != cur {
                            assert(self.states@[k] == old(self).states@[k]);
                        }
                    }
                }
            } else {
                let clone_len = self.states[p].len.saturating_add(1);
                let clone = self.states.len();
                let mut copy = new_state(clone_len);
                copy.next = self.states[q].next.clone();
                copy.link = self.states[q].link;
                let ghost copied = copy;
                self.states.push(copy);
                proof {
                    assert(cloned_from(old(self).states@, self.states@, q as int, clone_len));
                    assert(state_ok(old(self).states@[q as int], old(self).states@.len(), limit));
                    assert forall|k: int| 0 <= k < self.states@.len() implies state_ok(
                        #[trigger] self.states@[k],
                        self.states@.len(),
                        limit,
                    ) by {
                        if k < clone {
                            assert(state_ok(old(self).states@[k], old(self).states@.len(), limit));
                        }
                    }
                }
                let mut r: usize = p;
                let mut budget: usize = self.states.len();
                let ghost mut steps: nat = 0;
                proof {
                    lemma_counts_bounded(self.states@, key, q, n as int);
                    assert forall|k: int|
                        0 <= k < n && #[trigger] self.states@[k].next@.contains_key(key) && self.states@[k].next@[key]
                            == clone implies exists|j: nat| j < steps && link_path(old(self).states@, p, j) == k by {
                        assert(self.states@[k] == old(self).states@[k]);
                        assert(state_ok(old(self).states@[k], n, limit));
                    }
                }
                while r != usize::MAX && budget > 0
                    invariant
                        self.wf(),
                        self.text@ == old(self).text@,
                        limit == self.text@.len(),
                        n == old(self).states@.len(),
                        states_ok(old(self).states@, limit),
                        q < n,
                        p < n,
                        q == old(self).states@[p as int].next@[key],
                        clone == n,
                        self.states@.len() == n + 1,
                        cur < n,
                        r == usize::MAX || r < n,
                        r == link_path(old(self).states@, p, steps),
                        budget >= count_leading(self.states@, key, q, n as int) + 1,
                        forall|j: nat|
                            j < steps ==> {
                                let x = #[trigger] link_path(old(self).states@, p, j);
                                &&& x < n
                                &&& old(self).states@[x as int].next@.contains_key(key)
                                &&& old(self).states@[x as int].next@[key] == q
                                &&& self.states@[x as int].next@.contains_key(key)
                                &&& self.states@[x as int].next@[key] == clone
                            },
                        forall|k: int|
                            0 <= k < n && #[trigger] self.states@[k].next@.contains_key(key) && self.states@[k].next@[key]
                                == clone ==> exists|j: nat| j < steps && link_path(old(self).states@, p, j) == k,
                        self.states@[clone as int] == copied,
                        forall|k: int|
                            0 <= k < n ==> same_content(old(self).states@[k], #[trigger] self.states@[k])
                                && self.states@[k].link == old(self).states@[k].link && redirected(
                                old(self).states@[k],
                                self.states@[k],
                                key,
                                q,
                                clone,
                            ),
                    ensures
                        r == usize::MAX || budget == 0 || !(self.states@[r as int].next@.contains_key(key)
                            && self.states@[r as int].next@[key] == q),
                    decreases budget,
                {
                    let target = match self.states[r].next.get(&key) {
                        Some(t) => *t,
                        None => usize::MAX,
                    };
                    if target != q {
                        break;
                    }
                    let ghost before = self.states@;
                    let mut s = self.take(r);
                    proof {
                        assert(state_ok(old(self).states@[r as int], n, limit));
                        assert(redirected(old(self).states@[r as int], s, key, q, clone));
                        assert(s.next@.contains_key(key));
                        assert(old(self).states@[r as int].next@[key] == q);
                    }
                    s.next.insert(key, clone);
                    let link = s.link;
                    self.put(r, s);
                    proof {
                        lemma_counts_update(before, self.states@, key, q, r as int, n as int);
                        assert(old(self).states@[r as int].link == link);
                        assert forall|j: nat| j < steps implies #[trigger] link_path(old(self).states@, p, j) != r by {
                            let x = link_path(old(self).states@, p, j);
                            assert(before[x as int].next@[key] == clone);
                        }
                        assert forall|j: nat|
                            j < steps + 1 implies {
                                let x = #[trigger] link_path(old(self).states@, p, j);
                                &&& x < n
                                &&& old(self).states@[x as int].next@.contains_key(key)
                                &&& old(self).states@[x as int].next@[key] == q
                                &&& self.states@[x as int].next@.contains_key(key)
                                &&& self.states@[x as int].next@[key] == clone
                            } by {
                            let x = link_path(old(self).states@, p, j);
                            if j < steps {
                                assert(self.states@[x as int] == before[x as int]);
                            } else {
                                assert(x == r);
                                assert(redirected(old(self).states@[r as int], before[r as int], key, q, clone));
                            }
                        }
                        assert forall|k: int|
                            0 <= k < n && #[trigger] self.states@[k].next@.contains_key(key) && self.states@[k].next@[key]
                                == clone implies exists|j: nat| j < steps + 1 && link_path(old(self).states@, p, j) == k by {
                            if k == r {
                                assert(link_path(old(self).states@, p, steps) == k);
                            } else {
                                assert(self.states@[k] == before[k]);
                                let j = choose|j: nat| j < steps && link_path(old(self).states@, p, j) == k;
                            }
                        }
                        assert forall|k: int| 0 <= k < n implies same_content(old(self).states@[k], #[trigger] self.states@[k])
                            && self.states@[k].link == old(self).states@[k].link && redirected(
                            old(self).states@[k],
                            self.states@[k],
                            key,
                            q,
                            clone,
                        ) by {
                            if k == r {
                                let o = old(self).states@[k];
                                let b = before[k];
                                let f = self.states@[k];
                                assert(redirected(o, b, key, q, clone));
                                assert forall|c: u32| #[trigger] f.next@.contains_key(c) == o.next@.contains_key(c) by {
                                    assert(b.next@.contains_key(c) == o.next@.contains_key(c));
                                }
                                assert forall|c: u32| #[trigger] f.next@.contains_key(c) implies f.next@[c] == o.next@[c] || (
                                c == key && o.next@[c] == q && f.next@[c] == clone) by {
                                    if c != key {
                                        assert(b.next@.contains_key(c));
                                    }
                                }
                            }
                        }
                    }
                    r = match link {
                        Some(l) => l,
                        None => usize::MAX,
                    };
                    budget = budget - 1;
                    proof {
                        steps = steps + 1;
                    }
                }
                let ghost redirected_states = self.states@;
                proof {
                    assert forall|i: nat| #[trigger] path_leads_to(old(self).states@, p, key, q, i) implies
                        redirected_states[link_path(old(self).states@, p, i) as int].next@[key] == clone by {
                        if i >= steps {
                            let x = link_path(old(self).states@, p, steps);
                            assert(x == r);
                            assert(r < n);
                            assert(redirected(old(self).states@[r as int], redirected_states[r as int], key, q, clone));
                            assert(redirected_states[r as int].next@.contains_key(key));
                            assert(redirected_states[r as int].next@[key] == clone);
                            let j0 = choose|j: nat| j < steps && link_path(old(self).states@, p, j) == r;
                            let k = lemma_link_path_repeats(old(self).states@, p, j0, steps, i);
                            assert(link_path(old(self).states@, p, k) == link_path(old(self).states@, p, i));
                        }
                    }
                }
                self.set_link(q, clone);
                self.set_link(cur, clone);
                proof {
                    assert(self.states@[clone as int] == copied);
                    assert forall|k: int| 0 <= k < n implies same_content(old(self).states@[k], #[trigger] self.states@[k])
                        && keys_kept(old(self).states@[k], self.states@[k]) by {
                        assert(redirected(old(self).states@[k], redirected_states[k], key, q, clone));
                        assert forall|c: u32| #[trigger] old(self).states@[k].next@.contains_key(c) implies self.states@[k].next@.contains_key(c) by {
                            assert(redirected_states[k].next@.contains_key(c));
                        }
                    }
                    assert forall|k: int| 0 <= k < n implies redirected(
                        old(self).states@[k],
                        #[trigger] self.states@[k],
                        key,
                        q,
                        clone,
                    ) by {
                        assert(redirected(old(self).states@[k], redirected_states[k], key, q, clone));
                        assert(self.states@[k].next@ == redirected_states[k].next@);
                    }
                    assert forall|k: int| 0 <= k < n && k != cur && k != q implies #[trigger] self.states@[k].link
                        == old(self).states@[k].link by {
                        assert(redirected_states[k].link == old(self).states@[k].link);
                    }
                }
            }
        }
        self.last = cur;
    }

    /// Sets the suffix link of state `i`.
    fn set_link(&mut self, i: usize, link: usize)
        requires
            old(self).wf(),
            i < old(self).states@.len(),
            link < old(self).states@.len(),
        ensures
            final(self).wf(),
            final(self).states@.len() == old(self).states@.len(),
            final(self).last == old(self).last,
            final(self).text@ == old(self).text@,
            final(self).states@[i as int].link == Some(link),
            final(self).states@[i as int].len == old(self).states@[i as int].len,
            final(self).states@[i as int].next@ == old(self).states@[i as int].next@,
            final(self).states@[i as int].end_pos@ == old(self).states@[i as int].end_pos@,
            final(self).states@[i as int].is_terminal == old(self).states@[i as int].is_terminal,
            forall|k: int| 0 <= k < old(self).states@.len() && k != i ==> #[trigger] final(self).states@[k] == old(self).states@[k],
    {
        let mut s = self.take(i);
        s.link = Some(link);
        self.put(i, s);
    }

    /// Marks the states on the suffix path of the whole text as terminal.
    fn mark_terminals(&mut self)
        requires
            old(self).wf(),
        ensures
            final(self).wf(),
            final(self).text@ == old(self).text@,
            final(self).last == old(self).last,
            only_marks_added(old(self).states@, final(self).states@),
            final(self).states@[0].is_terminal,
            final(self).states@[old(self).last as int].is_terminal,
            forall|k: int|
                0 <= k < old(self).states@.len() ==> #[trigger] final(self).states@[k].is_terminal == (old(
                    self,
                ).states@[k].is_terminal || k == 0 || on_suffix_path(
                    old(self).states@,
                    old(self).last as int,
                    k,
                    old(self).states@.len(),
                )),
    {
        let ghost o = self.states@;
        let ghost len: nat = self.states@.len();
        let ghost last: int = self.last as int;
        let ghost mut steps: nat = 0;
        let mut p = self.last;
        let mut budget: usize = self.states.len();
        while p != 0 && budget > 0
            invariant
                self.wf(),
                self.text@ == old(self).text@,
                self.last == old(self).last,
                o == old(self).states@,
                len == o.len(),
                last == old(self).last,
                states_ok(o, self.text@.len()),
                p < self.states@.len(),
                p == follow(o, last, steps),
                steps + budget == len,
                forall|j: nat| j < steps ==> #[trigger] follow(o, last, j) != 0,
                only_marks_added(o, self.states@),
                forall|k: int|
                    0 <= k < len ==> #[trigger] self.states@[k].is_terminal == (o[k].is_terminal || exists|i: nat|
                        i < steps && #[trigger] follow(o, last, i) == k),
                self.states@[last].is_terminal || (p == last && budget > 0),
            decreases budget,
        {
            let ghost before = self.states@;
            let mut s = self.take(p);
            s.is_terminal = true;
            let link = s.link;
            self.put(p, s);
            proof {
                assert forall|k: int| 0 <= k < self.states@.len() implies marks_added(
                    o[k],
                    #[trigger] self.states@[k],
                ) by {
                    assert(marks_added(o[k], before[k]));
                }
                assert forall|k: int| 0 <= k < len implies #[trigger] self.states@[k].is_terminal == (o[k].is_terminal
                    || exists|i: nat| i < steps + 1 && #[trigger] follow(o, last, i) == k) by {
                    if k == p {
                        assert(follow(o, last, steps) == k);
                    } else {
                        assert(self.states@[k] == before[k]);
                        if exists|i: nat| i < steps + 1 && #[trigger] follow(o, last, i) == k {
                            let i = choose|i: nat| i < steps + 1 && #[trigger] follow(o, last, i) == k;
                            assert(i < steps);
                        }
                    }
                }
                assert(marks_added(o[p as int], before[p as int]));
                assert(link_or_root(o[p as int]) == (match link {
                    Some(l) => l,
                    None => 0usize,
                }));
                assert(state_ok(o[p as int], len, self.text@.len()));
                steps = steps + 1;
            }
            p = match link {
                Some(l) => l,
                None => 0,
            };
            budget = budget - 1;
        }
        let ghost before = self.states@;
        let mut root = self.take(0);
        root.is_terminal = true;
        self.put(0, root);
        proof {
            assert forall|k: int| 0 <= k < self.states@.len() implies marks_added(
                old(self).states@[k],
                #[trigger] self.states@[k],
            ) by {
                assert(marks_added(old(self).states@[k], before[k]));
            }
            assert forall|k: int| 0 <= k < len implies #[trigger] self.states@[k].is_terminal == (o[k].is_terminal
                || k == 0 || on_suffix_path(o, last, k, len)) by {
                if k != 0 {
                    assert(self.states@[k] == before[k]);
                    if exists|i: nat| i < steps && #[trigger] follow(o, last, i) == k {
                        let i = choose|i: nat| i < steps && #[trigger] follow(o, last, i) == k;
                        assert forall|j: nat| j <= i implies #[trigger] follow(o, last, j) != 0 by {
                            assert(j < steps);
                        }
                        assert(before_root(o, last, i));
                    }
                    if on_suffix_path(o, last, k, len) {
                        let i = choose|i: nat| i < len && before_root(o, last, i) && #[trigger] follow(o, last, i) == k;
                        if i >= steps {
                            assert(follow(o, last, steps) != 0);
                            assert(p == 0 || budget == 0);
                        }
                    }
                }
            }
        }
    }

    /// Adds the end positions of each state to those of its suffix link,
    /// from the longest states to the shortest.
    fn propagate_positions(&mut self)
        requires
            old(self).wf(),
        ensures
            final(self).wf(),
            final(self).text@ == old(self).text@,
            final(self).last == old(self).last,
            only_positions_added(old(self).states@, final(self).states@),
            positions_come_from(old(self).states@, final(self).states@),
            forall|k: int| 0 <= k < old(self).states@.len() ==> #[trigger] handed_to_link(
                old(self).states@,
                final(self).states@,
                k,
            ),
            links_shorter(old(self).states@) ==> positions_closed(final(self).states@),
    {
        let count = self.states.len();
        let mut lens: Vec<usize> = Vec::new();
        let mut order: Vec<usize> = Vec::new();
        let mut k: usize = 0;
        while k < count
            invariant
                count == self.states@.len(),
                0 <= k <= count,
                lens@.len() == k,
                order@.len() == k,
                forall|j: int| 0 <= j < k ==> #[trigger] order@[j] == j,
                forall|j: int| 0 <= j < k ==> #[trigger] lens@[j] == self.states@[j].len,
            decreases count - k,
        {
            lens.push(self.states[k].len);
            order.push(k);
            k = k + 1;
        }
        let ghost unsorted = order@;
        sort_by_length(&mut order, &lens);
        proof {
            assert forall|j: int| 0 <= j < order@.len() implies #[trigger] order@[j] < count by {
                assert(order@.to_multiset().count(order@[j]) > 0);
                assert(unsorted.to_multiset().count(order@[j]) > 0);
                assert(unsorted.contains(order@[j]));
            }
            assert(only_positions_added(self.states@, self.states@));
            assert(positions_come_from(self.states@, self.states@));
            assert(order@.len() == order@.to_multiset().len());
            assert(unsorted.len() == unsorted.to_multiset().len());
        }
        let ghost start = self.states@;
        let mut idx: usize = order.len();
        while idx > 0
            invariant
                self.wf(),
                self.text@ == old(self).text@,
                self.last == old(self).last,
                start == old(self).states@,
                states_ok(start, self.text@.len()),
                count == self.states@.len(),
                idx <= order@.len(),
                forall|j: int| 0 <= j < order@.len() ==> #[trigger] order@[j] < count,
                only_positions_added(start, self.states@),
                positions_come_from(start, self.states@),
                forall|j: int| idx <= j < order@.len() ==> handed_to_link(start, self.states@, #[trigger] order@[j] as int),
                lens@.len() == count,
                order@.len() == count,
                forall|j: int| 0 <= j < count ==> #[trigger] lens@[j] == start[j].len,
                forall|a: int, b: int|
                    0 <= a <= b < order@.len() ==> lens@[#[trigger] order@[a] as int] <= lens@[#[trigger] order@[b] as int],
                links_shorter(start) ==> forall|j: int|
                    idx <= j < order@.len() ==> #[trigger] closed_at(self.states@, order@[j] as int),
            decreases idx,
        {
            idx = idx - 1;
            let i = order[idx];
            let positions = self.states[i].end_pos.clone();
            let ghost outer = self.states@;
            proof {
                assert(state_ok(self.states@[i as int], count as nat, self.text@.len()));
                assert(forall|j: int| 0 <= j < positions@.len() ==> positions@[j] == self.states@[i as int].end_pos@[j]);
                assert(positions@ =~= self.states@[i as int].end_pos@);
                assert(positions_added(start[i as int], self.states@[i as int]));
                assert(only_positions_added(outer, self.states@));
            }
            if let Some(link) = self.states[i].link {
                let mut j: usize = 0;
                while j < positions.len()
                    invariant
                        self.wf(),
                        self.text@ == old(self).text@,
                        self.last == old(self).last,
                        count == self.states@.len(),
                        link < count,
                        0 <= j <= positions@.len(),
                        forall|t: int| 0 <= t < positions@.len() ==> #[trigger] positions@[t] < self.text@.len(),
                        only_positions_added(outer, self.states@),
                        positions_come_from(start, outer),
                        positions_come_from(start, self.states@),
                        i < count,
                        start.len() == count,
                        positions@ == outer[i as int].end_pos@,
                        forall|k: int| 0 <= k < count && k != link ==> #[trigger] self.states@[k] == outer[k],
                        forall|t: int| 0 <= t < j ==> self.states@[link as int].end_pos@.contains(#[trigger] positions@[t]),
                    decreases positions@.len() - j,
                {
                    let ghost before = self.states@;
                    self.add_pos(link, positions[j]);
                    proof {
                        assert forall|k: int, x: usize|
                            0 <= k < self.states@.len() && #[trigger] self.states@[k].end_pos@.contains(x) implies exists|jj: int|
                                0 <= jj < start.len() && #[trigger] start[jj].end_pos@.contains(x) by {
                            if k != link || before[k].end_pos@.contains(x) {
                                assert(before[k].end_pos@.contains(x));
                            } else {
                                let a = choose|a: int| 0 <= a < self.states@[k].end_pos@.len() && self.states@[k].end_pos@[a] == x;
                                assert(a == before[k].end_pos@.len());
                                assert(x == positions@[j as int]);
                                assert(outer[i as int].end_pos@.contains(x));
                            }
                        }
                        lemma_positions_trans(outer, before, self.states@);
                        assert forall|k: int| 0 <= k < count && k != link implies #[trigger] self.states@[k] == outer[k] by {
                            assert(self.states@[k] == before[k]);
                        }
                        assert forall|t: int| 0 <= t < j + 1 implies self.states@[link as int].end_pos@.contains(
                            #[trigger] positions@[t],
                        ) by {
                            if t < j {
                                assert(before[link as int].end_pos@.contains(positions@[t]));
                                assert(positions_added(before[link as int], self.states@[link as int]));
                            } else {
                                if !before[link as int].end_pos@.contains(positions@[t]) {
                                    assert(self.states@[link as int].end_pos@[before[link as int].end_pos@.len() as int] == positions@[t]);
                                }
                            }
                        }
                    }
                    j = j + 1;
                }
                proof {
                    assert(positions_added(start[i as int], outer[i as int]));
                    assert forall|x: usize| #[trigger] start[i as int].end_pos@.contains(x) implies self.states@[link as int].end_pos@.contains(x) by {
                        assert(positions@.contains(x));
                        let t = choose|t: int| 0 <= t < positions@.len() && positions@[t] == x;
                        assert(self.states@[link as int].end_pos@.contains(positions@[t]));
                    }
                    assert(handed_to_link(start, self.states@, i as int));
                }
            } else {
                proof {
                    assert(positions_added(start[i as int], self.states@[i as int]));
                }
            }
            proof {
                lemma_positions_trans(start, outer, self.states@);
                if links_shorter(start) {
                    assert(start.len() == count);
                    assert forall|jj: int| idx <= jj < order@.len() implies #[trigger] closed_at(self.states@, order@[jj] as int) by {
                        let x = order@[jj] as int;
                        assert(positions_added(start[x], self.states@[x]));
                        if let Some(l) = self.states@[x].link {
                            assert(start[x].link == Some(l));
                            assert(l < count && start[l as int].len < start[x].len);
                            if jj == idx {
                                if let Some(li) = start[i as int].link {
                                    assert(li == l);
                                    assert(self.states@[x] == outer[x]);
                                    assert forall|y: usize| #[trigger] self.states@[x].end_pos@.contains(y) implies self.states@[l as int].end_pos@.contains(y) by {
                                        assert(positions@.contains(y));
                                        let t = choose|t: int| 0 <= t < positions@.len() && positions@[t] == y;
                                        assert(self.states@[l as int].end_pos@.contains(positions@[t]));
                                    }
                                }
                            } else {
                                assert(closed_at(outer, x));
                                lemma_closed_stays(start, outer, self.states@, x, i as int, order@, lens@, idx as int, jj);
                            }
                        }
                    }
                }
                assert forall|jj: int| idx <= jj < order@.len() implies handed_to_link(
                    start,
                    self.states@,
                    #[trigger] order@[jj] as int,
                ) by {
                    if jj > idx {
                        let kk = order@[jj] as int;
                        assert(state_ok(start[kk], count as nat, self.text@.len()));
                        lemma_handed_stays(start, outer, self.states@, kk);
                    }
                }
            }
        }
        proof {
            assert forall|k: int| 0 <= k < old(self).states@.len() implies #[trigger] handed_to_link(
                old(self).states@,
                self.states@,
                k,
            ) by {
                assert(unsorted[k] == k as usize);
                assert(unsorted.to_multiset().count(k as usize) > 0);
                assert(order@.to_multiset().count(k as usize) > 0);
                assert(order@.contains(k as usize));
                let jj = choose|jj: int| 0 <= jj < order@.len() && order@[jj] == k as usize;
                assert(handed_to_link(start, self.states@, order@[jj] as int));
            }
            if links_shorter(old(self).states@) {
                assert forall|k: int| 0 <= k < self.states@.len() implies #[trigger] closed_at(self.states@, k) by {
                    assert(unsorted[k] == k as usize);
                    assert(unsorted.to_multiset().count(k as usize) > 0);
                    assert(order@.to_multiset().count(k as usize) > 0);
                    assert(order@.contains(k as usize));
                    let jj = choose|jj: int| 0 <= jj < order@.len() && order@[jj] == k as usize;
                    assert(closed_at(self.states@, order@[jj] as int));
                }
            }
        }
    }

    /// Adds an end position to state `i`, unless it has it already.
    fn add_pos(&mut self, i: usize, p: usize)
        requires
            old(self).wf(),
            i < old(self).states@.len(),
            p < old(self).text@.len(),
        ensures
            final(self).wf(),
            final(self).states@.len() == old(self).states@.len(),
            final(self).text@ == old(self).text@,
            final(self).last == old(self).last,
            final(self).states@[i as int].end_pos@ == (if old(self).states@[i as int].end_pos@.contains(p) {
                old(self).states@[i as int].end_pos@
            } else {
                old(self).states@[i as int].end_pos@.push(p)
            }),
            final(self).states@[i as int].len == old(self).states@[i as int].len,
            final(self).states@[i as int].link == old(self).states@[i as int].link,
            final(self).states@[i as int].next@ == old(self).states@[i as int].next@,
            final(self).states@[i as int].is_terminal == old(self).states@[i as int].is_terminal,
            forall|k: int| 0 <= k < old(self).states@.len() && k != i ==> #[trigger] final(self).states@[k] == old(self).states@[k],
            only_positions_added(old(self).states@, final(self).states@),
    {
        let mut s = self.take(i);
        let mut present = false;
        let mut k: usize = 0;
        while k < s.end_pos.len()
            invariant
                0 <= k <= s.end_pos@.len(),
                present == s.end_pos@.subrange(0, k as int).contains(p),
            decreases s.end_pos@.len() - k,
        {
            let ghost prev = s.end_pos@.subrange(0, k as int);
            let ghost next = s.end_pos@.subrange(0, k + 1);
            proof {
                assert(next =~= prev.push(s.end_pos@[k as int]));
                assert(next.contains(p) == (prev.contains(p) || s.end_pos@[k as int] == p)) by {
                    if prev.contains(p) {
                        let i = choose|i: int| 0 <= i < prev.len() && prev[i] == p;
                        assert(next[i] == p);
                    }
                    if s.end_pos@[k as int] == p {
                        assert(next[k as int] == p);
                    }
                    if next.contains(p) {
                        let i = choose|i: int| 0 <= i < next.len() && next[i] == p;
                        if i < k {
                            assert(prev[i] == p);
                        }
                    }
                }
            }
            if s.end_pos[k] == p {
                present = true;
            }
            k = k + 1;
        }
        proof {
            assert(s.end_pos@.subrange(0, s.end_pos@.len() as int) =~= s.end_pos@);
        }
        let ghost before = s.end_pos@;
        if !present {
            s.end_pos.push(p);
            proof {
                assert forall|a: int, b: int| 0 <= a < b < s.end_pos@.len() implies s.end_pos@[a] != s.end_pos@[b] by {
                    if b == before.len() {
                        assert(before[a] == s.end_pos@[a]);
                    }
                }
            }
        }
        self.put(i, s);
        proof {
            assert forall|k: int| 0 <= k < self.states@.len() implies positions_added(
                old(self).states@[k],
                #[trigger] self.states@[k],
            ) by {
                if k == i {
                    assert forall|x: usize| #[trigger] before.contains(x) implies self.states@[k].end_pos@.contains(x) by {
                        let a = choose|a: int| 0 <= a < before.len() && before[a] == x;
                        assert(self.states@[k].end_pos@[a] == x);
                    }
                }
            }
        }
    }

    /// Whether walking the transitions by the characters of `pattern` from
    /// the root succeeds.
    pub fn contains(&self, pattern: &str) -> (found: bool)
        requires
            self.wf(),
        ensures
            found == self.walk(0, char_keys(pattern@)) is Some,
    {
        let ghost keys = char_keys(pattern@);
        let mut s: usize = 0;
        for ch in iter: pattern.chars()
            invariant
                self.wf(),
                iter.seq() == pattern@,
                keys == char_keys(pattern@),
                s < self.states@.len(),
                self.walk(0, keys.subrange(0, iter.index() as int)) == Some(s as int),
        {
            let key = char_key(ch);
            let ghost k = iter.index() as int;
            proof {
                assert(state_ok(self.states@[s as int], self.states@.len(), self.text@.len()));
                assert(keys.subrange(0, k + 1).drop_last() =~= keys.subrange(0, k));
                assert(keys.subrange(0, k + 1).last() == key);
            }
            match self.states[s].next.get(&key) {
                Some(nx) => s = *nx,
                None => {
                    proof {
                        lemma_walk_stuck(self, keys, k + 1);
                    }
                    return false;
                },
            }
        }
        proof {
            assert(keys.subrange(0, keys.len() as int) =~= keys);
        }
        true
    }

    /// The start positions of `pattern`, by the end positions of the state
    /// that the pattern leads to: each end position `e` with `e + 1` at least
    /// the pattern's length gives `e + 1 - len`. In increasing order, each
    /// once; none for an empty pattern or one that leads nowhere.
    pub fn find_all(&self, pattern: &str) -> (positions: Vec<usize>)
        requires
            self.wf(),
        ensures
            forall|a: int, b: int| 0 <= a < b < positions@.len() ==> positions@[a] < positions@[b],
            forall|a: int| 0 <= a < positions@.len() ==> #[trigger] positions@[a] + pattern@.len() <= self.text().len(),
            pattern@.len() == 0 || self.walk(0, char_keys(pattern@)) is None ==> positions@.len() == 0,
            pattern@.len() > 0 && self.walk(0, char_keys(pattern@)) is Some ==> forall|x: usize|
                #[trigger] positions@.contains(x) <==> start_from_end(
                    self.end_positions(self.walk(0, char_keys(pattern@))->0),
                    pattern@.len() as int,
                    x,
                    self.end_positions(self.walk(0, char_keys(pattern@))->0).len() as int,
                ),
    {
        let ghost keys = char_keys(pattern@);
        let mut chars: Vec<char> = Vec::new();
        for ch in iter: pattern.chars()
            invariant
                iter.seq() == pattern@,
                chars@ == pattern@.subrange(0, iter.index() as int),
        {
            chars.push(ch);
        }
        proof {
            assert(chars@ =~= pattern@);
        }
        let m = chars.len();
        if m == 0 {
            return Vec::new();
        }
        let mut s: usize = 0;
        let mut k: usize = 0;
        while k < m
            invariant
                self.wf(),
                s < self.states@.len(),
                m == chars@.len(),
                chars@ == pattern@,
                keys == char_keys(pattern@),
                0 <= k <= m,
                self.walk(0, keys.subrange(0, k as int)) == Some(s as int),
            decreases m - k,
        {
            let key = char_key(chars[k]);
            proof {
                assert(state_ok(self.states@[s as int], self.states@.len(), self.text@.len()));
                assert(keys.subrange(0, k + 1).drop_last() =~= keys.subrange(0, k as int));
                assert(keys.subrange(0, k + 1).last() == key);
            }
            match self.states[s].next.get(&key) {
                Some(nx) => s = *nx,
                None => {
                    proof {
                        lemma_walk_stuck(self, keys, k + 1);
                    }
                    return Vec::new();
                },
            }
            k = k + 1;
        }
        proof {
            assert(keys.subrange(0, m as int) =~= keys);
        }
        let ends = &self.states[s].end_pos;
        let ghost q = s as int;
        proof {
            assert(state_ok(self.states@[s as int], self.states@.len(), self.text@.len()));
            assert(ends@ == self.end_positions(q));
        }
        let mut result: Vec<usize> = Vec::new();
        let mut k: usize = 0;
        while k < ends.len()
            invariant
                0 <= k <= ends@.len(),
                m == pattern@.len(),
                self.text@.len() <= usize::MAX,
                forall|t: int| 0 <= t < ends@.len() ==> #[trigger] ends@[t] < self.text@.len(),
                forall|t: int| 0 <= t < result@.len() ==> #[trigger] result@[t] + m <= self.text@.len(),
                forall|x: usize| result@.contains(x) <==> start_from_end(ends@, m as int, x, k as int),
            decreases ends@.len() - k,
        {
            let ep = ends[k];
            let ghost before = result@;
            if ep + 1 >= m {
                result.push(ep + 1 - m);
            }
            proof {
                assert forall|x: usize| result@.contains(x) <==> start_from_end(ends@, m as int, x, k + 1) by {
                    if before.contains(x) {
                        let i = choose|i: int| 0 <= i < before.len() && before[i] == x;
                        assert(result@[i] == x);
                        let t = choose|t: int| 0 <= t < k && #[trigger] ends@[t] + 1 >= m && x == ends@[t] + 1 - m;
                        assert(0 <= t < k + 1 && ends@[t] + 1 >= m && x == ends@[t] + 1 - m);
                    }
                    if start_from_end(ends@, m as int, x, k + 1) {
                        let t = choose|t: int| 0 <= t < k + 1 && #[trigger] ends@[t] + 1 >= m && x == ends@[t] + 1 - m;
                        if t < k {
                            assert(start_from_end(ends@, m as int, x, k as int));
                        } else {
                            assert(result@[result@.len() - 1] == x);
                        }
                    }
                    if result@.contains(x) && !before.contains(x) {
                        let i = choose|i: int| 0 <= i < result@.len() && result@[i] == x;
                        assert(i == before.len());
                        assert(ends@[k as int] + 1 >= m && x == ends@[k as int] + 1 - m);
                    }
                }
            }
            k = k + 1;
        }
        let ghost unsorted = result@;
        proof {
            crate::permutation::lemma_total_ord_usize();
        }
        sort_unstable(result.as_mut_slice());
        proof {
            crate::order::lemma_total_order_usize();
            assert forall|t: int| 0 <= t < result@.len() implies #[trigger] result@[t] + m <= self.text@.len() by {
                assert(result@.to_multiset().count(result@[t]) > 0);
                assert(unsorted.contains(result@[t]));
            }
        }
        let deduped = dedup_sorted(&result);
        proof {
            assert forall|t: int| 0 <= t < deduped@.len() implies #[trigger] deduped@[t] + m <= self.text@.len() by {
                assert(result@.contains(deduped@[t]));
            }
            assert forall|x: usize| deduped@.contains(x) <==> start_from_end(ends@, m as int, x, ends@.len() as int) by {
                if deduped@.contains(x) {
                    assert(result@.contains(x));
                    let i = choose|i: int| 0 <= i < result@.len() && result@[i] == x;
                    assert(result@.to_multiset().count(x) > 0);
                    assert(unsorted.contains(x));
                }
                if unsorted.contains(x) {
                    assert(unsorted.to_multiset().count(x) > 0);
                    assert(result@.contains(x));
                }
            }
            assert(self.walk(0, keys) == Some(q));
        }
        deduped
    }
}

/// `x` is the start `e + 1 - len` of some end position `e` among the first
/// `upto` with `e + 1` at least `len`.
pub open spec fn start_from_end(ends: Seq<usize>, len: int, x: usize, upto: int) -> bool {
    exists|t: int| 0 <= t < upto && #[trigger] ends[t] + 1 >= len && x == ends[t] + 1 - len
}

/// A walk that gets stuck on a prefix of the keys gets stuck on all of them.
proof fn lemma_walk_stuck(sa: &SuffixAutomaton, keys: Seq<u32>, j: int)
    requires
        0 <= j <= keys.len(),
        sa.walk(0, keys.subrange(0, j)) is None,
    ensures
        sa.walk(0, keys) is None,
    decreases keys.len() - j,
{
    if j < keys.len() {
        assert(keys.subrange(0, j + 1).drop_last() =~= keys.subrange(0, j));
        lemma_walk_stuck(sa, keys, j + 1);
    } else {
        assert(keys.subrange(0, j) =~= keys);
    }
}

/// The sorted sequence with each value once.
fn dedup_sorted(v: &Vec<usize>) -> (r: Vec<usize>)
    requires
        sorted(v@),
    ensures
        forall|a: int, b: int| 0 <= a < b < r@.len() ==> r@[a] < r@[b],
        forall|x: usize| r@.contains(x) <==> v@.contains(x),
{
    let mut r: Vec<usize> = Vec::new();
    let mut k: usize = 0;
    while k < v.len()
        invariant
            sorted(v@),
            0 <= k <= v@.len(),
            forall|a: int, b: int| 0 <= a < b < r@.len() ==> r@[a] < r@[b],
            forall|x: usize| r@.contains(x) <==> v@.subrange(0, k as int).contains(x),
            r@.len() > 0 ==> k > 0 && r@.last() == v@[k - 1],
        decreases v@.len() - k,
    {
        let ghost before = r@;
        let ghost prefix = v@.subrange(0, k as int);
        let ghost seen = v@.subrange(0, k + 1);
        proof {
            assert(seen =~= prefix.push(v@[k as int]));
            assert forall|x: usize| seen.contains(x) <==> (prefix.contains(x) || x == v@[k as int]) by {
                if prefix.contains(x) {
                    let i = choose|i: int| 0 <= i < prefix.len() && prefix[i] == x;
                    assert(seen[i] == x);
                }
                if x == v@[k as int] {
                    assert(seen[k as int] == x);
                }
                if seen.contains(x) {
                    let i = choose|i: int| 0 <= i < seen.len() && seen[i] == x;
                    if i < k {
                        assert(prefix[i] == x);
                    }
                }
            }
        }
        if r.len() == 0 || r[r.len() - 1] < v[k] {
            r.push(v[k]);
            proof {
                assert forall|x: usize| r@.contains(x) <==> (before.contains(x) || x == v@[k as int]) by {
                    if before.contains(x) {
                        let i = choose|i: int| 0 <= i < before.len() && before[i] == x;
                        assert(r@[i] == x);
                    }
                    if x == v@[k as int] {
                        assert(r@[before.len() as int] == x);
                    }
                    if r@.contains(x) {
                        let i = choose|i: int| 0 <= i < r@.len() && r@[i] == x;
                        if i < before.len() {
                            assert(before[i] == x);
                        }
                    }
                }
                assert forall|a: int, b: int| 0 <= a < b < r@.len() implies r@[a] < r@[b] by {
                    if b == before.len() && before.len() > 0 {
                        assert(before[a] <= before[before.len() - 1]);
                    }
                }
            }
        } else {
            proof {
                assert(before.len() > 0);
                assert(before.last() == v@[k - 1]);
                assert(crate::order::leq(v@[k - 1], v@[k as int]));
                assert(before.last() == v@[k as int]);
                assert(before[before.len() - 1] == v@[k as int]);
            }
        }
        proof {
            assert forall|x: usize| r@.contains(x) <==> seen.contains(x) by {
                assert(seen.contains(x) <==> (prefix.contains(x) || x == v@[k as int]));
                assert(before.contains(x) <==> prefix.contains(x));
                if r@.len() > before.len() {
                    assert(r@.contains(x) <==> (before.contains(x) || x == v@[k as int]));
                } else {
                    assert(r@ == before);
                    if x == v@[k as int] {
                        assert(before[before.len() - 1] == x);
                    }
                }
            }
        }
        k = k + 1;
    }
    proof {
        assert(v@.subrange(0, v@.len() as int) =~= v@);
    }
    r
}

/// `slice::sort_by_key` on positions, keyed by `lens[i]`: its documentation
/// says it sorts the slice in ascending order of the key, keeping equal keys
/// in their order, and panics where the key function does (here, an index
/// outside `lens`).
#[verifier::external_body]
fn sort_by_length(order: &mut Vec<usize>, lens: &Vec<usize>)
    requires
        forall|j: int| 0 <= j < old(order)@.len() ==> #[trigger] old(order)@[j] < lens@.len(),
    ensures
        permutes(final(order)@, old(order)@),
        forall|a: int, b: int|
            0 <= a <= b < final(order)@.len() ==> lens@[final(order)@[a] as int]
                <= lens@[final(order)@[b] as int],
{
    order.sort_by_key(|&i| lens[i]);
}

} // verus!
