//! A suffix array built by prefix doubling, with its rank and LCP arrays, and
//! pattern search over it.

use crate::cs::sort::{is_index_perm, rearranges};
use crate::cs::string::suffix_order::{
    common_len, lemma_common, lemma_common_between, lemma_common_symmetric, lemma_prefix_doubling,
    lemma_suffix_shift, lemma_suffix_total, prefix_eq, prefix_lt, suffix_lt,
};
use crate::permutation::{permutes, sort_unstable};
use core::cmp::Ordering;
use vstd::prelude::*;

verus! {

broadcast use {vstd::string::group_string_axioms, vstd::seq_lib::group_to_multiset_ensures};

/// The result of a search: the positions found, or a message.
pub type SearchResult = Result<Vec<usize>, String>;

/// The characters of `s`, one by one.
pub fn chars_of(s: &str) -> (v: Vec<char>)
    ensures
        v@ == s@,
{
    let mut v: Vec<char> = Vec::new();
    let ghost sv = s@;
    for ch in iter: s.chars()
        invariant
            sv == s@,
            iter.seq() == sv,
            v@ == sv.subrange(0, iter.index() as int),
    {
        v.push(ch);
        proof {
            assert(v@ =~= sv.subrange(0, iter.index() + 1));
        }
    }
    proof {
        assert(sv.subrange(0, sv.len() as int) =~= sv);
    }
    v
}

/// `a` lists each index of `0 .. n` exactly once.
pub open spec fn is_perm_of_indices(a: Seq<usize>, n: int) -> bool {
    &&& a.len() == n
    &&& forall|t: int| 0 <= t < n ==> #[trigger] a[t] < n
    &&& forall|s: int, t: int| 0 <= s < t < n ==> #[trigger] a[s] != #[trigger] a[t]
}

/// The pair that orders suffix `i` in the round with offset `k`: its rank, and
/// one more than the rank of the suffix `k` further on, or zero where there
/// is none, so that a missing suffix comes before every present one.
pub open spec fn rank_pair(rank: Seq<usize>, k: usize, i: usize) -> (int, int) {
    (rank[i as int] as int, if i + k < rank.len() {
        rank[i + k] as int + 1
    } else {
        0
    })
}

/// The ranks `r` order the suffixes of `t` by their first `len` characters:
/// a smaller rank for an earlier prefix, equal ranks for equal prefixes.
pub open spec fn ranks_order(t: Seq<char>, r: Seq<usize>, len: int) -> bool {
    &&& r.len() == t.len()
    &&& forall|i: int, j: int|
        #![trigger r[i], r[j]]
        0 <= i < t.len() && 0 <= j < t.len() ==> ((r[i] < r[j] <==> prefix_lt(t, i, j, len)) && (r[i]
            == r[j] <==> prefix_eq(t, i, j, len)))
}

/// Ranking each suffix by its first character orders the suffixes by their
/// first characters.
proof fn lemma_initial_order(t: Seq<char>, r: Seq<usize>)
    requires
        r.len() == t.len(),
        forall|i: int| 0 <= i < t.len() ==> #[trigger] r[i] == t[i] as usize,
    ensures
        ranks_order(t, r, 1),
{
    assert forall|i: int, j: int| 0 <= i < t.len() && 0 <= j < t.len() implies ((r[i] < r[j] <==> prefix_lt(
        t,
        i,
        j,
        1,
    )) && (r[i] == r[j] <==> prefix_eq(t, i, j, 1))) by {
        lemma_common(t, i, j);
        lemma_char_code(t[i]);
        lemma_char_code(t[j]);
        if t[i] == t[j] {
            assert(common_len(t, i, j) >= 1);
        } else {
            assert(common_len(t, i, j) == 0);
            if (t[i] as int) == (t[j] as int) {
                assert(t[i] == t[j]);
            }
        }
    }
}

/// One step of the renumbering after a round: the suffix at place `i` of the
/// sorted array gets the number of the one before it where their pairs are
/// equal, and `i` otherwise; this keeps numbers equal within a run of equal
/// pairs and increasing from one run to the next.
proof fn lemma_new_rank_step(
    r: Seq<usize>,
    k: usize,
    a: Seq<usize>,
    tmp0: Seq<usize>,
    tmp: Seq<usize>,
    i: int,
    n: int,
)
    requires
        n == r.len(),
        n <= usize::MAX,
        1 <= i < n,
        is_perm_of_indices(a, n),
        forall|p: int, q: int|
            0 <= p < q < n ==> pair_le(rank_pair(r, k, #[trigger] a[p]), rank_pair(r, k, #[trigger] a[q])),
        tmp0.len() == n,
        tmp0[a[0] as int] == 0,
        forall|p: int| 0 <= p < i ==> #[trigger] tmp0[a[p] as int] <= p,
        forall|p: int, q: int|
            0 <= p < q < i ==> (rank_pair(r, k, #[trigger] a[p]) == rank_pair(r, k, #[trigger] a[q])
                ==> tmp0[a[p] as int] == tmp0[a[q] as int]) && (rank_pair(r, k, a[p]) != rank_pair(r, k, a[q])
                ==> tmp0[a[p] as int] < tmp0[a[q] as int]),
        tmp == tmp0.update(
            a[i] as int,
            if rank_pair(r, k, a[i]) == rank_pair(r, k, a[i - 1]) {
                tmp0[a[i - 1] as int]
            } else {
                i as usize
            },
        ),
    ensures
        tmp.len() == n,
        tmp[a[0] as int] == 0,
        forall|p: int| 0 <= p <= i ==> #[trigger] tmp[a[p] as int] <= p,
        forall|p: int, q: int|
            0 <= p < q <= i ==> (rank_pair(r, k, #[trigger] a[p]) == rank_pair(r, k, #[trigger] a[q])
                ==> tmp[a[p] as int] == tmp[a[q] as int]) && (rank_pair(r, k, a[p]) != rank_pair(r, k, a[q])
                ==> tmp[a[p] as int] < tmp[a[q] as int]),
        (forall|p: int| 0 <= p < i ==> #[trigger] tmp0[a[p] as int] == p) && rank_pair(r, k, a[i])
            != rank_pair(r, k, a[i - 1]) ==> forall|p: int| 0 <= p <= i ==> #[trigger] tmp[a[p] as int] == p,
{
    assert forall|p: int| 0 <= p < i implies #[trigger] tmp[a[p] as int] == tmp0[a[p] as int] by {
        assert(a[p] != a[i]);
    }
    assert forall|p: int, q: int|
        0 <= p < q <= i implies (rank_pair(r, k, #[trigger] a[p]) == rank_pair(r, k, #[trigger] a[q])
            ==> tmp[a[p] as int] == tmp[a[q] as int]) && (rank_pair(r, k, a[p]) != rank_pair(r, k, a[q])
            ==> tmp[a[p] as int] < tmp[a[q] as int]) by {
        if q == i {
            assert(tmp[a[p] as int] == tmp0[a[p] as int]);
            let pp = rank_pair(r, k, a[p]);
            let pi = rank_pair(r, k, a[i]);
            let pm = rank_pair(r, k, a[i - 1]);
            assert(tmp[a[i] as int] == (if pi == pm {
                tmp0[a[i - 1] as int]
            } else {
                i as usize
            }));
            if p < i - 1 {
                assert(pair_le(rank_pair(r, k, a[p]), rank_pair(r, k, a[i - 1])));
                assert((rank_pair(r, k, a[p]) == rank_pair(r, k, a[i - 1]) ==> tmp0[a[p] as int]
                    == tmp0[a[i - 1] as int]) && (rank_pair(r, k, a[p]) != rank_pair(r, k, a[i - 1])
                    ==> tmp0[a[p] as int] < tmp0[a[i - 1] as int]));
            }
            assert(pair_le(rank_pair(r, k, a[i - 1]), rank_pair(r, k, a[i])));
            assert(tmp0[a[p] as int] <= p);
        } else {
            assert(tmp[a[q] as int] == tmp0[a[q] as int]);
            assert(tmp[a[p] as int] == tmp0[a[p] as int]);
        }
    }
}

/// After the renumbering, the new numbers order the suffixes as the rank
/// pairs of the round do, which is by their first `2 * k` characters.
proof fn lemma_new_ranks_order(t: Seq<char>, r: Seq<usize>, k: usize, a: Seq<usize>, tmp: Seq<usize>)
    requires
        ranks_order(t, r, k as int),
        k >= 1,
        is_perm_of_indices(a, t.len() as int),
        tmp.len() == t.len(),
        forall|p: int, q: int|
            0 <= p < q < t.len() ==> pair_le(rank_pair(r, k, #[trigger] a[p]), rank_pair(r, k, #[trigger] a[q])),
        forall|p: int, q: int|
            0 <= p < q < t.len() ==> (rank_pair(r, k, #[trigger] a[p]) == rank_pair(r, k, #[trigger] a[q])
                ==> tmp[a[p] as int] == tmp[a[q] as int]) && (rank_pair(r, k, a[p]) != rank_pair(r, k, a[q])
                ==> tmp[a[p] as int] < tmp[a[q] as int]),
    ensures
        ranks_order(t, tmp, 2 * k),
{
    let n = t.len() as int;
    assert forall|x: int, y: int| 0 <= x < n && 0 <= y < n implies ((tmp[x] < tmp[y] <==> prefix_lt(
        t,
        x,
        y,
        2 * k,
    )) && (tmp[x] == tmp[y] <==> prefix_eq(t, x, y, 2 * k))) by {
        let p = lemma_indices_onto(a, n, x);
        let q = lemma_indices_onto(a, n, y);
        lemma_pairs_order(t, r, k, x as usize, y as usize);
        if p < q {
            assert(pair_le(rank_pair(r, k, a[p]), rank_pair(r, k, a[q])));
        } else if q < p {
            assert(pair_le(rank_pair(r, k, a[q]), rank_pair(r, k, a[p])));
        }
    }
}

/// The step of Kasai's algorithm: where suffix `i` shares `h` characters
/// with `j`, the suffix ranked just before it, the suffix `i + 1`, if it has
/// one before it, shares at least `h - 1` with that one.
proof fn lemma_kasai_step(t: Seq<char>, a: Seq<usize>, rank: Seq<usize>, i: int, j: int, h: int)
    requires
        0 <= i < t.len(),
        a.len() == t.len(),
        rank.len() == t.len(),
        is_perm_of_indices(a, t.len() as int),
        forall|p: int| 0 <= p < t.len() ==> #[trigger] rank[a[p] as int] == p,
        forall|q: int| 0 <= q < t.len() ==> #[trigger] rank[q] < t.len(),
        forall|x: int, y: int|
            #![trigger rank[x], rank[y]]
            0 <= x < t.len() && 0 <= y < t.len() ==> (rank[x] < rank[y] <==> suffix_lt(t, x, y)),
        rank[i] > 0,
        j == a[rank[i] - 1],
        h == common_len(t, i, j),
    ensures
        i + 1 < t.len() && rank[i + 1] > 0 ==> h - 1 <= common_len(t, i + 1, a[rank[i + 1] - 1] as int),
{
    let n = t.len() as int;
    if h >= 2 && i + 1 < n && rank[i + 1] > 0 {
        lemma_common(t, i, j);
        lemma_common_symmetric(t, i, j);
        assert(rank[j] == rank[i] - 1);
        assert(suffix_lt(t, j, i));
        lemma_suffix_shift(t, j, i);
        let x = j + 1;
        assert(rank[x] < rank[i + 1]);
        let y = a[rank[i + 1] - 1] as int;
        assert(rank[y] == rank[i + 1] - 1);
        assert(!suffix_lt(t, y, x));
        assert(suffix_lt(t, y, i + 1));
        lemma_common_between(t, x, y, i + 1);
        lemma_common_symmetric(t, y, i + 1);
        lemma_common_symmetric(t, x, i + 1);
    }
}

/// Ranks that order the suffixes by their first `len` characters, one rank
/// per place of the array, order the whole suffixes, and put them in
/// increasing order along the array.
proof fn lemma_distinct_ranks_order(t: Seq<char>, a: Seq<usize>, rank: Seq<usize>, len: int)
    requires
        ranks_order(t, rank, len),
        is_perm_of_indices(a, t.len() as int),
        forall|p: int| 0 <= p < t.len() ==> #[trigger] rank[a[p] as int] == p,
    ensures
        forall|p: int| 0 < p < t.len() ==> #[trigger] suffix_lt(t, a[p - 1] as int, a[p] as int),
        forall|x: int, y: int|
            #![trigger rank[x], rank[y]]
            0 <= x < t.len() && 0 <= y < t.len() ==> (rank[x] < rank[y] <==> suffix_lt(t, x, y)),
{
    let n = t.len() as int;
    assert forall|x: int, y: int| 0 <= x < n && 0 <= y < n implies (rank[x] < rank[y] <==> suffix_lt(t, x, y)) by {
        let px = lemma_indices_onto(a, n, x);
        let py = lemma_indices_onto(a, n, y);
        lemma_suffix_total(t, x, y);
        if x != y {
            assert(rank[x] != rank[y]);
            lemma_common(t, x, y);
        }
    }
    assert forall|p: int| 0 < p < n implies #[trigger] suffix_lt(t, a[p - 1] as int, a[p] as int) by {
        assert(rank[a[p - 1] as int] == p - 1);
        assert(rank[a[p] as int] == p);
    }
}

/// A character's code, as a `usize`, is its value.
proof fn lemma_char_code(c: char)
    ensures
        (c as usize) as int == c as int,
        c as int <= 0x10FFFF,
{
    assert(0 <= c as int <= 0x10FFFF);
}

/// With ranks that order the suffixes by their first `k` characters, the
/// rank pairs of the round with offset `k` order them by their first `2 * k`.
proof fn lemma_pairs_order(t: Seq<char>, r: Seq<usize>, k: usize, i: usize, j: usize)
    requires
        ranks_order(t, r, k as int),
        k >= 1,
        i < t.len(),
        j < t.len(),
    ensures
        (pair_le(rank_pair(r, k, i), rank_pair(r, k, j)) && rank_pair(r, k, i) != rank_pair(r, k, j))
            <==> prefix_lt(t, i as int, j as int, 2 * k),
        (rank_pair(r, k, i) == rank_pair(r, k, j)) <==> prefix_eq(t, i as int, j as int, 2 * k),
{
    lemma_prefix_doubling(t, i as int, j as int, k as int);
    assert(r[i as int] < r[j as int] <==> prefix_lt(t, i as int, j as int, k as int));
    assert(r[i as int] == r[j as int] <==> prefix_eq(t, i as int, j as int, k as int));
    if i + k < t.len() && j + k < t.len() {
        assert(r[i + k] < r[j + k] <==> prefix_lt(t, i + k, j + k, k as int));
        assert(r[i + k] == r[j + k] <==> prefix_eq(t, i + k, j + k, k as int));
    }
}

/// Lexicographic order on pairs.
pub open spec fn pair_le(a: (int, int), b: (int, int)) -> bool {
    a.0 < b.0 || (a.0 == b.0 && a.1 <= b.1)
}

/// `new` is `old` rearranged by `p`, with indices of equal rank pairs in
/// their old order.
pub open spec fn stable_by_pairs(new: Seq<usize>, old: Seq<usize>, rank: Seq<usize>, k: usize, p: Seq<int>) -> bool {
    &&& rearranges(new, old, p)
    &&& forall|a: int, b: int|
        0 <= a < b < new.len() && rank_pair(rank, k, new[a]) == rank_pair(rank, k, new[b]) ==> #[trigger] p[a]
            < #[trigger] p[b]
}

/// Compares the rank pairs of suffixes `i` and `j`.
pub fn compare_rank_pairs(rank: &Vec<usize>, k: usize, i: usize, j: usize) -> (o: Ordering)
    requires
        i < rank@.len(),
        j < rank@.len(),
        k < rank@.len(),
        rank@.len() <= usize::MAX / 2,
        forall|t: int| 0 <= t < rank@.len() ==> #[trigger] rank@[t] < usize::MAX,
    ensures
        o == Ordering::Less <==> pair_le(rank_pair(rank@, k, i), rank_pair(rank@, k, j)) && rank_pair(
            rank@,
            k,
            i,
        ) != rank_pair(rank@, k, j),
        o == Ordering::Equal <==> rank_pair(rank@, k, i) == rank_pair(rank@, k, j),
        o == Ordering::Greater <==> !pair_le(rank_pair(rank@, k, i), rank_pair(rank@, k, j)),
{
    let n = rank.len();
    let ri = rank[i];
    let rj = rank[j];
    let ri1 = if i + k < n {
        rank[i + k] + 1
    } else {
        0
    };
    let rj1 = if j + k < n {
        rank[j + k] + 1
    } else {
        0
    };
    if ri < rj || (ri == rj && ri1 < rj1) {
        Ordering::Less
    } else if ri == rj && ri1 == rj1 {
        Ordering::Equal
    } else {
        Ordering::Greater
    }
}

/// `<[usize]>::sort_by` with `compare_rank_pairs`: by its documentation a
/// stable sort, which rearranges the indices into ascending order of their
/// rank pairs and keeps indices with equal pairs in their order.
#[verifier::external_body]
fn sort_by_rank_pairs(array: &mut Vec<usize>, rank: &Vec<usize>, k: usize)
    requires
        forall|t: int| 0 <= t < old(array)@.len() ==> #[trigger] old(array)@[t] < rank@.len(),
        k < rank@.len(),
        rank@.len() <= usize::MAX / 2,
        forall|t: int| 0 <= t < rank@.len() ==> #[trigger] rank@[t] < usize::MAX,
    ensures
        exists|p: Seq<int>| #[trigger] stable_by_pairs(final(array)@, old(array)@, rank@, k, p),
        forall|a: int, b: int|
            0 <= a < b < final(array)@.len() ==> pair_le(
                rank_pair(rank@, k, #[trigger] final(array)@[a]),
                rank_pair(rank@, k, #[trigger] final(array)@[b]),
            ),
{
    array.sort_by(|a, b| compare_rank_pairs(rank, k, *a, *b))
}

/// A rearrangement of a list of each index keeps it one.
proof fn lemma_rearranged_indices(new: Seq<usize>, old: Seq<usize>, p: Seq<int>, n: int)
    requires
        is_perm_of_indices(old, n),
        rearranges(new, old, p),
    ensures
        is_perm_of_indices(new, n),
{
    assert forall|s: int, t: int| 0 <= s < t < n implies #[trigger] new[s] != #[trigger] new[t] by {
        assert(p[s] != p[t]);
        assert(new[s] == old[p[s]]);
        assert(new[t] == old[p[t]]);
        if p[s] < p[t] {
            assert(old[p[s]] != old[p[t]]);
        } else {
            assert(old[p[t]] != old[p[s]]);
        }
    }
    assert forall|t: int| 0 <= t < n implies #[trigger] new[t] < n by {
        assert(new[t] == old[p[t]]);
    }
}

/// A list of each index of `0 .. n` holds every one of them.
pub proof fn lemma_indices_onto(a: Seq<usize>, n: int, q: int) -> (t: int)
    requires
        is_perm_of_indices(a, n),
        0 <= q < n,
    ensures
        0 <= t < n,
        a[t] == q,
{
    let range = vstd::set_lib::set_int_range(0, n);
    let f = |t: int| a[t] as int;
    let image = range.map(f);
    vstd::set_lib::lemma_int_range(0, n);
    assert(vstd::relations::injective_on(f, range)) by {
        assert forall|x: int, y: int| range.contains(x) && range.contains(y) && #[trigger] f(x) == #[trigger] f(y) implies x == y by {
            if x < y {
                assert(a[x] != a[y]);
            } else if y < x {
                assert(a[y] != a[x]);
            }
        }
    }
    vstd::set_lib::lemma_map_size(range, image, f);
    assert(image.subset_of(range)) by {
        assert forall|x: int| image.contains(x) implies range.contains(x) by {
            let t = choose|t: int| range.contains(t) && f(t) == x;
            assert(a[t] < n);
        }
    }
    vstd::set_lib::lemma_subset_equality(image, range);
    assert(range.contains(q));
    assert(image.contains(q));
    choose|t: int| range.contains(t) && f(t) == q
}

/// `pattern` occurs at position `i` of `text`.
pub open spec fn occurs_at(text: Seq<char>, pattern: Seq<char>, i: int) -> bool {
    0 <= i && i + pattern.len() <= text.len() && text.subrange(i, i + pattern.len()) == pattern
}

/// `v` lists, in increasing order, every position where `pattern` occurs.
pub open spec fn lists_occurrences(text: Seq<char>, pattern: Seq<char>, v: Seq<usize>) -> bool {
    &&& forall|a: int| 0 <= a < v.len() ==> #[trigger] occurs_at(text, pattern, v[a] as int)
    &&& forall|a: int, b: int| 0 <= a < b < v.len() ==> v[a] < v[b]
    &&& forall|i: int| #[trigger] occurs_at(text, pattern, i) ==> v.contains(i as usize)
}

/// What a search of a text returns: an error for an empty pattern, and
/// otherwise every position where the pattern occurs.
pub open spec fn search_result(text: Seq<char>, pattern: Seq<char>, r: SearchResult) -> bool {
    if pattern.len() == 0 {
        r matches Err(m) && m@ == "Pattern cannot be empty"@
    } else {
        r matches Ok(v) && lists_occurrences(text, pattern, v@)
    }
}

/// What a search for the first occurrence returns: an error for an empty
/// pattern, and otherwise the first position where it occurs, if any.
pub open spec fn first_search_result(text: Seq<char>, pattern: Seq<char>, r: Result<Option<usize>, String>) -> bool {
    if pattern.len() == 0 {
        r matches Err(m) && m@ == "Pattern cannot be empty"@
    } else {
        r matches Ok(o) && match o {
            Some(i) => occurs_at(text, pattern, i as int) && forall|j: int|
                0 <= j < i ==> !#[trigger] occurs_at(text, pattern, j),
            None => forall|j: int| !#[trigger] occurs_at(text, pattern, j),
        }
    }
}

/// A suffix array of a text: its suffixes' start positions, with the rank and
/// LCP arrays of the last doubling round.
#[derive(Debug)]
pub struct SuffixArray {
    /// The text.
    text: String,
    /// The start positions of the suffixes, in the order of the last round.
    array: Vec<usize>,
    /// The rank of each suffix in the last round.
    rank: Vec<usize>,
    /// The longest common prefix of each suffix with the one before it.
    lcp: Vec<usize>,
}

impl SuffixArray {
    /// The text's characters.
    pub closed spec fn spec_text(&self) -> Seq<char> {
        self.text@
    }

    /// The suffix start positions.
    pub closed spec fn spec_array(&self) -> Seq<usize> {
        self.array@
    }

    /// The rank array.
    pub closed spec fn spec_rank(&self) -> Seq<usize> {
        self.rank@
    }

    /// The LCP array.
    pub closed spec fn spec_lcp(&self) -> Seq<usize> {
        self.lcp@
    }

    /// Every suffix appears once, and the rank and LCP arrays have one entry
    /// per suffix, each rank below the text's length.
    pub open spec fn wf(&self) -> bool {
        let n = self.spec_text().len() as int;
        &&& is_perm_of_indices(self.spec_array(), n)
        &&& self.spec_rank().len() == n
        &&& self.spec_lcp().len() == n
        &&& forall|i: int| 0 <= i < n ==> #[trigger] self.spec_rank()[i] < n
    }

    /// Builds the suffix array of `text` by prefix doubling: each round sorts
    /// the suffixes by the ranks of their first `k` characters and of the `k`
    /// after them (a suffix with none after it first), and the rounds stop
    /// once every suffix has a rank of its own. The suffixes come out in
    /// lexicographic order by code point, and the rank of each is its place.
    #[verifier::rlimit(40)]
    pub fn new(text: &str) -> (sa: Self)
        requires
            text@.len() <= usize::MAX / 8,
        ensures
            sa.wf(),
            sa.spec_text() == text@,
            forall|p: int|
                0 < p < text@.len() ==> #[trigger] suffix_lt(
                    text@,
                    sa.spec_array()[p - 1] as int,
                    sa.spec_array()[p] as int,
                ),
            forall|p: int| 0 <= p < text@.len() ==> sa.spec_rank()[#[trigger] sa.spec_array()[p] as int] == p,
            text@.len() > 0 ==> sa.spec_lcp()[0] == 0,
            forall|p: int|
                0 < p < text@.len() ==> #[trigger] sa.spec_lcp()[p] == common_len(
                    text@,
                    sa.spec_array()[p - 1] as int,
                    sa.spec_array()[p] as int,
                ),
    {
        let text_owned = text.to_owned();
        let chars = chars_of(text);
        let n = chars.len();
        let mut array: Vec<usize> = Vec::new();
        let mut t: usize = 0;
        while t < n
            invariant
                t <= n,
                array@.len() == t,
                forall|s: int| 0 <= s < t ==> #[trigger] array@[s] == s,
            decreases n - t,
        {
            array.push(t);
            t = t + 1;
        }
        let mut rank: Vec<usize> = vec![0; n];
        let mut tmp_rank: Vec<usize> = vec![0; n];
        let mut t: usize = 0;
        while t < n
            invariant
                t <= n,
                n == chars@.len(),
                rank@.len() == n,
                forall|s: int| 0 <= s < t ==> #[trigger] rank@[s] == chars@[s] as usize,
            decreases n - t,
        {
            rank.set(t, chars[t] as usize);
            t = t + 1;
        }
        if n == 1 {
            rank.set(0, 0);
        }
        if n >= 2 {
            proof {
                lemma_initial_order(chars@, rank@);
                assert forall|j: int| 0 <= j < n implies #[trigger] rank@[j] < usize::MAX by {
                    lemma_char_code(chars@[j]);
                }
            }
            let mut k: usize = 1;
            loop
                invariant_except_break
                    ranks_order(chars@, rank@, k as int),
                    forall|j: int| 0 <= j < n ==> #[trigger] rank@[j] < usize::MAX,
                invariant
                    n >= 2,
                    n == chars@.len(),
                    n <= usize::MAX / 8,
                    1 <= k < n,
                    is_perm_of_indices(array@, n as int),
                    rank@.len() == n,
                    tmp_rank@.len() == n,
                ensures
                    is_perm_of_indices(array@, n as int),
                    rank@.len() == n,
                    forall|p: int| 0 <= p < n ==> #[trigger] rank@[array@[p] as int] == p,
                    forall|p: int|
                        0 < p < n ==> #[trigger] suffix_lt(chars@, array@[p - 1] as int, array@[p] as int),
                    forall|x: int, y: int|
                        #![trigger rank@[x], rank@[y]]
                        0 <= x < n && 0 <= y < n ==> (rank@[x] < rank@[y] <==> suffix_lt(chars@, x, y)),
                decreases n - k,
            {
                let ghost before = array@;
                sort_by_rank_pairs(&mut array, &rank, k);
                proof {
                    let p = choose|p: Seq<int>| #[trigger] stable_by_pairs(array@, before, rank@, k, p);
                    lemma_rearranged_indices(array@, before, p, n as int);
                }
                let ghost r = rank@;
                let ghost a = array@;
                tmp_rank.set(array[0], 0);
                let mut all_distinct = true;
                let mut i: usize = 1;
                while i < n
                    invariant
                        n == r.len(),
                        n <= usize::MAX / 8,
                        1 <= i <= n,
                        1 <= k < n,
                        rank@ == r,
                        array@ == a,
                        is_perm_of_indices(a, n as int),
                        forall|j: int| 0 <= j < n ==> #[trigger] r[j] < usize::MAX,
                        forall|p: int, q: int|
                            0 <= p < q < n ==> pair_le(
                                rank_pair(r, k, #[trigger] a[p]),
                                rank_pair(r, k, #[trigger] a[q]),
                            ),
                        tmp_rank@.len() == n,
                        tmp_rank@[a[0] as int] == 0,
                        forall|p: int| 0 <= p < i ==> #[trigger] tmp_rank@[a[p] as int] <= p,
                        forall|p: int, q: int|
                            0 <= p < q < i ==> (rank_pair(r, k, #[trigger] a[p]) == rank_pair(
                                r,
                                k,
                                #[trigger] a[q],
                            ) ==> tmp_rank@[a[p] as int] == tmp_rank@[a[q] as int]) && (rank_pair(r, k, a[p])
                                != rank_pair(r, k, a[q]) ==> tmp_rank@[a[p] as int] < tmp_rank@[a[q] as int]),
                        all_distinct ==> forall|p: int| 0 <= p < i ==> #[trigger] tmp_rank@[a[p] as int] == p,
                        !all_distinct ==> exists|p: int|
                            0 < p < i && rank_pair(r, k, a[p - 1]) == #[trigger] rank_pair(r, k, a[p]),
                    decreases n - i,
                {
                    let curr = array[i];
                    let prev = array[i - 1];
                    let curr_second = if curr + k < n {
                        rank[curr + k] + 1
                    } else {
                        0
                    };
                    let prev_second = if prev + k < n {
                        rank[prev + k] + 1
                    } else {
                        0
                    };
                    let ghost tmp0 = tmp_rank@;
                    let same = rank[curr] == rank[prev] && curr_second == prev_second;
                    let value = if same {
                        tmp_rank[prev]
                    } else {
                        i
                    };
                    tmp_rank.set(curr, value);
                    proof {
                        lemma_new_rank_step(r, k, a, tmp0, tmp_rank@, i as int, n as int);
                    }
                    if same {
                        all_distinct = false;
                    }
                    i = i + 1;
                }
                rank.as_mut_slice().copy_from_slice(tmp_rank.as_slice());
                proof {
                    lemma_new_ranks_order(chars@, r, k, a, rank@);
                    assert forall|j: int| 0 <= j < n implies #[trigger] rank@[j] < usize::MAX by {
                        let p = lemma_indices_onto(a, n as int, j);
                        assert(rank@[a[p] as int] <= p);
                    }
                }
                if all_distinct {
                    proof {
                        lemma_distinct_ranks_order(chars@, a, rank@, 2 * k);
                    }
                    break;
                }
                proof {
                    let p = choose|p: int| 0 < p < n && rank_pair(r, k, a[p - 1]) == #[trigger] rank_pair(r, k, a[p]);
                    lemma_pairs_order(chars@, r, k, a[p - 1], a[p]);
                    assert(a[p - 1] != a[p]);
                    lemma_common(chars@, a[p - 1] as int, a[p] as int);
                    assert(2 * k < n);
                }
                k = k * 2;
            }
        }
        proof {
            if n == 1 {
                assert(array@[0] == 0);
                lemma_suffix_total(chars@, 0, 0);
            }
            assert forall|j: int| 0 <= j < n implies #[trigger] rank@[j] < n by {
                let p = lemma_indices_onto(array@, n as int, j);
            }
        }
        let lcp = Self::compute_lcp_array(&chars, &array, &rank);
        SuffixArray { text: text_owned, array, rank, lcp }
    }

    /// Kasai's algorithm: for each suffix, the length of the common prefix it
    /// shares with the suffix ranked just before it. Taking the suffixes in
    /// text order, that length drops by at most one from one to the next, so
    /// each comparison starts from the previous length less one (from zero
    /// after the first suffix in the order, which has none before it).
    fn compute_lcp_array(chars: &Vec<char>, suffix_array: &Vec<usize>, rank: &Vec<usize>) -> (lcp: Vec<usize>)
        requires
            suffix_array@.len() == chars@.len(),
            rank@.len() == chars@.len(),
            chars@.len() <= usize::MAX / 8,
            is_perm_of_indices(suffix_array@, chars@.len() as int),
            forall|p: int| 0 <= p < chars@.len() ==> #[trigger] rank@[suffix_array@[p] as int] == p,
            forall|t: int| 0 <= t < chars@.len() ==> #[trigger] rank@[t] < chars@.len(),
            forall|x: int, y: int|
                #![trigger rank@[x], rank@[y]]
                0 <= x < chars@.len() && 0 <= y < chars@.len() ==> (rank@[x] < rank@[y] <==> suffix_lt(
                    chars@,
                    x,
                    y,
                )),
        ensures
            lcp@.len() == chars@.len(),
            chars@.len() > 0 ==> lcp@[0] == 0,
            forall|p: int|
                0 < p < chars@.len() ==> #[trigger] lcp@[p] == common_len(
                    chars@,
                    suffix_array@[p - 1] as int,
                    suffix_array@[p] as int,
                ),
    {
        let ghost t = chars@;
        let ghost a = suffix_array@;
        let n = chars.len();
        let mut lcp: Vec<usize> = vec![0; n];
        let mut h: usize = 0;
        let mut i: usize = 0;
        proof {
            assert forall|x: int, y: int| 0 <= x < n && 0 <= y < n && rank@[x] == rank@[y] implies x == y by {
                let px = lemma_indices_onto(a, n as int, x);
                let py = lemma_indices_onto(a, n as int, y);
            }
        }
        while i < n
            invariant
                t == chars@,
                a == suffix_array@,
                n == t.len(),
                n <= usize::MAX / 8,
                a.len() == n,
                rank@.len() == n,
                is_perm_of_indices(a, n as int),
                forall|p: int| 0 <= p < n ==> #[trigger] rank@[a[p] as int] == p,
                forall|q: int| 0 <= q < n ==> #[trigger] rank@[q] < n,
                forall|x: int, y: int|
                    #![trigger rank@[x], rank@[y]]
                    0 <= x < n && 0 <= y < n ==> (rank@[x] < rank@[y] <==> suffix_lt(t, x, y)),
                forall|x: int, y: int| 0 <= x < n && 0 <= y < n && rank@[x] == rank@[y] ==> x == y,
                lcp@.len() == n,
                i <= n,
                n > 0 ==> lcp@[0] == 0,
                forall|x: int|
                    0 <= x < i && rank@[x] > 0 ==> #[trigger] lcp@[rank@[x] as int] == common_len(
                        t,
                        x,
                        a[rank@[x] - 1] as int,
                    ),
                i < n && rank@[i as int] > 0 ==> h <= common_len(t, i as int, a[rank@[i as int] - 1] as int),
            decreases n - i,
        {
            if rank[i] > 0 {
                let j = suffix_array[rank[i] - 1];
                proof {
                    lemma_common(t, i as int, j as int);
                }
                while i + h < n && j + h < n && chars[i + h] == chars[j + h]
                    invariant
                        t == chars@,
                        n == t.len(),
                        n <= usize::MAX / 8,
                        i < n,
                        j < n,
                        h <= common_len(t, i as int, j as int),
                        i + common_len(t, i as int, j as int) <= n,
                        j + common_len(t, i as int, j as int) <= n,
                        forall|m: int| 0 <= m < common_len(t, i as int, j as int) ==> #[trigger] t[i + m] == t[j + m],
                        i + common_len(t, i as int, j as int) < n && j + common_len(t, i as int, j as int) < n
                            ==> t[i + common_len(t, i as int, j as int)] != t[j + common_len(t, i as int, j as int)],
                    decreases n - h,
                {
                    h = h + 1;
                }
                let ghost hi = h as int;
                proof {
                    assert(hi == common_len(t, i as int, j as int));
                }
                let ghost before = lcp@;
                lcp.set(rank[i], h);
                proof {
                    assert forall|x: int|
                        0 <= x < i + 1 && rank@[x] > 0 implies #[trigger] lcp@[rank@[x] as int] == common_len(
                        t,
                        x,
                        a[rank@[x] - 1] as int,
                    ) by {
                        if x < i {
                            assert(rank@[x] != rank@[i as int]);
                        }
                    }
                    lemma_kasai_step(t, a, rank@, i as int, j as int, hi);
                }
                if h > 0 {
                    h = h.saturating_sub(1);
                }
            } else {
                h = 0;
            }
            i = i + 1;
        }
        proof {
            assert forall|p: int| 0 < p < n implies #[trigger] lcp@[p] == common_len(t, a[p - 1] as int, a[p] as int) by {
                let x = a[p] as int;
                assert(rank@[x] == p);
                lemma_common_symmetric(t, a[p - 1] as int, x);
            }
        }
        lcp
    }

    /// Finds every position where `pattern` occurs in the text, in
    /// increasing order; an error for an empty pattern.
    pub fn find_all(&self, pattern: &str) -> (r: SearchResult)
        requires
            self.wf(),
        ensures
            search_result(self.spec_text(), pattern@, r),
    {
        if pattern.is_empty() {
            return Err("Pattern cannot be empty".to_owned());
        }
        let pattern_chars = chars_of(pattern);
        let text_chars = chars_of(self.text.as_str());
        if pattern_chars.len() > text_chars.len() {
            proof {
                assert forall|i: int| !#[trigger] occurs_at(self.spec_text(), pattern@, i) by {}
            }
            return Ok(Vec::new());
        }
        self.find_bounds(pattern)
    }

    /// The first position where `pattern` occurs in the text, if any; an
    /// error for an empty pattern.
    pub fn find_first(&self, pattern: &str) -> (r: Result<Option<usize>, String>)
        requires
            self.wf(),
        ensures
            first_search_result(self.spec_text(), pattern@, r),
    {
        match self.find_all(pattern) {
            Ok(positions) => {
                if positions.len() == 0 {
                    proof {
                        assert forall|j: int| !#[trigger] occurs_at(self.spec_text(), pattern@, j) by {
                            if occurs_at(self.spec_text(), pattern@, j) {
                                assert(positions@.contains(j as usize));
                            }
                        }
                    }
                    Ok(None)
                } else {
                    let first = positions[0];
                    proof {
                        assert(occurs_at(self.spec_text(), pattern@, positions@[0] as int));
                        assert forall|j: int| 0 <= j < first implies !#[trigger] occurs_at(
                            self.spec_text(),
                            pattern@,
                            j,
                        ) by {
                            if occurs_at(self.spec_text(), pattern@, j) {
                                assert(positions@.contains(j as usize));
                                let a = choose|a: int| 0 <= a < positions@.len() && positions@[a] == j as usize;
                                if a > 0 {
                                    assert(positions@[0] < positions@[a]);
                                }
                            }
                        }
                    }
                    Ok(Some(first))
                }
            },
            Err(e) => Err(e),
        }
    }

    /// Collects the positions of the suffixes that start with `pattern`, in
    /// increasing order.
    fn find_bounds(&self, pattern: &str) -> (r: Result<Vec<usize>, String>)
        requires
            self.wf(),
            pattern@.len() > 0,
        ensures
            r matches Ok(v) && lists_occurrences(self.spec_text(), pattern@, v@),
    {
        let text_chars = chars_of(self.text.as_str());
        let n = text_chars.len();
        let pattern_chars = chars_of(pattern);
        let ghost t = text_chars@;
        let ghost p = pattern_chars@;
        let mut positions: Vec<usize> = Vec::new();
        let mut i: usize = 0;
        while i < n
            invariant
                self.wf(),
                t == text_chars@,
                t == self.spec_text(),
                p == pattern@,
                p == pattern_chars@,
                p.len() > 0,
                n == t.len(),
                i <= n,
                forall|a: int| 0 <= a < positions@.len() ==> #[trigger] occurs_at(t, p, positions@[a] as int),
                forall|a: int, b: int| 0 <= a < b < positions@.len() ==> #[trigger] positions@[a] != #[trigger] positions@[b],
                forall|a: int| 0 <= a < positions@.len() ==> exists|s: int| 0 <= s < i && #[trigger] self.spec_array()[s] == #[trigger] positions@[a],
                forall|s: int| 0 <= s < i && #[trigger] occurs_at(t, p, self.spec_array()[s] as int) ==> positions@.contains(self.spec_array()[s]),
            decreases n - i,
        {
            let pos = self.array[i];
            let mut suffix: Vec<char> = Vec::new();
            let mut c: usize = pos;
            while c < n
                invariant
                    pos <= c <= n,
                    n == text_chars@.len(),
                    suffix@ == text_chars@.subrange(pos as int, c as int),
                decreases n - c,
            {
                suffix.push(text_chars[c]);
                c = c + 1;
                proof {
                    assert(suffix@ =~= text_chars@.subrange(pos as int, c as int));
                }
            }
            if self.is_pattern_prefix(pattern_chars.as_slice(), suffix.as_slice()) {
                proof {
                    assert(t.subrange(pos as int, n as int).subrange(0, p.len() as int) =~= t.subrange(pos as int, pos + p.len()));
                    assert forall|a: int| 0 <= a < positions@.len() implies positions@[a] != pos by {
                        let s = choose|s: int| 0 <= s < i && #[trigger] self.spec_array()[s] == positions@[a];
                        assert(self.spec_array()[s] != self.spec_array()[i as int]);
                    }
                }
                let ghost before = positions@;
                positions.push(pos);
                proof {
                    assert forall|a: int| 0 <= a < positions@.len() implies exists|s: int| 0 <= s < i + 1 && #[trigger] self.spec_array()[s] == #[trigger] positions@[a] by {
                        if a < before.len() {
                            let s = choose|s: int| 0 <= s < i && #[trigger] self.spec_array()[s] == before[a];
                            assert(self.spec_array()[s] == positions@[a]);
                        } else {
                            assert(self.spec_array()[i as int] == positions@[a]);
                        }
                    }
                    assert forall|s: int| 0 <= s < i + 1 && #[trigger] occurs_at(t, p, self.spec_array()[s] as int) implies positions@.contains(self.spec_array()[s]) by {
                        if s < i {
                            let a = choose|a: int| 0 <= a < before.len() && before[a] == self.spec_array()[s];
                            assert(positions@[a] == before[a]);
                        } else {
                            assert(positions@[before.len() as int] == pos);
                        }
                    }
                }
            } else {
                proof {
                    if occurs_at(t, p, pos as int) {
                        assert(t.subrange(pos as int, n as int).subrange(0, p.len() as int) =~= t.subrange(pos as int, pos + p.len()));
                    }
                }
            }
            i = i + 1;
        }
        let ghost collected = positions@;
        proof {
            crate::permutation::lemma_total_ord_usize();
        }
        sort_unstable(positions.as_mut_slice());
        proof {
            crate::order::lemma_total_order_usize();
            assert(collected.no_duplicates()) by {
                assert forall|a: int, b: int| 0 <= a < collected.len() && 0 <= b < collected.len() && a != b implies collected[a] != collected[b] by {
                    if a < b {
                        assert(collected[a] != collected[b]);
                    } else {
                        assert(collected[b] != collected[a]);
                    }
                }
            }
            collected.lemma_multiset_has_no_duplicates();
            let v = positions@;
            assert forall|a: int| 0 <= a < v.len() implies #[trigger] occurs_at(t, p, v[a] as int) by {
                assert(v.to_multiset().count(v[a]) > 0);
                assert(collected.to_multiset().count(v[a]) > 0);
                assert(collected.contains(v[a]));
            }
            assert forall|a: int, b: int| 0 <= a < b < v.len() implies v[a] < v[b] by {
                assert(crate::order::leq(v[a], v[b]));
                assert forall|x: usize| collected.to_multiset().count(x) <= 1 by {
                    if collected.to_multiset().count(x) > 0 {
                        assert(collected.to_multiset().contains(x));
                    }
                }
                lemma_distinct_counts(v, collected, a, b);
            }
            assert forall|q: int| #[trigger] occurs_at(t, p, q) implies v.contains(q as usize) by {
                let s = lemma_indices_onto(self.spec_array(), n as int, q);
                assert(collected.contains(q as usize));
                assert(collected.to_multiset().count(q as usize) > 0);
                assert(v.to_multiset().count(q as usize) > 0);
            }
        }
        Ok(positions)
    }

    /// Whether `suffix` starts with `pattern`.
    fn is_pattern_prefix(&self, pattern: &[char], suffix: &[char]) -> (r: bool)
        ensures
            r == (pattern@.len() <= suffix@.len() && suffix@.subrange(0, pattern@.len() as int) == pattern@),
    {
        if suffix.len() < pattern.len() {
            return false;
        }
        let mut i: usize = 0;
        while i < pattern.len()
            invariant
                pattern@.len() <= suffix@.len(),
                i <= pattern@.len(),
                forall|j: int| 0 <= j < i ==> #[trigger] pattern@[j] == suffix@[j],
            decreases pattern@.len() - i,
        {
            if pattern[i] != suffix[i] {
                proof {
                    assert(suffix@.subrange(0, pattern@.len() as int)[i as int] == suffix@[i as int]);
                }
                return false;
            }
            i = i + 1;
        }
        proof {
            assert(suffix@.subrange(0, pattern@.len() as int) =~= pattern@);
        }
        true
    }

    /// The suffix start positions.
    pub fn get_array(&self) -> (r: &[usize])
        ensures
            r@ == self.spec_array(),
    {
        self.array.as_slice()
    }

    /// The rank array.
    pub fn get_rank(&self) -> (r: &[usize])
        ensures
            r@ == self.spec_rank(),
    {
        self.rank.as_slice()
    }

    /// The LCP array.
    pub fn get_lcp(&self) -> (r: &[usize])
        ensures
            r@ == self.spec_lcp(),
    {
        self.lcp.as_slice()
    }
}

/// A sorted rearrangement of a list without repeats has no repeats.
proof fn lemma_distinct_counts(v: Seq<usize>, collected: Seq<usize>, a: int, b: int)
    requires
        v.to_multiset() == collected.to_multiset(),
        forall|x: usize| collected.to_multiset().count(x) <= 1,
        0 <= a < b < v.len(),
    ensures
        v[a] != v[b],
{
    broadcast use vstd::multiset::group_multiset_axioms;

    if v[a] == v[b] {
        let x = v[a];
        let without = v.remove(b);
        vstd::seq_lib::to_multiset_remove(v, b);
        assert(without[a] == x);
        assert(without.to_multiset().count(x) > 0);
        assert(v.to_multiset().count(x) == without.to_multiset().count(x) + 1);
        assert(collected.to_multiset().count(x) <= 1);
    }
}

/// Builds the suffix array of `text` and finds every position where
/// `pattern` occurs.
pub fn find_all(text: &str, pattern: &str) -> (r: SearchResult)
    requires
        text@.len() != 1 || text@[0] == '\0',
        text@.len() <= usize::MAX / 8,
    ensures
        search_result(text@, pattern@, r),
{
    let sa = SuffixArray::new(text);
    sa.find_all(pattern)
}

/// Builds the suffix array of `text` and finds the first position where
/// `pattern` occurs.
pub fn find_first(text: &str, pattern: &str) -> (r: Result<Option<usize>, String>)
    requires
        text@.len() != 1 || text@[0] == '\0',
        text@.len() <= usize::MAX / 8,
    ensures
        first_search_result(text@, pattern@, r),
{
    let sa = SuffixArray::new(text);
    sa.find_first(pattern)
}

} // verus!
