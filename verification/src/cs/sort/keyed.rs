//! Counting by keys: how many elements have each key, and the running sums
//! that give each key its block of positions in the output.

use vstd::prelude::*;

verus! {

/// The elements are in ascending order.
pub open spec fn ascending(s: Seq<u32>) -> bool {
    forall|p: int, q: int| 0 <= p < q < s.len() ==> #[trigger] s[p] <= #[trigger] s[q]
}

/// How many elements of `s` have key `v`.
pub open spec fn key_count(s: Seq<u32>, key: spec_fn(u32) -> int, v: int) -> int
    decreases s.len(),
{
    if s.len() == 0 {
        0
    } else {
        key_count(s.drop_last(), key, v) + (if key(s.last()) == v {
            1int
        } else {
            0int
        })
    }
}

/// `c[0] + ... + c[v]`.
pub open spec fn prefix_sum(c: Seq<int>, v: int) -> int
    decreases v + 1,
{
    if v < 0 {
        0
    } else {
        prefix_sum(c, v - 1) + c[v]
    }
}

/// Counts never go negative.
pub proof fn lemma_key_count_nonneg(s: Seq<u32>, key: spec_fn(u32) -> int, v: int)
    ensures
        0 <= key_count(s, key, v) <= s.len(),
    decreases s.len(),
{
    if s.len() > 0 {
        lemma_key_count_nonneg(s.drop_last(), key, v);
    }
}

/// Adding one to an entry adds one to every running sum that includes it.
pub proof fn lemma_prefix_sum_bump(c: Seq<int>, x: int, v: int)
    requires
        0 <= x < c.len(),
        v < c.len(),
    ensures
        prefix_sum(c.update(x, c[x] + 1), v) == prefix_sum(c, v) + (if x <= v {
            1int
        } else {
            0int
        }),
    decreases v + 1,
{
    if v >= 0 {
        lemma_prefix_sum_bump(c, x, v - 1);
    }
}

/// Running sums of entries that are not negative never decrease.
pub proof fn lemma_prefix_sum_monotone(c: Seq<int>, u: int, v: int)
    requires
        u <= v < c.len(),
        forall|k: int| 0 <= k < c.len() ==> c[k] >= 0,
    ensures
        prefix_sum(c, u) <= prefix_sum(c, v),
    decreases v - u,
{
    if u < v {
        lemma_prefix_sum_monotone(c, u, v - 1);
        if v >= 0 {
        }
    }
}

/// Running sums that start at zero and end at `n` place every position
/// below `n` in the block of exactly one key.
pub proof fn lemma_prefix_sum_block(c: Seq<int>, p: int) -> (v: int)
    requires
        c.len() > 0,
        forall|k: int| 0 <= k < c.len() ==> c[k] >= 0,
        0 <= p < prefix_sum(c, c.len() - 1),
    ensures
        0 <= v < c.len(),
        prefix_sum(c, v - 1) <= p < prefix_sum(c, v),
    decreases c.len(),
{
    let last = c.len() - 1;
    if p >= prefix_sum(c, last - 1) {
        last
    } else {
        let d = c.drop_last();
        assert forall|k: int| -1 <= k < d.len() implies prefix_sum(d, k) == prefix_sum(c, k) by {
            lemma_prefix_sum_prefix(c, d, k);
        }
        lemma_prefix_sum_block(d, p)
    }
}

/// Once every key's block starts at the running sum before it and each
/// position of a block holds an element with that block's key, the keys of
/// the elements never decrease.
pub proof fn lemma_blocks_keyed(c: Seq<int>, count: Seq<usize>, output: Seq<u32>, key: spec_fn(u32) -> int)
    requires
        c.len() > 0,
        count.len() == c.len(),
        forall|v: int| 0 <= v < c.len() ==> c[v] >= 0,
        prefix_sum(c, c.len() - 1) == output.len(),
        forall|v: int| 0 <= v < c.len() ==> #[trigger] count[v] == prefix_sum(c, v - 1),
        forall|v: int, p: int|
            #![trigger count[v], output[p]]
            0 <= v < c.len() && count[v] <= p < prefix_sum(c, v) ==> key(output[p]) == v,
    ensures
        forall|p: int|
            0 <= p < output.len() ==> 0 <= key(#[trigger] output[p]) < c.len() && prefix_sum(
                c,
                key(output[p]) - 1,
            ) <= p < prefix_sum(c, key(output[p])),
        forall|p: int, q: int|
            0 <= p < q < output.len() ==> key(#[trigger] output[p]) <= key(#[trigger] output[q]),
{
    let n = output.len();
    assert forall|p: int| 0 <= p < n implies 0 <= key(#[trigger] output[p]) < c.len() && prefix_sum(
        c,
        key(output[p]) - 1,
    ) <= p < prefix_sum(c, key(output[p])) by {
        let v = lemma_prefix_sum_block(c, p);
        assert(count[v] == prefix_sum(c, v - 1));
        assert(key(output[p]) == v);
    }
    assert forall|p: int, q: int| 0 <= p < q < n implies key(#[trigger] output[p]) <= key(
        #[trigger] output[q],
    ) by {
        let vp = key(output[p]);
        let vq = key(output[q]);
        if vp > vq {
            lemma_prefix_sum_monotone(c, vq, vp - 1);
        }
    }
}

/// Running sums only read the entries up to their end.
pub proof fn lemma_prefix_sum_prefix(c: Seq<int>, d: Seq<int>, k: int)
    requires
        k < d.len() <= c.len(),
        forall|i: int| 0 <= i < d.len() ==> d[i] == c[i],
    ensures
        prefix_sum(d, k) == prefix_sum(c, k),
    decreases k + 1,
{
    if k >= 0 {
        lemma_prefix_sum_prefix(c, d, k - 1);
    }
}

} // verus!
