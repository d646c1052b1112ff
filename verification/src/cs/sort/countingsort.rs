//! Counting sort of unsigned integers, which hands large value ranges to the
//! standard library's sort.

use crate::cs::sort::keyed::{
    ascending, key_count, lemma_blocks_keyed, lemma_key_count_nonneg, lemma_prefix_sum_bump,
    lemma_prefix_sum_monotone, prefix_sum,
};
use crate::permutation::permutes;
use vstd::multiset::Multiset;
use vstd::prelude::*;

verus! {

broadcast use vstd::seq_lib::group_to_multiset_ensures;

/// Values above this are sorted by the standard library instead.
pub const MAX_COUNTED_VALUE: u32 = 1_000_000;

/// The largest value in `slice`, or zero for an empty slice.
pub fn find_max(slice: &[u32]) -> (m: u32)
    ensures
        slice@.len() == 0 ==> m == 0,
        slice@.len() > 0 ==> slice@.contains(m),
        forall|k: int| 0 <= k < slice@.len() ==> #[trigger] slice@[k] <= m,
{
    if slice.len() == 0 {
        return 0;
    }
    let mut m = slice[0];
    let mut i: usize = 1;
    while i < slice.len()
        invariant
            1 <= i <= slice@.len(),
            slice@.contains(m),
            forall|k: int| 0 <= k < i ==> #[trigger] slice@[k] <= m,
        decreases slice@.len() - i,
    {
        if slice[i] > m {
            m = slice[i];
        }
        i = i + 1;
    }
    m
}

/// The key of a value in counting sort: the value itself.
pub open spec fn value_key() -> spec_fn(u32) -> int {
    |x: u32| x as int
}

/// `n` zeros.
pub open spec fn zeros(n: nat) -> Seq<u32> {
    Seq::new(n, |i: int| 0u32)
}

/// Sorts `slice` in ascending order by counting how often each value
/// occurs; slices holding a value above `MAX_COUNTED_VALUE` are sorted by the
/// standard library instead.
pub fn sort(slice: &mut [u32])
    ensures
        ascending(final(slice)@),
        permutes(final(slice)@, old(slice)@),
{
    let ghost s = slice@;
    let n = slice.len();
    if n <= 1 {
        return;
    }
    let max = find_max(slice);
    if max > MAX_COUNTED_VALUE {
        proof {
            crate::permutation::lemma_total_ord_u32();
        }
        crate::permutation::sort_unstable(slice);
        proof {
            crate::order::lemma_total_order_u32();
            assert forall|p: int, q: int| 0 <= p < q < slice@.len() implies #[trigger] slice@[p] <= #[trigger] slice@[q] by {
                assert(crate::order::leq(slice@[p], slice@[q]));
            }
        }
        return;
    }
    let ghost key = value_key();
    let k_len: usize = (max + 1) as usize;
    let mut count: Vec<usize> = vec![0; k_len];
    proof {
        assert(s.subrange(0, 0) =~= Seq::<u32>::empty());
        lemma_prefix_zero(count@.map_values(|c: usize| c as int), k_len - 1);
    }

    // Count each value.
    let mut i: usize = 0;
    while i < n
        invariant
            s == slice@,
            n == s.len(),
            max <= MAX_COUNTED_VALUE,
            k_len == max + 1,
            forall|k: int| 0 <= k < n ==> #[trigger] s[k] <= max,
            key == value_key(),
            i <= n,
            count@.len() == k_len,
            forall|v: int| 0 <= v < k_len ==> #[trigger] count@[v] == key_count(s.subrange(0, i as int), key, v),
            prefix_sum(count@.map_values(|c: usize| c as int), k_len - 1) == i,
        decreases n - i,
    {
        let value = slice[i];
        let ghost before = count@.map_values(|c: usize| c as int);
        proof {
            let sub = s.subrange(0, i + 1);
            assert(sub.drop_last() =~= s.subrange(0, i as int));
            lemma_key_count_nonneg(s.subrange(0, i as int), key, value as int);
        }
        count[value as usize] = count[value as usize] + 1;
        proof {
            let after = count@.map_values(|c: usize| c as int);
            assert(after =~= before.update(value as int, before[value as int] + 1));
            lemma_prefix_sum_bump(before, value as int, k_len - 1);
        }
        i = i + 1;
    }
    proof {
        assert(s.subrange(0, n as int) =~= s);
    }
    let ghost c: Seq<int> = count@.map_values(|x: usize| x as int);

    // Running sums: the end of each value's block.
    let mut i: usize = 1;
    proof {
        assert forall|k: int| 0 <= k < k_len implies c[k] >= 0 by {
            lemma_key_count_nonneg(s, key, k);
        }
        assert(prefix_sum(c, -1) == 0);
        assert(prefix_sum(c, 0) == c[0]);
        assert(count@[0] as int == c[0]);
    }
    while i < k_len
        invariant
            1 <= i <= k_len,
            count@.len() == k_len,
            c.len() == k_len,
            forall|k: int| 0 <= k < k_len ==> c[k] >= 0,
            prefix_sum(c, k_len - 1) == n,
            forall|v: int| 0 <= v < i ==> #[trigger] count@[v] == prefix_sum(c, v),
            forall|v: int| i <= v < k_len ==> #[trigger] count@[v] == c[v],
        decreases k_len - i,
    {
        proof {
            lemma_prefix_sum_monotone(c, i as int, k_len - 1);
        }
        count[i] = count[i] + count[i - 1];
        i = i + 1;
    }

    // Place the elements, from the last to the first.
    let mut output: Vec<u32> = vec![0; n];
    let mut k: usize = n;
    proof {
        assert(s.subrange(0, n as int) =~= s);
        assert(s.subrange(n as int, n as int) =~= Seq::<u32>::empty());
        assert(output@ =~= zeros(n as nat));
    }
    while k > 0
        invariant
            s == slice@,
            n == s.len(),
            k <= n,
            forall|j: int| 0 <= j < n ==> #[trigger] s[j] <= max,
            key == value_key(),
            count@.len() == k_len,
            k_len == max + 1,
            c.len() == k_len,
            forall|v: int| 0 <= v < k_len ==> c[v] >= 0,
            prefix_sum(c, k_len - 1) == n,
            forall|v: int| 0 <= v < k_len ==> c[v] == key_count(s, key, v),
            output@.len() == n,
            forall|v: int| 0 <= v < k_len ==> #[trigger] count@[v] <= prefix_sum(c, v),
            forall|v: int|
                0 <= v < k_len ==> #[trigger] count@[v] == prefix_sum(c, v - 1) + key_count(
                    s.subrange(0, k as int),
                    key,
                    v,
                ),
            forall|v: int, p: int|
                #![trigger count@[v], output@[p]]
                0 <= v < k_len && count@[v] <= p < prefix_sum(c, v) ==> output@[p] == v,
            forall|p: int|
                0 <= p < n && #[trigger] output@[p] != 0 ==> output@[p] < k_len && count@[output@[p] as int]
                    <= p < prefix_sum(c, output@[p] as int),
            output@.to_multiset() == s.subrange(k as int, n as int).to_multiset().add(
                zeros(k as nat).to_multiset(),
            ),
        decreases k,
    {
        let value = slice[k - 1];
        let ghost x = value as int;
        proof {
            let sub = s.subrange(0, k as int);
            assert(sub.drop_last() =~= s.subrange(0, k - 1));
            lemma_key_count_nonneg(s.subrange(0, k - 1), key, x);
            assert(count@[x] >= prefix_sum(c, x - 1) + 1);
            lemma_prefix_sum_monotone(c, -1, x - 1);
            lemma_prefix_sum_monotone(c, x, k_len - 1);
            lemma_key_count_nonneg(s.subrange(0, k as int), key, x);
        }
        let pos = count[value as usize] - 1;
        let ghost cnt_before = count@;
        let ghost at = pos as int;
        proof {
            // The position is free.
            assert(0 <= at < n);
            if output@[at] != 0 {
                let w = output@[at] as int;
                assert(w < k_len);
                lemma_key_count_nonneg(s.subrange(0, k as int), key, w);
                if w < x {
                    lemma_prefix_sum_monotone(c, w, x - 1);
                } else if w > x {
                    lemma_prefix_sum_monotone(c, x, w - 1);
                }
            }
            assert(output@[at] == 0);
        }
        count[value as usize] = pos;
        let ghost before = output@;
        output.set(pos, value);
        proof {
            // The multiset gains the value in place of one zero.
            assert(output@.to_multiset() =~= s.subrange(k - 1, n as int).to_multiset().add(
                zeros((k - 1) as nat).to_multiset(),
            )) by {
                broadcast use vstd::multiset::group_multiset_axioms;

                assert(before[at] == 0u32);
                vstd::seq_lib::to_multiset_update(before, at, value);
                let zk = zeros(k as nat);
                let zk1 = zeros((k - 1) as nat);
                assert(zk =~= zk1.push(0u32));
                vstd::seq_lib::to_multiset_build(zk1, 0u32);
                let rest = s.subrange(k as int, n as int);
                assert(s.subrange(k - 1, n as int) =~= seq![value] + rest);
                vstd::seq_lib::lemma_multiset_commutative(seq![value], rest);
                vstd::seq_lib::to_multiset_build(Seq::<u32>::empty(), value);
                assert(seq![value] =~= Seq::<u32>::empty().push(value));
                let m_rest = rest.to_multiset();
                let m_z1 = zk1.to_multiset();
                assert(before.to_multiset() == m_rest.add(m_z1.insert(0u32)));
                assert(output@.to_multiset() == m_rest.add(m_z1.insert(0u32)).insert(value).remove(0u32));
                assert(m_rest.add(m_z1.insert(0u32)).insert(value).remove(0u32) =~= m_rest.add(m_z1).insert(
                    value,
                ));
                assert(s.subrange(k - 1, n as int).to_multiset() =~= m_rest.insert(value));
                assert(output@.to_multiset() =~= s.subrange(k - 1, n as int).to_multiset().add(
                    zk1.to_multiset(),
                ));
            }
            assert forall|v: int, q: int|
                #![trigger count@[v], output@[q]]
                0 <= v < k_len && count@[v] <= q < prefix_sum(c, v) implies output@[q] == v by {
                lemma_prefix_sum_monotone(c, v, k_len - 1);
                if v != x {
                    assert(count@[v] == cnt_before[v]);
                    lemma_key_count_nonneg(s.subrange(0, k as int), key, v);
                    if q == at {
                        if v < x {
                            lemma_prefix_sum_monotone(c, v, x - 1);
                        } else {
                            lemma_prefix_sum_monotone(c, x, v - 1);
                        }
                    }
                    assert(before[q] == v);
                } else if q != at {
                    assert(before[q] == v);
                }
            }
            assert forall|q: int|
                0 <= q < n && #[trigger] output@[q] != 0 implies output@[q] < k_len && count@[output@[q] as int]
                    <= q < prefix_sum(c, output@[q] as int) by {
                if q != at {
                    assert(before[q] == output@[q]);
                    let w = output@[q] as int;
                    if w == x {
                        assert(cnt_before[w] <= q);
                    }
                }
            }
        }
        k = k - 1;
    }

    // Every position holds the value whose block it lies in.
    proof {
        assert(s.subrange(0, n as int) =~= s);
        assert(zeros(0) =~= Seq::<u32>::empty());
        assert(zeros(0).to_multiset() =~= Multiset::<u32>::empty());
        assert(output@.to_multiset() =~= s.to_multiset());
        assert forall|v: int| 0 <= v < k_len implies #[trigger] count@[v] == prefix_sum(c, v - 1) by {
            assert(s.subrange(0, 0) =~= Seq::<u32>::empty());
            assert(key_count(s.subrange(0, 0), key, v) == 0);
        }
        assert forall|v: int, q: int|
            #![trigger count@[v], output@[q]]
            0 <= v < k_len && count@[v] <= q < prefix_sum(c, v) implies key(output@[q]) == v by {
        }
        lemma_blocks_keyed(c, count@, output@, key);
        assert forall|p: int, q: int| 0 <= p < q < n implies #[trigger] output@[p] <= #[trigger] output@[q] by {
            assert(key(output@[p]) <= key(output@[q]));
        }
    }
    slice.copy_from_slice(output.as_slice());
}

/// Running sums of zeros are zero.
pub(crate) proof fn lemma_prefix_zero(c: Seq<int>, v: int)
    requires
        forall|k: int| 0 <= k < c.len() ==> c[k] == 0,
        v < c.len(),
    ensures
        prefix_sum(c, v) == 0,
    decreases v + 1,
{
    if v >= 0 {
        lemma_prefix_zero(c, v - 1);
    }
}

} // verus!
