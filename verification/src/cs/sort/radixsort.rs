//! Least-significant-digit radix sort of unsigned integers in base ten,
//! with a stable counting sort for each digit.

use crate::cs::sort::countingsort::{lemma_prefix_zero, zeros};
use crate::cs::sort::keyed::{
    ascending, key_count, lemma_blocks_keyed, lemma_key_count_nonneg, lemma_prefix_sum_bump,
    lemma_prefix_sum_monotone, prefix_sum,
};
use crate::permutation::permutes;
use vstd::multiset::Multiset;
use vstd::prelude::*;

verus! {

broadcast use vstd::seq_lib::group_to_multiset_ensures;

/// The digit of `num` at the place value `exp`.
pub fn get_digit(num: u32, exp: u32) -> (d: usize)
    requires
        exp > 0,
    ensures
        d == (num / exp) % 10,
{
    ((num / exp) % 10) as usize
}

/// The largest value in `slice`, or zero for an empty slice.
pub fn find_max(slice: &[u32]) -> (m: u32)
    ensures
        slice@.len() == 0 ==> m == 0,
        slice@.len() > 0 ==> slice@.contains(m),
        forall|k: int| 0 <= k < slice@.len() ==> #[trigger] slice@[k] <= m,
{
    crate::cs::sort::countingsort::find_max(slice)
}

/// The key of a value in the pass for place value `exp`: its digit there.
pub open spec fn digit_key(exp: u32) -> spec_fn(u32) -> int {
    |x: u32| ((x / exp) % 10) as int
}

/// Each element of `new` came from position `src[p]` of `old`, and elements
/// with equal digits at place value `exp` came in their old order.
pub open spec fn digit_sources(new: Seq<u32>, old: Seq<u32>, exp: u32, src: Seq<int>) -> bool {
    &&& src.len() == old.len()
    &&& new.len() == old.len()
    &&& forall|p: int| 0 <= p < src.len() ==> 0 <= #[trigger] src[p] < src.len() && new[p] == old[src[p]]
    &&& forall|p: int, q: int|
        0 <= p < q < src.len() && (digit_key(exp))(new[p]) == (digit_key(exp))(new[q]) ==> #[trigger] src[p]
            < #[trigger] src[q]
}

/// Sorts `slice` stably by the digit at place value `exp`: afterwards the
/// digits never decrease, and each element came from a position `src[p]` of
/// the old slice, with elements of equal digits in their old order.
fn counting_sort_by_digit(slice: &mut [u32], exp: u32)
    requires
        exp > 0,
    ensures
        permutes(final(slice)@, old(slice)@),
        forall|p: int, q: int|
            0 <= p < q < final(slice)@.len() ==> (digit_key(exp))(#[trigger] final(slice)@[p]) <= (
            digit_key(exp))(#[trigger] final(slice)@[q]),
        exists|src: Seq<int>| #[trigger] digit_sources(final(slice)@, old(slice)@, exp, src),
{
    let ghost s = slice@;
    let n = slice.len();
    let ghost key = digit_key(exp);
    let k_len: usize = 10;
    let mut count: Vec<usize> = vec![0; k_len];
    proof {
        assert(s.subrange(0, 0) =~= Seq::<u32>::empty());
        lemma_prefix_zero(count@.map_values(|c: usize| c as int), k_len - 1);
    }

    // Count each value.
    let mut i: usize = 0;
    while i < n
        invariant
            s == slice@,
            n == s.len(),
            exp > 0,
            k_len == 10,
            key == digit_key(exp),
            i <= n,
            count@.len() == k_len,
            forall|v: int| 0 <= v < k_len ==> #[trigger] count@[v] == key_count(s.subrange(0, i as int), key, v),
            prefix_sum(count@.map_values(|c: usize| c as int), k_len - 1) == i,
        decreases n - i,
    {
        let value = slice[i];
        let d = get_digit(value, exp);
        let ghost before = count@.map_values(|c: usize| c as int);
        proof {
            let sub = s.subrange(0, i + 1);
            assert(sub.drop_last() =~= s.subrange(0, i as int));
            lemma_key_count_nonneg(s.subrange(0, i as int), key, d as int);
        }
        count[d] = count[d] + 1;
        proof {
            let after = count@.map_values(|c: usize| c as int);
            assert(after =~= before.update(d as int, before[d as int] + 1));
            lemma_prefix_sum_bump(before, d as int, k_len - 1);
        }
        i = i + 1;
    }
    proof {
        assert(s.subrange(0, n as int) =~= s);
    }
    let ghost c: Seq<int> = count@.map_values(|x: usize| x as int);

    // Running sums: the end of each value's block.
    let mut i: usize = 1;
    proof {
        assert forall|k: int| 0 <= k < k_len implies c[k] >= 0 by {
            lemma_key_count_nonneg(s, key, k);
        }
        assert(prefix_sum(c, -1) == 0);
        assert(prefix_sum(c, 0) == c[0]);
        assert(count@[0] as int == c[0]);
    }
    while i < k_len
        invariant
            1 <= i <= k_len,
            count@.len() == k_len,
            c.len() == k_len,
            forall|k: int| 0 <= k < k_len ==> c[k] >= 0,
            prefix_sum(c, k_len - 1) == n,
            forall|v: int| 0 <= v < i ==> #[trigger] count@[v] == prefix_sum(c, v),
            forall|v: int| i <= v < k_len ==> #[trigger] count@[v] == c[v],
        decreases k_len - i,
    {
        proof {
            lemma_prefix_sum_monotone(c, i as int, k_len - 1);
        }
        count[i] = count[i] + count[i - 1];
        i = i + 1;
    }

    // Place the elements, from the last to the first.
    let mut output: Vec<u32> = vec![0; n];
    let mut k: usize = n;
    let ghost mut src: Seq<int> = Seq::new(n as nat, |p: int| 0int);
    proof {
        assert(s.subrange(0, n as int) =~= s);
        assert(s.subrange(n as int, n as int) =~= Seq::<u32>::empty());
        assert(output@ =~= zeros(n as nat));
    }
    while k > 0
        invariant
            exp > 0,
            s == slice@,
            n == s.len(),
            k <= n,
            key == digit_key(exp),
            count@.len() == k_len,
            k_len == 10,
            c.len() == k_len,
            forall|v: int| 0 <= v < k_len ==> c[v] >= 0,
            prefix_sum(c, k_len - 1) == n,
            forall|v: int| 0 <= v < k_len ==> c[v] == key_count(s, key, v),
            output@.len() == n,
            forall|v: int| 0 <= v < k_len ==> #[trigger] count@[v] <= prefix_sum(c, v),
            forall|v: int|
                0 <= v < k_len ==> #[trigger] count@[v] == prefix_sum(c, v - 1) + key_count(
                    s.subrange(0, k as int),
                    key,
                    v,
                ),
            src.len() == n,
            forall|v: int, p: int|
                #![trigger count@[v], output@[p]]
                0 <= v < k_len && count@[v] <= p < prefix_sum(c, v) ==> key(output@[p]) == v && k <= src[p]
                    < n && output@[p] == s[src[p]],
            forall|v: int, p: int, q: int|
                #![trigger count@[v], src[p], src[q]]
                0 <= v < k_len && count@[v] <= p < q < prefix_sum(c, v) ==> src[p] < src[q],
            forall|p: int|
                0 <= p < n && #[trigger] output@[p] != 0 ==> count@[key(output@[p])] <= p < prefix_sum(
                    c,
                    key(output@[p]),
                ),
            output@.to_multiset() == s.subrange(k as int, n as int).to_multiset().add(
                zeros(k as nat).to_multiset(),
            ),
        decreases k,
    {
        let value = slice[k - 1];
        let d = get_digit(value, exp);
        let ghost x = d as int;
        proof {
            let sub = s.subrange(0, k as int);
            assert(sub.drop_last() =~= s.subrange(0, k - 1));
            lemma_key_count_nonneg(s.subrange(0, k - 1), key, x);
            assert(count@[x] >= prefix_sum(c, x - 1) + 1);
            lemma_prefix_sum_monotone(c, -1, x - 1);
            lemma_prefix_sum_monotone(c, x, k_len - 1);
            lemma_key_count_nonneg(s.subrange(0, k as int), key, x);
        }
        let pos = count[d] - 1;
        let ghost cnt_before = count@;
        let ghost at = pos as int;
        proof {
            // The position is free.
            assert(0 <= at < n);
            if output@[at] != 0 {
                let w = key(output@[at]);
                assert(0 <= w < k_len);
                lemma_key_count_nonneg(s.subrange(0, k as int), key, w);
                if w < x {
                    lemma_prefix_sum_monotone(c, w, x - 1);
                } else if w > x {
                    lemma_prefix_sum_monotone(c, x, w - 1);
                }
            }
            assert(output@[at] == 0);
        }
        count[d] = pos;
        let ghost before = output@;
        output.set(pos, value);
        proof {
            // The multiset gains the value in place of one zero.
            assert(output@.to_multiset() =~= s.subrange(k - 1, n as int).to_multiset().add(
                zeros((k - 1) as nat).to_multiset(),
            )) by {
                broadcast use vstd::multiset::group_multiset_axioms;

                assert(before[at] == 0u32);
                vstd::seq_lib::to_multiset_update(before, at, value);
                let zk = zeros(k as nat);
                let zk1 = zeros((k - 1) as nat);
                assert(zk =~= zk1.push(0u32));
                vstd::seq_lib::to_multiset_build(zk1, 0u32);
                let rest = s.subrange(k as int, n as int);
                assert(s.subrange(k - 1, n as int) =~= seq![value] + rest);
                vstd::seq_lib::lemma_multiset_commutative(seq![value], rest);
                vstd::seq_lib::to_multiset_build(Seq::<u32>::empty(), value);
                assert(seq![value] =~= Seq::<u32>::empty().push(value));
                let m_rest = rest.to_multiset();
                let m_z1 = zk1.to_multiset();
                assert(before.to_multiset() == m_rest.add(m_z1.insert(0u32)));
                assert(output@.to_multiset() == m_rest.add(m_z1.insert(0u32)).insert(value).remove(0u32));
                assert(m_rest.add(m_z1.insert(0u32)).insert(value).remove(0u32) =~= m_rest.add(m_z1).insert(
                    value,
                ));
                assert(s.subrange(k - 1, n as int).to_multiset() =~= m_rest.insert(value));
                assert(output@.to_multiset() =~= s.subrange(k - 1, n as int).to_multiset().add(
                    zk1.to_multiset(),
                ));
            }
            src = src.update(at, k - 1);
            assert(key(value) == x);
            assert forall|v: int, q: int|
                #![trigger count@[v], output@[q]]
                0 <= v < k_len && count@[v] <= q < prefix_sum(c, v) implies key(output@[q]) == v && k - 1
                    <= src[q] < n && output@[q] == s[src[q]] by {
                lemma_prefix_sum_monotone(c, v, k_len - 1);
                if v != x {
                    assert(count@[v] == cnt_before[v]);
                    lemma_key_count_nonneg(s.subrange(0, k as int), key, v);
                    if q == at {
                        if v < x {
                            lemma_prefix_sum_monotone(c, v, x - 1);
                        } else {
                            lemma_prefix_sum_monotone(c, x, v - 1);
                        }
                    }
                    assert(key(before[q]) == v);
                } else if q != at {
                    assert(key(before[q]) == v);
                }
            }
            assert forall|v: int, p: int, q: int|
                #![trigger count@[v], src[p], src[q]]
                0 <= v < k_len && count@[v] <= p < q < prefix_sum(c, v) implies src[p] < src[q] by {
                lemma_prefix_sum_monotone(c, v, k_len - 1);
                if v != x {
                    assert(count@[v] == cnt_before[v]);
                    lemma_key_count_nonneg(s.subrange(0, k as int), key, v);
                    if p == at || q == at {
                        if v < x {
                            lemma_prefix_sum_monotone(c, v, x - 1);
                        } else {
                            lemma_prefix_sum_monotone(c, x, v - 1);
                        }
                    }
                    assert(cnt_before[v] <= p);
                } else if p == at {
                    assert(key(before[q]) == v);
                } else {
                    assert(cnt_before[v] <= p);
                }
            }
            assert forall|q: int|
                0 <= q < n && #[trigger] output@[q] != 0 implies count@[key(output@[q])] <= q < prefix_sum(
                    c,
                    key(output@[q]),
                ) by {
                if q != at {
                    assert(before[q] == output@[q]);
                    let w = key(output@[q]);
                    if w == x {
                        assert(cnt_before[w] <= q);
                    }
                }
            }
        }
        k = k - 1;
    }

    proof {
        assert(s.subrange(0, n as int) =~= s);
        assert(zeros(0) =~= Seq::<u32>::empty());
        assert(zeros(0).to_multiset() =~= Multiset::<u32>::empty());
        assert(output@.to_multiset() =~= s.to_multiset());
        assert forall|v: int| 0 <= v < k_len implies #[trigger] count@[v] == prefix_sum(c, v - 1) by {
            assert(s.subrange(0, 0) =~= Seq::<u32>::empty());
            assert(key_count(s.subrange(0, 0), key, v) == 0);
        }
        if n > 0 {
            lemma_blocks_keyed(c, count@, output@, key);
        }
        assert forall|p: int, q: int|
            0 <= p < q < n && key(output@[p]) == key(output@[q]) implies #[trigger] src[p] < #[trigger] src[q] by {
            let v = key(output@[p]);
            assert(count@[v] <= p);
            assert(count@[v] <= q < prefix_sum(c, v)) by {
                assert(key(output@[q]) == v);
            }
        }
        assert forall|p: int| 0 <= p < n implies 0 <= #[trigger] src[p] < n && output@[p] == s[src[p]] by {
            let v = key(output@[p]);
            assert(count@[v] <= p < prefix_sum(c, v));
        }
    }
    slice.copy_from_slice(output.as_slice());
    proof {
        assert(digit_sources(slice@, s, exp, src));
    }
}

/// The elements are in ascending order of their remainders modulo `m`.
pub open spec fn ascending_mod(s: Seq<u32>, m: int) -> bool {
    forall|p: int, q: int| 0 <= p < q < s.len() ==> (#[trigger] s[p] as int) % m <= (#[trigger] s[q] as int) % m
}

/// A stable pass on the digit at place value `e` turns an order on the
/// remainders modulo `e` into one on the remainders modulo `10 * e`.
proof fn lemma_radix_step(old: Seq<u32>, new: Seq<u32>, e: u32, src: Seq<int>)
    requires
        e > 0,
        digit_sources(new, old, e, src),
        ascending_mod(old, e as int),
        forall|p: int, q: int|
            0 <= p < q < new.len() ==> (digit_key(e))(#[trigger] new[p]) <= (digit_key(e))(#[trigger] new[q]),
    ensures
        ascending_mod(new, e * 10),
{
    assert forall|p: int, q: int| 0 <= p < q < new.len() implies (#[trigger] new[p] as int) % (e * 10)
        <= (#[trigger] new[q] as int) % (e * 10) by {
        let x = new[p] as int;
        let y = new[q] as int;
        let ei = e as int;
        vstd::arithmetic::div_mod::lemma_mod_breakdown(x, ei, 10);
        vstd::arithmetic::div_mod::lemma_mod_breakdown(y, ei, 10);
        let dx = (x / ei) % 10;
        let dy = (y / ei) % 10;
        assert((digit_key(e))(new[p]) == dx);
        assert((digit_key(e))(new[q]) == dy);
        let rx = x % ei;
        let ry = y % ei;
        if dx == dy {
            assert(src[p] < src[q]);
            assert(old[src[p]] == new[p]);
            assert(old[src[q]] == new[q]);
            if src[p] < src[q] {
                assert((old[src[p]] as int) % ei <= (old[src[q]] as int) % ei);
            }
            assert(ei * dx + rx <= ei * dy + ry);
        } else {
            assert(dx < dy);
            assert(ei * dx + rx <= ei * dy + ry) by (nonlinear_arith)
                requires
                    0 <= rx < ei,
                    0 <= ry,
                    dx + 1 <= dy,
                    ei > 0,
            ;
        }
    }
}

/// Sorts `slice` in ascending order, one decimal digit at a time from the
/// least significant, stopping after the highest digit of the largest
/// element.
pub fn sort(slice: &mut [u32])
    ensures
        ascending(final(slice)@),
        permutes(final(slice)@, old(slice)@),
{
    let ghost orig = slice@;
    if slice.len() <= 1 {
        return;
    }
    let max = find_max(slice);
    let mut exp: u32 = 1;
    proof {
        assert forall|p: int, q: int| 0 <= p < q < slice@.len() implies (#[trigger] slice@[p] as int)
            % 1 <= (#[trigger] slice@[q] as int) % 1 by {}
    }
    while max / exp > 0
        invariant
            forall|k: int| 0 <= k < slice@.len() ==> #[trigger] slice@[k] <= max,
            exp == 1 || exp == 10 || exp == 100 || exp == 1_000 || exp == 10_000 || exp == 100_000
                || exp == 1_000_000 || exp == 10_000_000 || exp == 100_000_000 || exp == 1_000_000_000,
            orig == old(slice)@,
            permutes(slice@, orig),
            ascending_mod(slice@, exp as int),
        decreases 1_000_000_000 - exp,
    {
        let ghost before = slice@;
        counting_sort_by_digit(slice, exp);
        proof {
            let src = choose|src: Seq<int>| #[trigger] digit_sources(slice@, before, exp, src);
            lemma_radix_step(before, slice@, exp, src);
            assert forall|k: int| 0 <= k < slice@.len() implies #[trigger] slice@[k] <= max by {
                assert(slice@[k] == before[src[k]]);
            }
        }
        if exp == 1_000_000_000 {
            proof {
                lemma_ascending_below(slice@, exp as int * 10);
            }
            return;
        }
        exp = exp * 10;
    }
    proof {
        let mi = max as int;
        let ei = exp as int;
        assert(mi < ei) by (nonlinear_arith)
            requires
                mi / ei == 0,
                ei > 0,
                mi >= 0,
        ;
        lemma_ascending_below(slice@, exp as int);
    }
}

/// Values all below `m` that are in ascending order of their remainders
/// modulo `m` are in ascending order.
proof fn lemma_ascending_below(s: Seq<u32>, m: int)
    requires
        m > 0,
        ascending_mod(s, m),
        forall|k: int| 0 <= k < s.len() ==> #[trigger] s[k] < m,
    ensures
        ascending(s),
{
    assert forall|p: int, q: int| 0 <= p < q < s.len() implies #[trigger] s[p] <= #[trigger] s[q] by {
        vstd::arithmetic::div_mod::lemma_small_mod(s[p] as nat, m as nat);
        vstd::arithmetic::div_mod::lemma_small_mod(s[q] as nat, m as nat);
    }
}

} // verus!
