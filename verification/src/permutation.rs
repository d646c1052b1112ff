//! Rearranging the elements of a slice: swaps, and the permutations of a
//! range that a sequence of swaps produces.

use vstd::multiset::Multiset;
use vstd::prelude::*;

verus! {

broadcast use vstd::seq_lib::group_to_multiset_ensures;

/// `<[T]>::swap` exchanges the elements at two indices, and panics when either
/// index is out of bounds.
pub assume_specification<Sx>[ <[Sx]>::swap ](s: &mut [Sx], a: usize, b: usize)
    requires
        a < old(s)@.len(),
        b < old(s)@.len(),
    ensures
        final(s)@ == old(s)@.update(a as int, old(s)@[b as int]).update(b as int, old(s)@[a as int]),
;

/// `<[T]>::copy_from_slice` overwrites a slice with the elements of a source
/// of the same length, and panics when the lengths differ.
pub assume_specification<Cx: Copy>[ <[Cx]>::copy_from_slice ](s: &mut [Cx], src: &[Cx])
    requires
        old(s)@.len() == src@.len(),
    ensures
        final(s)@ == src@,
;

/// `<[T]>::sort_unstable`, which its documentation describes as sorting the
/// slice in ascending order of `Ord`, rearranging the elements, never
/// replacing them. The documentation allows a panic where `Ord` is not a
/// total order, so the contract asks for one that is, and that agrees with
/// `PartialOrd` and `==`.
#[verifier::external_body]
pub fn sort_unstable<E: Ord>(slice: &mut [E])
    requires
        total_ord::<E>(),
    ensures
        permutes(final(slice)@, old(slice)@),
        crate::order::total_order::<E>() ==> crate::order::sorted(final(slice)@),
{
    slice.sort_unstable()
}

/// `Ord` on `E` is a total order that agrees with `PartialOrd` and `==`.
pub open spec fn total_ord<E: Ord>() -> bool {
    vstd::laws_cmp::obeys_cmp::<E>()
}

/// `Ord` on `u32` is a total order.
pub proof fn lemma_total_ord_u32()
    ensures
        total_ord::<u32>(),
{
    broadcast use vstd::laws_cmp::group_laws_cmp;

}

/// `Ord` on `usize` is a total order.
pub proof fn lemma_total_ord_usize()
    ensures
        total_ord::<usize>(),
{
    broadcast use vstd::laws_cmp::group_laws_cmp;

}

/// `new` holds the elements of `old` in `lo .. hi` in some order, and the
/// same elements as `old` everywhere else.
pub open spec fn range_perm<T>(new: Seq<T>, old: Seq<T>, lo: int, hi: int) -> bool {
    &&& 0 <= lo <= hi <= old.len()
    &&& new.len() == old.len()
    &&& forall|k: int| 0 <= k < old.len() && !(lo <= k < hi) ==> new[k] == old[k]
    &&& new.subrange(lo, hi).to_multiset() == old.subrange(lo, hi).to_multiset()
}

/// The two sequences hold the same elements, counted with multiplicity.
pub open spec fn permutes<T>(new: Seq<T>, old: Seq<T>) -> bool {
    new.to_multiset() == old.to_multiset()
}

/// Exchanging two elements keeps the multiset.
pub proof fn lemma_swap_multiset<T>(s: Seq<T>, a: int, b: int)
    requires
        0 <= a < s.len(),
        0 <= b < s.len(),
    ensures
        s.update(a, s[b]).update(b, s[a]).to_multiset() == s.to_multiset(),
{
    broadcast use vstd::multiset::group_multiset_axioms;

    let s1 = s.update(a, s[b]);
    vstd::seq_lib::to_multiset_update(s, a, s[b]);
    vstd::seq_lib::to_multiset_update(s1, b, s[a]);
    if a == b {
        assert(s1 =~= s);
    }
    let m = s.to_multiset();
    assert(s1.to_multiset() == m.insert(s[b]).remove(s[a]));
    assert(s1[b] == s[b]) by {
        if a == b {
        } else {
        }
    }
    assert(m.insert(s[b]).remove(s[a]).insert(s[a]).remove(s[b]) =~= m);
}

/// A swap of two indices inside `lo .. hi` keeps a permutation of that range.
pub proof fn lemma_swap_range_perm<T>(s: Seq<T>, orig: Seq<T>, lo: int, hi: int, a: int, b: int)
    requires
        range_perm(s, orig, lo, hi),
        lo <= a < hi,
        lo <= b < hi,
    ensures
        range_perm(s.update(a, s[b]).update(b, s[a]), orig, lo, hi),
{
    let t = s.update(a, s[b]).update(b, s[a]);
    let sub = s.subrange(lo, hi);
    lemma_swap_multiset(sub, a - lo, b - lo);
    assert(t.subrange(lo, hi) =~= sub.update(a - lo, sub[b - lo]).update(b - lo, sub[a - lo]));
}

/// Permutations of a range compose.
pub proof fn lemma_range_perm_trans<T>(s1: Seq<T>, s2: Seq<T>, s3: Seq<T>, lo: int, hi: int)
    requires
        range_perm(s2, s1, lo, hi),
        range_perm(s3, s2, lo, hi),
    ensures
        range_perm(s3, s1, lo, hi),
{
}

/// A permutation of a smaller range is one of a larger range.
pub proof fn lemma_range_perm_widen<T>(new: Seq<T>, old: Seq<T>, lo: int, hi: int, lo2: int, hi2: int)
    requires
        range_perm(new, old, lo, hi),
        0 <= lo2 <= lo,
        hi <= hi2 <= old.len(),
    ensures
        range_perm(new, old, lo2, hi2),
{
    broadcast use vstd::multiset::group_multiset_axioms;

    let left_n = new.subrange(lo2, lo);
    let left_o = old.subrange(lo2, lo);
    let right_n = new.subrange(hi, hi2);
    let right_o = old.subrange(hi, hi2);
    assert(left_n =~= left_o);
    assert(right_n =~= right_o);
    assert(new.subrange(lo2, hi2) =~= left_n + new.subrange(lo, hi) + right_n);
    assert(old.subrange(lo2, hi2) =~= left_o + old.subrange(lo, hi) + right_o);
    vstd::seq_lib::lemma_multiset_commutative(left_n + new.subrange(lo, hi), right_n);
    vstd::seq_lib::lemma_multiset_commutative(left_n, new.subrange(lo, hi));
    vstd::seq_lib::lemma_multiset_commutative(left_o + old.subrange(lo, hi), right_o);
    vstd::seq_lib::lemma_multiset_commutative(left_o, old.subrange(lo, hi));
}

/// Every element of a permuted range was somewhere in that range before.
pub proof fn lemma_range_perm_source<T>(new: Seq<T>, old: Seq<T>, lo: int, hi: int, k: int) -> (src: int)
    requires
        range_perm(new, old, lo, hi),
        lo <= k < hi,
    ensures
        lo <= src < hi,
        new[k] == old[src],
{
    let sub_n = new.subrange(lo, hi);
    let sub_o = old.subrange(lo, hi);
    assert(sub_n[k - lo] == new[k]);
    assert(sub_n.contains(new[k]));
    assert(sub_n.to_multiset().count(new[k]) > 0);
    assert(sub_o.to_multiset().count(new[k]) > 0);
    assert(sub_o.contains(new[k]));
    let i = choose|i: int| 0 <= i < sub_o.len() && sub_o[i] == new[k];
    i + lo
}

/// A permutation of the whole sequence keeps its multiset.
pub proof fn lemma_range_perm_whole<T>(new: Seq<T>, old: Seq<T>)
    requires
        range_perm(new, old, 0, old.len() as int),
    ensures
        permutes(new, old),
{
    assert(new.subrange(0, old.len() as int) =~= new);
    assert(old.subrange(0, old.len() as int) =~= old);
}

} // verus!
