//! The order that a type's `PartialOrd` describes, and the facts about it
//! that the searching and sorting algorithms rely on.

use core::cmp::Ordering;
use vstd::prelude::*;
use vstd::std_specs::cmp::{PartialEqSpec, PartialOrdSpec};

verus! {

/// `a` comes no later than `b` in the order that `partial_cmp` describes.
pub open spec fn leq<T: PartialOrd>(a: T, b: T) -> bool {
    a.partial_cmp_spec(&b) == Some(Ordering::Less) || a.partial_cmp_spec(&b) == Some(
        Ordering::Equal,
    )
}

/// `a` comes strictly before `b` in the order that `partial_cmp` describes.
pub open spec fn less<T: PartialOrd>(a: T, b: T) -> bool {
    a.partial_cmp_spec(&b) == Some(Ordering::Less)
}

/// `a` and `b` are equivalent: each comes no later than the other.
pub open spec fn equiv<T: PartialOrd>(a: T, b: T) -> bool {
    leq(a, b) && leq(b, a)
}

/// The comparison operators of `T` describe a total order that agrees with
/// `==`, as the documentation of `PartialOrd` and `Ord` asks of their
/// implementations (floating-point numbers, with their NaN, are the
/// well-known exception).
#[verifier::opaque]
pub open spec fn total_order<T: PartialOrd>() -> bool {
    &&& T::obeys_partial_cmp_spec()
    &&& T::obeys_eq_spec()
    &&& forall|a: T, b: T| #[trigger] a.partial_cmp_spec(&b) is Some
    &&& forall|a: T, b: T|
        #![trigger a.partial_cmp_spec(&b)]
        #![trigger b.partial_cmp_spec(&a)]
        a.partial_cmp_spec(&b) == Some(Ordering::Less) <==> b.partial_cmp_spec(&a) == Some(
            Ordering::Greater,
        )
    &&& forall|a: T, b: T|
        #![trigger a.partial_cmp_spec(&b)]
        #![trigger a.eq_spec(&b)]
        a.partial_cmp_spec(&b) == Some(Ordering::Equal) <==> a.eq_spec(&b)
    &&& forall|a: T, b: T, c: T|
        #[trigger] leq(a, b) && #[trigger] leq(b, c) ==> leq(a, c)
    &&& forall|a: T, b: T|
        #[trigger] a.eq_spec(&b) ==> b.eq_spec(&a)
}

/// The flags that make `<`, `<=`, `>`, `>=` and `==` follow the spec functions.
pub proof fn lemma_total_order_obeys<T: PartialOrd>()
    requires
        total_order::<T>(),
    ensures
        T::obeys_partial_cmp_spec(),
        T::obeys_eq_spec(),
{
    reveal(total_order);
}

/// Any two values are comparable.
pub proof fn lemma_leq_total<T: PartialOrd>(a: T, b: T)
    requires
        total_order::<T>(),
    ensures
        leq(a, b) || leq(b, a),
        leq(a, a),
{
    reveal(total_order);
    let o = a.partial_cmp_spec(&b);
    let p = b.partial_cmp_spec(&a);
    let q = a.partial_cmp_spec(&a);
    assert(o is Some);
    assert(p is Some);
    assert(q is Some);
    assert(o == Some(Ordering::Less) <==> p == Some(Ordering::Greater));
    assert(p == Some(Ordering::Less) <==> o == Some(Ordering::Greater));
    assert(q == Some(Ordering::Less) <==> q == Some(Ordering::Greater));
    match o->0 {
        Ordering::Less => { assert(leq(a, b)); },
        Ordering::Equal => { assert(leq(a, b)); },
        Ordering::Greater => { assert(leq(b, a)); },
    }
    match q->0 {
        Ordering::Less => { assert(false); },
        Ordering::Equal => { assert(leq(a, a)); },
        Ordering::Greater => { assert(false); },
    }
}

/// `leq` is transitive.
pub proof fn lemma_leq_trans<T: PartialOrd>(a: T, b: T, c: T)
    requires
        total_order::<T>(),
        leq(a, b),
        leq(b, c),
    ensures
        leq(a, c),
{
    reveal(total_order);
}

/// `less` is the negation of `leq` with the arguments swapped.
pub proof fn lemma_less_not_leq<T: PartialOrd>(a: T, b: T)
    requires
        total_order::<T>(),
    ensures
        less(a, b) <==> !leq(b, a),
{
    reveal(total_order);
    let o = a.partial_cmp_spec(&b);
    let p = b.partial_cmp_spec(&a);
    assert(o is Some);
    assert(p is Some);
    assert(o == Some(Ordering::Less) <==> p == Some(Ordering::Greater));
    assert(p == Some(Ordering::Less) <==> o == Some(Ordering::Greater));
    assert(o == Some(Ordering::Equal) <==> a.eq_spec(&b));
    assert(p == Some(Ordering::Equal) <==> b.eq_spec(&a));
    assert(a.eq_spec(&b) ==> b.eq_spec(&a));
    assert(b.eq_spec(&a) ==> a.eq_spec(&b));
    match o->0 {
        Ordering::Less => {},
        Ordering::Equal => {},
        Ordering::Greater => {},
    }
    match p->0 {
        Ordering::Less => {},
        Ordering::Equal => {},
        Ordering::Greater => {},
    }
}

/// `==` holds exactly of equivalent values.
pub proof fn lemma_eq_equiv<T: PartialOrd>(a: T, b: T)
    requires
        total_order::<T>(),
    ensures
        a.eq_spec(&b) <==> equiv(a, b),
{
    reveal(total_order);
    lemma_less_not_leq(a, b);
    lemma_less_not_leq(b, a);
    assert(a.partial_cmp_spec(&b) is Some);
    assert(b.partial_cmp_spec(&a) is Some);
    if a.eq_spec(&b) {
        assert(b.eq_spec(&a));
        assert(b.partial_cmp_spec(&a) == Some(Ordering::Equal));
    }
    if equiv(a, b) {
        if a.partial_cmp_spec(&b) == Some(Ordering::Less) {
            assert(b.partial_cmp_spec(&a) == Some(Ordering::Greater));
        }
    }
}

/// Any two values compare in exactly one of three ways.
pub proof fn lemma_trichotomy<T: PartialOrd>(a: T, b: T)
    requires
        total_order::<T>(),
    ensures
        less(a, b) || a.eq_spec(&b) || less(b, a),
        less(a, b) ==> !a.eq_spec(&b) && !less(b, a),
        less(b, a) ==> !a.eq_spec(&b),
{
    lemma_eq_equiv(a, b);
    lemma_less_not_leq(a, b);
    lemma_less_not_leq(b, a);
    lemma_leq_total(a, b);
}

/// `leq` followed by `less` gives `less`.
pub proof fn lemma_leq_less_trans<T: PartialOrd>(a: T, b: T, c: T)
    requires
        total_order::<T>(),
        leq(a, b),
        less(b, c),
    ensures
        less(a, c),
{
    lemma_less_not_leq(a, c);
    lemma_less_not_leq(b, c);
    if !less(a, c) {
        lemma_leq_trans(c, a, b);
    }
}

/// `less` followed by `leq` gives `less`.
pub proof fn lemma_less_leq_trans<T: PartialOrd>(a: T, b: T, c: T)
    requires
        total_order::<T>(),
        less(a, b),
        leq(b, c),
    ensures
        less(a, c),
{
    lemma_less_not_leq(a, c);
    lemma_less_not_leq(a, b);
    if !less(a, c) {
        lemma_leq_trans(b, c, a);
    }
}

/// The integer types order by value.
pub proof fn lemma_total_order_i32()
    ensures
        total_order::<i32>(),
{
    reveal(total_order);
}

/// The integer types order by value.
pub proof fn lemma_total_order_usize()
    ensures
        total_order::<usize>(),
{
    reveal(total_order);
}

/// The integer types order by value.
pub proof fn lemma_total_order_u32()
    ensures
        total_order::<u32>(),
{
    reveal(total_order);
}

/// A sequence whose elements never decrease from left to right.
pub open spec fn sorted<T: PartialOrd>(s: Seq<T>) -> bool {
    forall|i: int, j: int| 0 <= i < j < s.len() ==> leq(#[trigger] s[i], #[trigger] s[j])
}

/// Every adjacent pair is in order.
pub open spec fn adjacent_sorted<T: PartialOrd>(s: Seq<T>) -> bool {
    forall|i: int| 0 <= i < s.len() - 1 ==> leq(#[trigger] s[i], s[i + 1])
}

/// Under a total order, adjacent order implies order.
pub proof fn lemma_adjacent_sorted<T: PartialOrd>(s: Seq<T>)
    requires
        total_order::<T>(),
        adjacent_sorted(s),
    ensures
        sorted(s),
    decreases s.len(),
{
    if s.len() > 1 {
        let t = s.drop_last();
        assert(adjacent_sorted(t)) by {
            assert forall|i: int| 0 <= i < t.len() - 1 implies leq(#[trigger] t[i], t[i + 1]) by {
                assert(leq(s[i], s[i + 1]));
            }
        }
        lemma_adjacent_sorted(t);
        assert forall|i: int, j: int| 0 <= i < j < s.len() implies leq(
            #[trigger] s[i],
            #[trigger] s[j],
        ) by {
            if j < s.len() - 1 {
                assert(leq(t[i], t[j]));
            } else if i < j - 1 {
                assert(leq(t[i], t[j - 1]));
                assert(leq(s[j - 1], s[j]));
                lemma_leq_trans(s[i], s[j - 1], s[j]);
            } else {
                assert(leq(s[j - 1], s[j]));
            }
        }
    }
}

/// `*a <= *b`, as the order describes it.
pub fn is_le<T: PartialOrd>(a: &T, b: &T) -> (r: bool)
    requires
        total_order::<T>(),
    ensures
        r == leq(*a, *b),
{
    proof {
        lemma_total_order_obeys::<T>();
    }
    *a <= *b
}

/// `*a < *b`, as the order describes it.
pub fn is_lt<T: PartialOrd>(a: &T, b: &T) -> (r: bool)
    requires
        total_order::<T>(),
    ensures
        r == less(*a, *b),
{
    proof {
        lemma_total_order_obeys::<T>();
    }
    *a < *b
}

/// Checks whether `data` is in ascending order, pair by adjacent pair.
pub fn is_sorted<T: PartialOrd>(data: &[T]) -> (r: bool)
    requires
        total_order::<T>(),
    ensures
        r == sorted(data@),
{
    proof {
        lemma_total_order_obeys::<T>();
    }
    let n = data.len();
    if n < 2 {
        return true;
    }
    let mut i: usize = 0;
    while i < n - 1
        invariant
            total_order::<T>(),
            T::obeys_partial_cmp_spec(),
            n == data@.len(),
            n >= 2,
            i <= n - 1,
            forall|k: int| 0 <= k < i ==> leq(#[trigger] data@[k], data@[k + 1]),
        decreases n - 1 - i,
    {
        if !(data[i] <= data[i + 1]) {
            return false;
        }
        i = i + 1;
    }
    proof {
        lemma_adjacent_sorted(data@);
    }
    true
}

} // verus!
