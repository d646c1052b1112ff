//! Occurrences of a pattern in a sequence, and the borders of a pattern that
//! the Knuth-Morris-Pratt algorithm walks through.

use vstd::laws_eq::*;
use vstd::prelude::*;
use vstd::std_specs::cmp::PartialEqSpec;

verus! {

/// The two sequences have the same length and agree element by element
/// under `==`.
pub open spec fn seq_eq<T: PartialEq>(x: Seq<T>, y: Seq<T>) -> bool {
    &&& x.len() == y.len()
    &&& forall|u: int| 0 <= u < x.len() ==> (#[trigger] x[u]).eq_spec(&y[u])
}

/// `pattern` occurs in `text` at position `i`.
pub open spec fn matches_at<T: PartialEq>(text: Seq<T>, pattern: Seq<T>, i: int) -> bool {
    &&& 0 <= i
    &&& i + pattern.len() <= text.len()
    &&& seq_eq(text.subrange(i, i + pattern.len()), pattern)
}

/// `k` is the length of a proper border of the first `l` elements of `p`:
/// a prefix of that length equals the suffix of that length.
pub open spec fn is_border<T: PartialEq>(p: Seq<T>, l: int, k: int) -> bool {
    &&& 0 <= k < l <= p.len()
    &&& seq_eq(p.subrange(0, k), p.subrange(l - k, l))
}

/// `v` is the length of the longest proper border of the first `i + 1`
/// elements of `p`.
pub open spec fn is_longest_border<T: PartialEq>(p: Seq<T>, i: int, v: int) -> bool {
    &&& is_border(p, i + 1, v)
    &&& forall|k: int| v < k < i + 1 ==> !#[trigger] is_border(p, i + 1, k)
}

/// Each entry of `lps` is the length of the longest proper border of the
/// corresponding prefix of `p`.
pub open spec fn is_lps_table<T: PartialEq>(p: Seq<T>, lps: Seq<usize>) -> bool {
    &&& lps.len() == p.len()
    &&& forall|i: int| 0 <= i < p.len() ==> #[trigger] is_longest_border(p, i, lps[i] as int)
}

/// `==` is symmetric and transitive, as `PartialEq` asks.
pub open spec fn eq_laws<T: PartialEq>() -> bool {
    obeys_eq::<T>()
}

pub proof fn lemma_eq_sym<T: PartialEq>(a: T, b: T)
    requires
        eq_laws::<T>(),
        a.eq_spec(&b),
    ensures
        b.eq_spec(&a),
{
    reveal(obeys_eq_spec_properties);
}

pub proof fn lemma_eq_trans<T: PartialEq>(a: T, b: T, c: T)
    requires
        eq_laws::<T>(),
        a.eq_spec(&b),
        b.eq_spec(&c),
    ensures
        a.eq_spec(&c),
{
    reveal(obeys_eq_spec_properties);
}

pub proof fn lemma_seq_eq_sym<T: PartialEq>(x: Seq<T>, y: Seq<T>)
    requires
        eq_laws::<T>(),
        seq_eq(x, y),
    ensures
        seq_eq(y, x),
{
    assert forall|u: int| 0 <= u < y.len() implies (#[trigger] y[u]).eq_spec(&x[u]) by {
        lemma_eq_sym(x[u], y[u]);
    }
}

pub proof fn lemma_seq_eq_trans<T: PartialEq>(x: Seq<T>, y: Seq<T>, z: Seq<T>)
    requires
        eq_laws::<T>(),
        seq_eq(x, y),
        seq_eq(y, z),
    ensures
        seq_eq(x, z),
{
    assert forall|u: int| 0 <= u < x.len() implies (#[trigger] x[u]).eq_spec(&z[u]) by {
        lemma_eq_trans(x[u], y[u], z[u]);
    }
}

/// Agreement carries over to aligned windows.
pub proof fn lemma_seq_eq_sub<T: PartialEq>(x: Seq<T>, y: Seq<T>, a: int, b: int)
    requires
        seq_eq(x, y),
        0 <= a <= b <= x.len(),
    ensures
        seq_eq(x.subrange(a, b), y.subrange(a, b)),
{
    assert forall|u: int| 0 <= u < b - a implies (#[trigger] x.subrange(a, b)[u]).eq_spec(
        &y.subrange(a, b)[u],
    ) by {
        assert(x[a + u].eq_spec(&y[a + u]));
    }
}

/// Agreeing windows that agree on the next element agree one further.
pub proof fn lemma_seq_eq_extend<T: PartialEq>(x: Seq<T>, xi: int, y: Seq<T>, yi: int, k: int)
    requires
        0 <= xi,
        0 <= yi,
        0 <= k,
        xi + k < x.len(),
        yi + k < y.len(),
        seq_eq(x.subrange(xi, xi + k), y.subrange(yi, yi + k)),
        x[xi + k].eq_spec(&y[yi + k]),
    ensures
        seq_eq(x.subrange(xi, xi + k + 1), y.subrange(yi, yi + k + 1)),
{
    assert forall|u: int| 0 <= u < k + 1 implies (#[trigger] x.subrange(xi, xi + k + 1)[u]).eq_spec(
        &y.subrange(yi, yi + k + 1)[u],
    ) by {
        if u < k {
            assert(x.subrange(xi, xi + k)[u] == x[xi + u]);
            assert(y.subrange(yi, yi + k)[u] == y[yi + u]);
        }
    }
}

/// A border extends by one when the next elements agree.
pub proof fn lemma_border_extend<T: PartialEq>(p: Seq<T>, l: int, k: int)
    requires
        is_border(p, l, k),
        l < p.len(),
        p[k].eq_spec(&p[l]),
    ensures
        is_border(p, l + 1, k + 1),
{
    lemma_seq_eq_extend(p, 0, p, l - k, k);
    assert(p.subrange(l - k, l - k + k + 1) == p.subrange(l + 1 - (k + 1), l + 1));
}

/// A non-empty border of a longer prefix is a border of the shorter prefix,
/// extended by one agreeing element.
pub proof fn lemma_border_shrink<T: PartialEq>(p: Seq<T>, l: int, k: int)
    requires
        is_border(p, l + 1, k + 1),
        0 <= k,
    ensures
        is_border(p, l, k),
        p[k].eq_spec(&p[l]),
{
    let x = p.subrange(0, k + 1);
    let y = p.subrange(l - k, l + 1);
    lemma_seq_eq_sub(x, y, 0, k);
    assert(x.subrange(0, k) == p.subrange(0, k));
    assert(y.subrange(0, k) == p.subrange(l - k, l));
    assert(x[k].eq_spec(&y[k]));
}

/// The borders of a prefix that are shorter than one of its borders `b` are
/// exactly the borders of the first `b` elements.
pub proof fn lemma_border_of_border<T: PartialEq>(p: Seq<T>, l: int, b: int, c: int)
    requires
        eq_laws::<T>(),
        is_border(p, l, b),
        0 <= c < b,
    ensures
        is_border(p, l, c) <==> is_border(p, b, c),
{
    // The last `c` elements of the first `b` agree with the last `c` of the first `l`.
    lemma_seq_eq_sub(p.subrange(0, b), p.subrange(l - b, l), b - c, b);
    let mid = p.subrange(b - c, b);
    let tail = p.subrange(l - c, l);
    assert(p.subrange(0, b).subrange(b - c, b) == mid);
    assert(p.subrange(l - b, l).subrange(b - c, b) == tail);
    assert(seq_eq(mid, tail));
    let head = p.subrange(0, c);
    if is_border(p, l, c) {
        lemma_seq_eq_sym(mid, tail);
        lemma_seq_eq_trans(head, tail, mid);
    }
    if is_border(p, b, c) {
        lemma_seq_eq_trans(head, mid, tail);
    }
}

/// An occurrence of the pattern at a position between the current alignment
/// and the alignment after a shift to border `k` would give a longer border.
pub proof fn lemma_occurrence_gives_border<T: PartialEq>(
    text: Seq<T>,
    p: Seq<T>,
    i: int,
    j: int,
    s: int,
)
    requires
        eq_laws::<T>(),
        0 < j <= p.len(),
        j <= i <= text.len(),
        seq_eq(p.subrange(0, j), text.subrange(i - j, i)),
        i - j < s < i,
        matches_at(text, p, s),
    ensures
        is_border(p, j, i - s),
{
    let k = i - s;
    let occ = text.subrange(s, s + p.len());
    // The first k elements of the pattern agree with text[s..i].
    lemma_seq_eq_sub(occ, p, 0, k);
    assert(occ.subrange(0, k) == text.subrange(s, i));
    lemma_seq_eq_sym(text.subrange(s, i), p.subrange(0, k));
    // The last k elements of the matched prefix agree with text[s..i].
    lemma_seq_eq_sub(p.subrange(0, j), text.subrange(i - j, i), j - k, j);
    assert(p.subrange(0, j).subrange(j - k, j) == p.subrange(j - k, j));
    assert(text.subrange(i - j, i).subrange(j - k, j) == text.subrange(s, i));
    lemma_seq_eq_sym(p.subrange(j - k, j), text.subrange(s, i));
    lemma_seq_eq_trans(p.subrange(0, k), text.subrange(s, i), p.subrange(j - k, j));
}

/// Bytes compare by value.
pub proof fn lemma_eq_laws_u8()
    ensures
        eq_laws::<u8>(),
{
    reveal(obeys_eq_spec_properties);
}

/// `v` lists, in increasing order, every position at which `pattern` occurs
/// in `text`.
pub open spec fn is_all_occurrences<T: PartialEq>(text: Seq<T>, pattern: Seq<T>, v: Seq<usize>) -> bool {
    &&& forall|a: int| 0 <= a < v.len() ==> #[trigger] matches_at(text, pattern, v[a] as int)
    &&& forall|a: int, b: int| 0 <= a < b < v.len() ==> v[a] < v[b]
    &&& forall|s: int| #[trigger] matches_at(text, pattern, s) ==> v.contains(s as usize)
}

} // verus!
