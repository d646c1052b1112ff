//! The lexicographic order of the suffixes of a text, and of their first
//! characters up to a given length, by the common prefix of two suffixes.

use vstd::prelude::*;

verus! {

/// The length of the longest common prefix of the suffixes of `t` that
/// start at `i` and at `j`.
pub open spec fn common_len(t: Seq<char>, i: int, j: int) -> nat
    decreases t.len() - i,
{
    if 0 <= i < t.len() && 0 <= j < t.len() && t[i] == t[j] {
        1 + common_len(t, i + 1, j + 1)
    } else {
        0
    }
}

/// The suffix of `t` at `i` comes strictly before the one at `j` in
/// lexicographic order by code point: after their common prefix, the first
/// ends where the second goes on, or has the smaller character.
pub open spec fn suffix_lt(t: Seq<char>, i: int, j: int) -> bool {
    let c = common_len(t, i, j) as int;
    ||| (i + c == t.len() && j + c < t.len())
    ||| (i + c < t.len() && j + c < t.len() && (t[i + c] as int) < (t[j + c] as int))
}

/// The first `len` characters of the suffix at `i` (all of them where it is
/// shorter) come strictly before those of the suffix at `j`.
pub open spec fn prefix_lt(t: Seq<char>, i: int, j: int, len: int) -> bool {
    common_len(t, i, j) < len && suffix_lt(t, i, j)
}

/// The first `len` characters of the suffixes at `i` and `j` (all of them
/// where a suffix is shorter) are the same.
pub open spec fn prefix_eq(t: Seq<char>, i: int, j: int, len: int) -> bool {
    common_len(t, i, j) >= len || i == j
}

/// The common prefix: its characters agree, it stays within the text, and
/// it stops where either suffix ends or their characters differ.
pub proof fn lemma_common(t: Seq<char>, i: int, j: int)
    requires
        0 <= i <= t.len(),
        0 <= j <= t.len(),
    ensures
        i + common_len(t, i, j) <= t.len(),
        j + common_len(t, i, j) <= t.len(),
        forall|m: int| 0 <= m < common_len(t, i, j) ==> #[trigger] t[i + m] == t[j + m],
        i + common_len(t, i, j) < t.len() && j + common_len(t, i, j) < t.len() ==> t[i + common_len(
            t,
            i,
            j,
        )] != t[j + common_len(t, i, j)],
    decreases t.len() - i,
{
    if i < t.len() && j < t.len() && t[i] == t[j] {
        lemma_common(t, i + 1, j + 1);
        assert forall|m: int| 0 <= m < common_len(t, i, j) implies #[trigger] t[i + m] == t[j + m] by {
            if m > 0 {
                assert(t[(i + 1) + (m - 1)] == t[(j + 1) + (m - 1)]);
            }
        }
    }
}

/// A length `d` up to which the suffixes agree and at which they stop
/// agreeing is their common prefix's length.
pub proof fn lemma_common_unique(t: Seq<char>, i: int, j: int, d: int)
    requires
        0 <= i <= t.len(),
        0 <= j <= t.len(),
        0 <= d,
        i + d <= t.len(),
        j + d <= t.len(),
        forall|m: int| 0 <= m < d ==> #[trigger] t[i + m] == t[j + m],
        i + d < t.len() && j + d < t.len() ==> t[i + d] != t[j + d],
    ensures
        common_len(t, i, j) == d,
    decreases d,
{
    if d > 0 {
        assert(t[i + 0] == t[j + 0]);
        assert forall|m: int| 0 <= m < d - 1 implies #[trigger] t[(i + 1) + m] == t[(j + 1) + m] by {
            assert(t[i + (m + 1)] == t[j + (m + 1)]);
        }
        lemma_common_unique(t, i + 1, j + 1, d - 1);
    }
}

/// The common prefix does not depend on the order of the two suffixes.
pub proof fn lemma_common_symmetric(t: Seq<char>, i: int, j: int)
    requires
        0 <= i <= t.len(),
        0 <= j <= t.len(),
    ensures
        common_len(t, i, j) == common_len(t, j, i),
{
    lemma_common(t, i, j);
    let c = common_len(t, i, j) as int;
    assert forall|m: int| 0 <= m < c implies #[trigger] t[j + m] == t[i + m] by {
        assert(t[i + m] == t[j + m]);
    }
    lemma_common_unique(t, j, i, c);
}

/// Past `k` common characters, the suffixes `k` further on share the rest.
pub proof fn lemma_common_shift(t: Seq<char>, i: int, j: int, k: int)
    requires
        0 <= i <= t.len(),
        0 <= j <= t.len(),
        0 <= k <= common_len(t, i, j),
    ensures
        common_len(t, i + k, j + k) == common_len(t, i, j) - k,
{
    lemma_common(t, i, j);
    let c = common_len(t, i, j) as int;
    assert forall|m: int| 0 <= m < c - k implies #[trigger] t[(i + k) + m] == t[(j + k) + m] by {
        assert(t[i + (k + m)] == t[j + (k + m)]);
    }
    lemma_common_unique(t, i + k, j + k, c - k);
}

/// Of two different suffixes, exactly one comes before the other.
pub proof fn lemma_suffix_total(t: Seq<char>, i: int, j: int)
    requires
        0 <= i < t.len(),
        0 <= j < t.len(),
    ensures
        !(suffix_lt(t, i, j) && suffix_lt(t, j, i)),
        i != j ==> suffix_lt(t, i, j) || suffix_lt(t, j, i),
        !suffix_lt(t, i, i),
{
    lemma_common(t, i, j);
    lemma_common_symmetric(t, i, j);
    let c = common_len(t, i, j) as int;
    if i + c < t.len() && j + c < t.len() {
        assert(t[i + c] != t[j + c]);
        if (t[i + c] as int) == (t[j + c] as int) {
            assert(t[i + c] == t[j + c]);
        }
    }
    lemma_common(t, i, i);
}

/// The first `2 * k` characters of two suffixes compare as their first `k`
/// characters do, and where those are the same, as the `k` characters after
/// them, a suffix that has none coming first.
pub proof fn lemma_prefix_doubling(t: Seq<char>, i: int, j: int, k: int)
    requires
        0 <= i < t.len(),
        0 <= j < t.len(),
        k >= 1,
    ensures
        prefix_lt(t, i, j, 2 * k) <==> prefix_lt(t, i, j, k) || (prefix_eq(t, i, j, k) && second_lt(
            t,
            i,
            j,
            k,
        )),
        prefix_eq(t, i, j, 2 * k) <==> prefix_eq(t, i, j, k) && second_eq(t, i, j, k),
{
    let n = t.len() as int;
    lemma_common(t, i, j);
    let c = common_len(t, i, j) as int;
    if i == j {
        lemma_suffix_total(t, i, i);
        if i + k < n {
            lemma_suffix_total(t, i + k, i + k);
        }
    } else if c >= k {
        lemma_common_shift(t, i, j, k);
        if i + k < n && j + k < n {
            assert(common_len(t, i + k, j + k) == c - k);
            assert((i + k) + (c - k) == i + c);
            assert((j + k) + (c - k) == j + c);
        } else {
            assert(c == k);
        }
    }
}

/// The suffix `k` past `i` comes before the one `k` past `j` in its first
/// `k` characters, or only the latter exists.
pub open spec fn second_lt(t: Seq<char>, i: int, j: int, k: int) -> bool {
    ||| (i + k >= t.len() && j + k < t.len())
    ||| (i + k < t.len() && j + k < t.len() && prefix_lt(t, i + k, j + k, k))
}

/// The suffixes `k` past `i` and `k` past `j` agree in their first `k`
/// characters, or neither exists.
pub open spec fn second_eq(t: Seq<char>, i: int, j: int, k: int) -> bool {
    ||| (i + k >= t.len() && j + k >= t.len())
    ||| (i + k < t.len() && j + k < t.len() && prefix_eq(t, i + k, j + k, k))
}

/// Two suffixes that share their first character compare as the suffixes
/// one further on do.
pub proof fn lemma_suffix_shift(t: Seq<char>, i: int, j: int)
    requires
        0 <= i < t.len(),
        0 <= j < t.len(),
        common_len(t, i, j) >= 1,
    ensures
        suffix_lt(t, i, j) == suffix_lt(t, i + 1, j + 1),
        common_len(t, i + 1, j + 1) == common_len(t, i, j) - 1,
{
    lemma_common(t, i, j);
    lemma_common_shift(t, i, j, 1);
}

/// A suffix `y` that lies between `x` and `z` in the order, no earlier than
/// `x` and before `z`, shares with `z` at least the prefix that `x` does.
pub proof fn lemma_common_between(t: Seq<char>, x: int, y: int, z: int)
    requires
        0 <= x < t.len(),
        0 <= y < t.len(),
        0 <= z < t.len(),
        !suffix_lt(t, y, x),
        suffix_lt(t, y, z),
    ensures
        common_len(t, y, z) >= common_len(t, x, z),
{
    lemma_common(t, x, z);
    lemma_common(t, y, z);
    lemma_common_symmetric(t, y, x);
    let m = common_len(t, x, z) as int;
    let d = common_len(t, y, z) as int;
    if d < m && x != y {
        // `x` agrees with `z` up to `m`, `y` only up to `d`: `y` and `x`
        // part at `d`, as `y` and `z` do.
        assert forall|u: int| 0 <= u < d implies #[trigger] t[y + u] == t[x + u] by {
            assert(t[x + u] == t[z + u]);
            assert(t[y + u] == t[z + u]);
        }
        assert(t[x + d] == t[z + d]);
        if y + d < t.len() {
            assert(t[y + d] != t[z + d]);
        }
        lemma_common_unique(t, y, x, d);
        assert(suffix_lt(t, y, x));
    }
}

} // verus!
