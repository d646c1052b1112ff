//! Finding the first occurrence of a sub-list, naively and with the
//! Knuth-Morris-Pratt algorithm.

use crate::cs::error::Error;
use crate::pattern::{
    eq_laws, is_border, is_longest_border, is_lps_table, lemma_border_extend,
    lemma_border_of_border, lemma_border_shrink, lemma_eq_sym, lemma_occurrence_gives_border,
    lemma_seq_eq_extend, lemma_seq_eq_sub, lemma_seq_eq_sym, lemma_seq_eq_trans, matches_at, seq_eq,
};
use vstd::prelude::*;
use vstd::std_specs::cmp::PartialEqSpec;

verus! {

/// `r` is the first position at which `pattern` occurs in `data`, or `None`
/// where it occurs nowhere.
pub open spec fn is_first_occurrence<T: PartialEq>(
    data: Seq<T>,
    pattern: Seq<T>,
    r: Option<usize>,
) -> bool {
    match r {
        Some(i) => {
            &&& matches_at(data, pattern, i as int)
            &&& forall|s: int| 0 <= s < i ==> !#[trigger] matches_at(data, pattern, s)
        },
        None => forall|s: int| #![trigger matches_at(data, pattern, s)] !matches_at(data, pattern, s),
    }
}

/// The result that both sub-list searches give: an error for an empty
/// pattern, and otherwise the first occurrence.
pub open spec fn sublist_result<T: PartialEq>(
    data: Seq<T>,
    pattern: Seq<T>,
    r: Result<Option<usize>, Error>,
) -> bool {
    if pattern.len() == 0 {
        r matches Err(Error::InvalidInput(m)) && m@ == "Pattern cannot be empty"@
    } else {
        r matches Ok(o) && is_first_occurrence(data, pattern, o)
    }
}

/// Returns the starting index of the first occurrence of `pattern` in `data`,
/// comparing each candidate position element by element.
pub fn search<T: PartialEq>(data: &[T], pattern: &[T]) -> (result: Result<Option<usize>, Error>)
    requires
        T::obeys_eq_spec(),
    ensures
        sublist_result(data@, pattern@, result),
{
    if pattern.is_empty() {
        return Err(Error::invalid_input("Pattern cannot be empty"));
    }
    if data.is_empty() {
        return Ok(None);
    }
    if pattern.len() > data.len() {
        return Ok(None);
    }
    let n = data.len();
    let m = pattern.len();
    let mut i: usize = 0;
    while i <= n - m
        invariant
            T::obeys_eq_spec(),
            n == data@.len(),
            m == pattern@.len(),
            0 < m <= n,
            i <= n - m + 1,
            forall|s: int| 0 <= s < i ==> !#[trigger] matches_at(data@, pattern@, s),
        decreases n - m + 1 - i,
    {
        let mut found = true;
        let mut j: usize = 0;
        while j < m
            invariant
                T::obeys_eq_spec(),
                n == data@.len(),
                m == pattern@.len(),
                i + m <= n,
                j <= m,
                found ==> forall|u: int| 0 <= u < j ==> (#[trigger] data@[i + u]).eq_spec(&pattern@[u]),
                !found ==> !matches_at(data@, pattern@, i as int),
            ensures
                found ==> j == m,
                found ==> forall|u: int| 0 <= u < m ==> (#[trigger] data@[i + u]).eq_spec(&pattern@[u]),
                !found ==> !matches_at(data@, pattern@, i as int),
            decreases m - j,
        {
            if data[i + j] != pattern[j] {
                found = false;
                proof {
                    assert(data@.subrange(i as int, i + m)[j as int] == data@[i + j]);
                }
                break;
            }
            j = j + 1;
        }
        if found {
            proof {
                assert forall|u: int| 0 <= u < m implies (#[trigger] data@.subrange(
                    i as int,
                    i + m,
                )[u]).eq_spec(&pattern@[u]) by {
                    assert(data@.subrange(i as int, i + m)[u] == data@[i + u]);
                }
            }
            return Ok(Some(i));
        }
        i = i + 1;
    }
    Ok(None)
}

/// Finds the first occurrence of `pattern` in `data` with the
/// Knuth-Morris-Pratt algorithm, which never moves back in `data`.
pub fn search_kmp<T: PartialEq>(data: &[T], pattern: &[T]) -> (result: Result<
    Option<usize>,
    Error,
>)
    requires
        eq_laws::<T>(),
    ensures
        sublist_result(data@, pattern@, result),
{
    if pattern.is_empty() {
        return Err(Error::invalid_input("Pattern cannot be empty"));
    }
    if data.is_empty() {
        return Ok(None);
    }
    if pattern.len() > data.len() {
        return Ok(None);
    }
    let lps = compute_lps(pattern);
    let n = data.len();
    let m = pattern.len();
    let ghost d = data@;
    let ghost p = pattern@;
    let mut j: usize = 0;
    let mut i: usize = 0;
    while i < n
        invariant
            eq_laws::<T>(),
            d == data@,
            p == pattern@,
            n == d.len(),
            m == p.len(),
            0 < m <= n,
            is_lps_table(p, lps@),
            j < m,
            j <= i <= n,
            seq_eq(p.subrange(0, j as int), d.subrange(i - j, i as int)),
            forall|s: int| 0 <= s < i - j ==> !#[trigger] matches_at(d, p, s),
        decreases n - i, j,
    {
        if pattern[j] == data[i] {
            proof {
                lemma_seq_eq_extend(p, 0, d, i - j, j as int);
                assert(d.subrange(i - j, i - j + j + 1) == d.subrange((i + 1) - (j + 1), i + 1));
            }
            j = j + 1;
            i = i + 1;
        }
        if j == m {
            proof {
                assert(p.subrange(0, m as int) == p);
                lemma_seq_eq_sym(p, d.subrange(i - j, i as int));
            }
            return Ok(Some(i - j));
        } else if i < n && pattern[j] != data[i] {
            if j != 0 {
                let k = lps[j - 1];
                proof {
                    assert(is_longest_border(p, j - 1, k as int));
                    // The new alignment still agrees.
                    lemma_seq_eq_sub(p.subrange(0, j as int), d.subrange(i - j, i as int), j - k, j as int);
                    assert(p.subrange(0, j as int).subrange(j - k, j as int) == p.subrange(j - k, j as int));
                    assert(d.subrange(i - j, i as int).subrange(j - k, j as int) == d.subrange(i - k, i as int));
                    lemma_seq_eq_trans(p.subrange(0, k as int), p.subrange(j - k, j as int), d.subrange(i - k, i as int));
                    // No occurrence is skipped.
                    assert forall|s: int| 0 <= s < i - k implies !#[trigger] matches_at(d, p, s) by {
                        if s == i - j && matches_at(d, p, s) {
                            assert(d.subrange(s, s + m)[j as int] == d[i as int]);
                            lemma_eq_sym(d[i as int], p[j as int]);
                        } else if i - j < s && matches_at(d, p, s) {
                            lemma_occurrence_gives_border(d, p, i as int, j as int, s);
                            assert(!is_border(p, j as int, i - s));
                        }
                    }
                }
                j = k;
            } else {
                proof {
                    assert forall|s: int| 0 <= s < i + 1 implies !#[trigger] matches_at(d, p, s) by {
                        if s == i && matches_at(d, p, s) {
                            assert(d.subrange(s, s + m)[0] == d[i as int]);
                            lemma_eq_sym(d[i as int], p[0]);
                        }
                    }
                    assert(d.subrange(i + 1, i + 1) =~= Seq::<T>::empty());
                    assert(p.subrange(0, 0) =~= Seq::<T>::empty());
                }
                i = i + 1;
            }
        }
    }
    Ok(None)
}

/// Computes, for each prefix of `pattern`, the length of its longest proper
/// prefix that is also a suffix.
pub fn compute_lps<T: PartialEq>(pattern: &[T]) -> (lps: Vec<usize>)
    requires
        eq_laws::<T>(),
    ensures
        is_lps_table(pattern@, lps@),
{
    let m = pattern.len();
    let ghost p = pattern@;
    let mut lps: Vec<usize> = vec![0; m];
    let mut len: usize = 0;
    let mut i: usize = 1;
    proof {
        if m > 0 {
            assert(p.subrange(0, 0) =~= p.subrange(1, 1));
            assert(is_border(p, 1, 0));
        }
    }
    while i < m
        invariant
            eq_laws::<T>(),
            p == pattern@,
            m == p.len(),
            lps@.len() == m,
            (m == 0 && i == 1) || (1 <= i <= m),
            forall|t: int| 0 <= t < i && t < m ==> #[trigger] is_longest_border(p, t, lps@[t] as int),
            i < m ==> is_border(p, i as int, len as int),
            forall|k: int| len + 1 < k < i + 1 ==> !#[trigger] is_border(p, i + 1, k),
        decreases m - i, len,
    {
        if pattern[i] == pattern[len] {
            proof {
                lemma_eq_sym(p[i as int], p[len as int]);
                lemma_border_extend(p, i as int, len as int);
                assert forall|k: int| len + 2 < k < i + 2 implies !#[trigger] is_border(p, i + 2, k) by {
                    if is_border(p, i + 2, k) {
                        lemma_border_shrink(p, i + 1, k - 1);
                        assert(is_longest_border(p, i as int, len + 1));
                    }
                }
            }
            len = len + 1;
            lps.set(i, len);
            i = i + 1;
        } else if len != 0 {
            let next = lps[len - 1];
            proof {
                let l = len as int;
                assert(is_longest_border(p, l - 1, next as int));
                lemma_border_of_border(p, i as int, l, next as int);
                assert forall|k: int| next + 1 < k < i + 1 implies !#[trigger] is_border(p, i + 1, k) by {
                    if is_border(p, i + 1, k) && k <= l + 1 {
                        lemma_border_shrink(p, i as int, k - 1);
                        if k == l + 1 {
                            lemma_eq_sym(p[l], p[i as int]);
                        } else {
                            lemma_border_of_border(p, i as int, l, k - 1);
                            assert(!is_border(p, l, k - 1));
                        }
                    }
                }
            }
            len = next;
        } else {
            proof {
                assert(p.subrange(0, 0) =~= p.subrange(i + 1, i + 1));
                assert(is_border(p, i + 1, 0));
                assert forall|k: int| 0 < k < i + 1 implies !#[trigger] is_border(p, i + 1, k) by {
                    if k == 1 && is_border(p, i + 1, k) {
                        lemma_border_shrink(p, i as int, 0);
                        lemma_eq_sym(p[0], p[i as int]);
                    }
                }
                assert(is_longest_border(p, i as int, 0));
                assert forall|k: int| 1 < k < i + 2 implies !#[trigger] is_border(p, i + 2, k) by {
                    if is_border(p, i + 2, k) {
                        lemma_border_shrink(p, i + 1, k - 1);
                    }
                }
                assert(p.subrange(0, 0) =~= p.subrange(i + 1, i + 1));
            }
            lps.set(i, 0);
            i = i + 1;
        }
    }
    lps
}

} // verus!
