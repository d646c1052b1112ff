//! Knuth-Morris-Pratt pattern matching on bytes.

use crate::cs::error::Error;
use crate::cs::search::sublist;
use crate::pattern::{
    is_all_occurrences, is_border, is_longest_border, is_lps_table, lemma_eq_laws_u8, lemma_eq_sym,
    lemma_occurrence_gives_border, lemma_seq_eq_extend, lemma_seq_eq_sub, lemma_seq_eq_sym,
    lemma_seq_eq_trans, matches_at, seq_eq,
};
use vstd::prelude::*;

verus! {

/// The validation that both searches share: an empty pattern, then a pattern
/// longer than the text, is an error.
pub open spec fn input_error(text_len: nat, pattern_len: nat, e: Error) -> bool {
    if pattern_len == 0 {
        e is EmptyPattern
    } else {
        e == (Error::PatternTooLong {
            pattern_len: pattern_len as usize,
            text_len: text_len as usize,
        })
    }
}

/// Computes the longest-proper-prefix-which-is-also-suffix table of `pattern`.
pub fn compute_lps(pattern: &[u8]) -> (lps: Vec<usize>)
    ensures
        is_lps_table(pattern@, lps@),
{
    proof {
        lemma_eq_laws_u8();
    }
    sublist::compute_lps(pattern)
}

/// Finds every position at which `pattern` occurs in `text`, overlapping
/// occurrences included.
pub fn find_all(text: &[u8], pattern: &[u8]) -> (result: Result<Vec<usize>, Error>)
    ensures
        match result {
            Ok(v) => 0 < pattern@.len() <= text@.len() && is_all_occurrences(text@, pattern@, v@),
            Err(e) => !(0 < pattern@.len() <= text@.len()) && input_error(
                text@.len(),
                pattern@.len(),
                e,
            ),
        },
{
    if pattern.is_empty() {
        return Err(Error::empty_pattern());
    }
    if pattern.len() > text.len() {
        return Err(Error::pattern_too_long(pattern.len(), text.len()));
    }
    proof {
        lemma_eq_laws_u8();
    }
    let lps = compute_lps(pattern);
    let n = text.len();
    let m = pattern.len();
    let ghost d = text@;
    let ghost p = pattern@;
    let mut matches: Vec<usize> = Vec::new();
    let mut i: usize = 0;
    let mut j: usize = 0;
    while i < n
        invariant
            d == text@,
            p == pattern@,
            n == d.len(),
            m == p.len(),
            0 < m <= n,
            is_lps_table(p, lps@),
            j < m,
            j <= i <= n,
            seq_eq(p.subrange(0, j as int), d.subrange(i - j, i as int)),
            forall|a: int| 0 <= a < matches@.len() ==> #[trigger] matches_at(d, p, matches@[a] as int),
            forall|a: int| 0 <= a < matches@.len() ==> #[trigger] matches@[a] < i - j,
            forall|a: int, b: int| 0 <= a < b < matches@.len() ==> matches@[a] < matches@[b],
            forall|s: int| 0 <= s < i - j && #[trigger] matches_at(d, p, s) ==> matches@.contains(s as usize),
        decreases n - i, j,
    {
        proof {
            lemma_eq_laws_u8();
        }
        if pattern[j] == text[i] {
            proof {
                lemma_seq_eq_extend(p, 0, d, i - j, j as int);
                assert(d.subrange(i - j, i - j + j + 1) == d.subrange((i + 1) - (j + 1), i + 1));
            }
            i = i + 1;
            j = j + 1;
        }
        if j == m {
            let k = lps[j - 1];
            let ghost old_matches = matches@;
            proof {
                assert(p.subrange(0, m as int) == p);
                lemma_seq_eq_sym(p, d.subrange(i - j, i as int));
                assert(matches_at(d, p, i - j));
                assert(is_longest_border(p, j - 1, k as int));
                lemma_seq_eq_sub(p.subrange(0, j as int), d.subrange(i - j, i as int), j - k, j as int);
                assert(p.subrange(0, j as int).subrange(j - k, j as int) == p.subrange(j - k, j as int));
                assert(d.subrange(i - j, i as int).subrange(j - k, j as int) == d.subrange(i - k, i as int));
                lemma_seq_eq_trans(p.subrange(0, k as int), p.subrange(j - k, j as int), d.subrange(i - k, i as int));
            }
            matches.push(i - j);
            proof {
                assert(matches@[old_matches.len() as int] == i - j);
                assert forall|s: int| 0 <= s < i - k && #[trigger] matches_at(d, p, s) implies matches@.contains(s as usize) by {
                    if s < i - j {
                        assert(old_matches.contains(s as usize));
                        let a = choose|a: int| 0 <= a < old_matches.len() && old_matches[a] == s as usize;
                        assert(matches@[a] == s as usize);
                    } else if s == i - j {
                        assert(matches@[old_matches.len() as int] == s as usize);
                    } else {
                        lemma_occurrence_gives_border(d, p, i as int, j as int, s);
                        assert(!is_border(p, j as int, i - s));
                    }
                }
            }
            j = k;
        } else if i < n && pattern[j] != text[i] {
            if j > 0 {
                let k = lps[j - 1];
                proof {
                    assert(is_longest_border(p, j - 1, k as int));
                    lemma_seq_eq_sub(p.subrange(0, j as int), d.subrange(i - j, i as int), j - k, j as int);
                    assert(p.subrange(0, j as int).subrange(j - k, j as int) == p.subrange(j - k, j as int));
                    assert(d.subrange(i - j, i as int).subrange(j - k, j as int) == d.subrange(i - k, i as int));
                    lemma_seq_eq_trans(p.subrange(0, k as int), p.subrange(j - k, j as int), d.subrange(i - k, i as int));
                    assert forall|s: int| 0 <= s < i - k && #[trigger] matches_at(d, p, s) implies matches@.contains(s as usize) by {
                        if s == i - j {
                            assert(d.subrange(s, s + m)[j as int] == d[i as int]);
                            lemma_eq_sym(d[i as int], p[j as int]);
                        } else if i - j < s {
                            lemma_occurrence_gives_border(d, p, i as int, j as int, s);
                            assert(!is_border(p, j as int, i - s));
                        }
                    }
                }
                j = k;
            } else {
                proof {
                    assert forall|s: int| 0 <= s < i + 1 && #[trigger] matches_at(d, p, s) implies matches@.contains(s as usize) by {
                        if s == i {
                            assert(d.subrange(s, s + m)[0] == d[i as int]);
                            lemma_eq_sym(d[i as int], p[0]);
                        }
                    }
                    assert(d.subrange(i + 1, i + 1) =~= Seq::<u8>::empty());
                    assert(p.subrange(0, 0) =~= Seq::<u8>::empty());
                }
                i = i + 1;
            }
        }
    }
    proof {
        assert forall|s: int| #[trigger] matches_at(d, p, s) implies matches@.contains(s as usize) by {
            assert(s < i - j);
        }
    }
    Ok(matches)
}

/// Finds the first position at which `pattern` occurs in `text`.
pub fn find_first(text: &[u8], pattern: &[u8]) -> (result: Result<Option<usize>, Error>)
    ensures
        match result {
            Ok(r) => 0 < pattern@.len() <= text@.len() && sublist::is_first_occurrence(text@, pattern@, r),
            Err(e) => !(0 < pattern@.len() <= text@.len()) && input_error(
                text@.len(),
                pattern@.len(),
                e,
            ),
        },
{
    if pattern.is_empty() {
        return Err(Error::empty_pattern());
    }
    if pattern.len() > text.len() {
        return Err(Error::pattern_too_long(pattern.len(), text.len()));
    }
    proof {
        lemma_eq_laws_u8();
    }
    match sublist::search_kmp(text, pattern) {
        Ok(r) => Ok(r),
        Err(e) => Err(e),
    }
}

} // verus!
