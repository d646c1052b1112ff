//! Pattern matching with the Z-algorithm on bytes.

use crate::cs::error::Error;
use crate::cs::string::kmp::input_error;
use crate::cs::search::sublist::is_first_occurrence;
use crate::pattern::{is_all_occurrences, matches_at};
use vstd::prelude::*;
use vstd::std_specs::cmp::PartialEqSpec;

verus! {

/// `l` is the length of the longest common prefix of `p` and `p[i..]`.
pub open spec fn is_z_value(p: Seq<u8>, i: int, l: int) -> bool {
    &&& 0 <= l <= p.len() - i
    &&& forall|j: int| 0 <= j < l ==> #[trigger] p[j] == p[i + j]
    &&& i + l < p.len() ==> p[l] != p[i + l]
}

/// `z` is the Z-array of `p`: its first entry is the length of `p`, and each
/// other entry the length of the longest common prefix of `p` and the suffix
/// that starts there.
pub open spec fn is_z_array(p: Seq<u8>, z: Seq<usize>) -> bool {
    &&& z.len() == p.len()
    &&& p.len() > 0 ==> z[0] == p.len()
    &&& forall|i: int| 0 < i < p.len() ==> #[trigger] is_z_value(p, i, z[i] as int)
}

/// Computes the Z-array of a non-empty byte string in linear time, reusing
/// the rightmost match window found so far.
pub fn compute_z_array(pattern: &[u8]) -> (z: Vec<usize>)
    requires
        pattern@.len() > 0,
    ensures
        is_z_array(pattern@, z@),
{
    let ghost p = pattern@;
    let n = pattern.len();
    let mut z: Vec<usize> = vec![0; n];
    z.set(0, n);
    let mut left: usize = 0;
    let mut right: usize = 0;
    let mut i: usize = 1;
    while i < n
        invariant
            p == pattern@,
            n == p.len(),
            n > 0,
            1 <= i <= n,
            z@.len() == n,
            z@[0] == n,
            forall|t: int| 0 < t < i ==> #[trigger] is_z_value(p, t, z@[t] as int),
            left < i || (left == 0 && right == 0),
            left <= right + 1,
            right < n,
            left == 0 ==> right == 0,
            forall|j: int| 0 <= j <= right - left ==> #[trigger] p[j] == p[left + j],
        decreases n - i,
    {
        let mut zi: usize = 0;
        if i <= right {
            let k = i - left;
            let remaining = right - i + 1;
            let zk = z[k];
            proof {
                assert(is_z_value(p, k as int, zk as int));
            }
            if zk < remaining {
                proof {
                    assert forall|j: int| 0 <= j < zk implies #[trigger] p[j] == p[i + j] by {
                        assert(p[k + j] == p[left + (k + j)]);
                    }
                    if i + zk < n {
                        assert(p[k + zk] == p[left + (k + zk)]);
                    }
                    assert(is_z_value(p, i as int, zk as int));
                }
                z.set(i, zk);
                i = i + 1;
                continue;
            }
            proof {
                assert forall|j: int| 0 <= j < remaining implies #[trigger] p[j] == p[i + j] by {
                    assert(p[k + j] == p[left + (k + j)]);
                }
            }
            zi = remaining;
        }
        while i + zi < n && pattern[zi] == pattern[i + zi]
            invariant
                p == pattern@,
                n == p.len(),
                1 <= i < n,
                zi <= n - i,
                forall|j: int| 0 <= j < zi ==> #[trigger] p[j] == p[i + j],
            decreases n - i - zi,
        {
            zi = zi + 1;
        }
        z.set(i, zi);
        proof {
            assert(is_z_value(p, i as int, zi as int));
        }
        if i + zi - 1 > right {
            left = i;
            right = i + zi - 1;
        }
        i = i + 1;
    }
    z
}

/// The Z-array of the pattern, a zero byte, and the text.
fn combined_z_array(text: &[u8], pattern: &[u8]) -> (r: (Vec<u8>, Vec<usize>))
    requires
        pattern@.len() > 0,
        pattern@.len() + 1 + text@.len() <= usize::MAX,
    ensures
        r.0@ == pattern@ + seq![0u8] + text@,
        is_z_array(r.0@, r.1@),
{
    let mut combined: Vec<u8> = Vec::with_capacity(pattern.len() + 1 + text.len());
    let mut t: usize = 0;
    while t < pattern.len()
        invariant
            combined@ == pattern@.subrange(0, t as int),
            t <= pattern@.len(),
        decreases pattern@.len() - t,
    {
        combined.push(pattern[t]);
        t = t + 1;
        proof {
            assert(combined@ =~= pattern@.subrange(0, t as int));
        }
    }
    combined.push(0);
    let mut t: usize = 0;
    proof {
        assert(combined@ =~= pattern@ + seq![0u8] + text@.subrange(0, 0));
    }
    while t < text.len()
        invariant
            combined@ == pattern@ + seq![0u8] + text@.subrange(0, t as int),
            t <= text@.len(),
        decreases text@.len() - t,
    {
        combined.push(text[t]);
        t = t + 1;
        proof {
            assert(combined@ =~= pattern@ + seq![0u8] + text@.subrange(0, t as int));
        }
    }
    proof {
        assert(text@.subrange(0, text@.len() as int) =~= text@);
    }
    let z = compute_z_array(combined.as_slice());
    (combined, z)
}

/// The Z-value at the start of a text position of the combined string
/// reaches the pattern's length exactly where the pattern occurs there. The
/// zero byte can extend it past that length only where the text goes on
/// with a zero byte, so the test is "at least", not "equal".
proof fn lemma_z_value_match(text: Seq<u8>, pattern: Seq<u8>, c: Seq<u8>, i: int, zv: int)
    requires
        c == pattern + seq![0u8] + text,
        pattern.len() > 0,
        0 <= i < text.len(),
        is_z_value(c, pattern.len() + 1 + i, zv),
    ensures
        zv >= pattern.len() <==> matches_at(text, pattern, i),
{
    let m = pattern.len() as int;
    let j = m + 1 + i;
    if zv >= m {
        assert(i + m <= text.len());
        assert forall|u: int| 0 <= u < m implies (#[trigger] text.subrange(i, i + m)[u]).eq_spec(
            &pattern[u],
        ) by {
            assert(c[u] == c[j + u]);
        }
    }
    if matches_at(text, pattern, i) {
        assert forall|u: int| 0 <= u < m implies #[trigger] c[u] == c[j + u] by {
            assert(text.subrange(i, i + m)[u] == text[i + u]);
        }
        if zv < m {
            assert(c[zv] != c[j + zv]);
            assert(text.subrange(i, i + m)[zv] == text[i + zv]);
        }
    }
}

/// Finds every position at which `pattern` occurs in `text`, overlapping
/// occurrences included, in increasing order.
pub fn find_all(text: &[u8], pattern: &[u8]) -> (result: Result<Vec<usize>, Error>)
    requires
        text@.len() + pattern@.len() < usize::MAX,
    ensures
        match result {
            Ok(v) => 0 < pattern@.len() <= text@.len() && is_all_occurrences(text@, pattern@, v@),
            Err(e) => !(0 < pattern@.len() <= text@.len()) && input_error(
                text@.len(),
                pattern@.len(),
                e,
            ),
        },
{
    if pattern.is_empty() {
        return Err(Error::empty_pattern());
    }
    if pattern.len() > text.len() {
        return Err(Error::pattern_too_long(pattern.len(), text.len()));
    }
    let m = pattern.len();
    let n = text.len();
    let mut matches: Vec<usize> = Vec::new();
    if n == 0 {
        return Ok(matches);
    }
    let (combined, z) = combined_z_array(text, pattern);
    let ghost c = combined@;
    let mut i: usize = m + 1;
    while i < combined.len()
        invariant
            c == combined@,
            c == pattern@ + seq![0u8] + text@,
            is_z_array(c, z@),
            m == pattern@.len(),
            n == text@.len(),
            0 < m <= n,
            m + 1 <= i <= c.len(),
            forall|a: int| 0 <= a < matches@.len() ==> #[trigger] matches_at(text@, pattern@, matches@[a] as int),
            forall|a: int| 0 <= a < matches@.len() ==> #[trigger] matches@[a] < i - (m + 1),
            forall|a: int, b: int| 0 <= a < b < matches@.len() ==> matches@[a] < matches@[b],
            forall|t: int|
                0 <= t < i - (m + 1) && #[trigger] matches_at(text@, pattern@, t) ==> matches@.contains(
                    t as usize,
                ),
        decreases c.len() - i,
    {
        proof {
            assert(is_z_value(c, i as int, z@[i as int] as int));
            lemma_z_value_match(text@, pattern@, c, i - (m + 1), z@[i as int] as int);
        }
        if z[i] >= m {
            let ghost before = matches@;
            matches.push(i - (m + 1));
            proof {
                assert forall|t: int|
                    0 <= t < i + 1 - (m + 1) && #[trigger] matches_at(text@, pattern@, t) implies matches@.contains(
                    t as usize,
                ) by {
                    if t < i - (m + 1) {
                        let a = choose|a: int| 0 <= a < before.len() && before[a] == t as usize;
                        assert(matches@[a] == t as usize);
                    } else {
                        assert(matches@[before.len() as int] == t as usize);
                    }
                }
            }
        }
        i = i + 1;
    }
    proof {
        assert forall|t: int| #[trigger] matches_at(text@, pattern@, t) implies matches@.contains(t as usize) by {
            assert(t < n - m + 1);
        }
    }
    Ok(matches)
}

/// The first position at which `pattern` occurs in `text`, if any.
pub fn find_first(text: &[u8], pattern: &[u8]) -> (result: Result<Option<usize>, Error>)
    requires
        text@.len() + pattern@.len() < usize::MAX,
    ensures
        match result {
            Ok(r) => 0 < pattern@.len() <= text@.len() && is_first_occurrence(text@, pattern@, r),
            Err(e) => !(0 < pattern@.len() <= text@.len()) && input_error(
                text@.len(),
                pattern@.len(),
                e,
            ),
        },
{
    if pattern.is_empty() {
        return Err(Error::empty_pattern());
    }
    if pattern.len() > text.len() {
        return Err(Error::pattern_too_long(pattern.len(), text.len()));
    }
    let m = pattern.len();
    let n = text.len();
    if n == 0 {
        return Ok(None);
    }
    let (combined, z) = combined_z_array(text, pattern);
    let ghost c = combined@;
    let mut i: usize = m + 1;
    while i < combined.len()
        invariant
            c == combined@,
            c == pattern@ + seq![0u8] + text@,
            is_z_array(c, z@),
            m == pattern@.len(),
            n == text@.len(),
            0 < m <= n,
            m + 1 <= i <= c.len(),
            forall|t: int| 0 <= t < i - (m + 1) ==> !#[trigger] matches_at(text@, pattern@, t),
        decreases c.len() - i,
    {
        proof {
            assert(is_z_value(c, i as int, z@[i as int] as int));
            lemma_z_value_match(text@, pattern@, c, i - (m + 1), z@[i as int] as int);
        }
        if z[i] >= m {
            return Ok(Some(i - (m + 1)));
        }
        i = i + 1;
    }
    proof {
        assert forall|t: int| !#[trigger] matches_at(text@, pattern@, t) by {
            if 0 <= t && matches_at(text@, pattern@, t) {
                assert(t < n - m + 1);
            }
        }
    }
    Ok(None)
}

} // verus!
