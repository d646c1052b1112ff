//! The longest palindromic substring, by expanding around each center of a
//! transformed text with separators between the characters.

use crate::error::StringError;
use vstd::prelude::*;

verus! {

broadcast use vstd::string::group_string_axioms;

/// The characters of `s` with `#` before each, between `^` and `#$`: for
/// `abc`, `^#a#b#c#$`.
pub open spec fn preprocessed(s: Seq<char>) -> Seq<char>
    decreases s.len(),
{
    if s.len() == 0 {
        seq!['^', '#', '$']
    } else {
        preprocessed(s.drop_last()).drop_last().drop_last().push('#').push(s.last()).push('#').push(
            '$',
        )
    }
}

/// Transforms the text so that palindromes of both parities have a center:
/// `^`, then `#` and each character in turn, then `#$`.
pub fn preprocess(s: &str) -> (r: String)
    ensures
        r@ == preprocessed(s@),
{
    let mut result = String::new();
    result.push('^');
    let ghost chars = s@;
    for ch in iter: s.chars()
        invariant
            chars == s@,
            iter.seq() == chars,
            result@ == preprocessed(chars.subrange(0, iter.index() as int)).drop_last().drop_last(),
    {
        proof {
            let k = iter.index() as int;
            let seen = chars.subrange(0, k + 1);
            assert(seen.drop_last() =~= chars.subrange(0, k));
            assert(seen.last() == ch);
        }
        result.push('#');
        result.push(ch);
        proof {
            let k = iter.index() as int;
            let seen = chars.subrange(0, k + 1);
            assert(result@ =~= preprocessed(seen).drop_last().drop_last());
        }
    }
    let ghost seen = chars;
    proof {
        assert(chars.subrange(0, chars.len() as int) =~= chars);
    }
    result.push_str("#$");
    proof {
        reveal_strlit("#$");
        lemma_preprocessed_len(seen);
        assert(result@ =~= preprocessed(seen));
    }
    result
}

/// The transformed text has `2 * len + 3` characters and ends in `#$`.
proof fn lemma_preprocessed_len(s: Seq<char>)
    ensures
        preprocessed(s).len() == 2 * s.len() + 3,
        preprocessed(s)[preprocessed(s).len() - 1] == '$',
        preprocessed(s)[preprocessed(s).len() - 2] == '#',
    decreases s.len(),
{
    if s.len() > 0 {
        lemma_preprocessed_len(s.drop_last());
    }
}

/// The radius of the palindrome centered at `i`, expanded from `r`: the
/// characters at `i - k` and `i + k` agree for every `k` up to the result,
/// which stops before either of the two end markers.
pub open spec fn expand(t: Seq<char>, i: int, r: int) -> int
    decreases t.len() - r,
{
    if 0 <= r && i + 1 + r < t.len() - 1 && i > r + 1 && t[i + 1 + r] == t[i - 1 - r] {
        expand(t, i, r + 1)
    } else {
        r
    }
}

/// The center and radius of the first largest palindrome among centers
/// `1 .. j`, starting from center 0 and radius 0.
pub open spec fn best_center(t: Seq<char>, j: int) -> (int, int)
    decreases j,
{
    if j <= 1 {
        (0, 0)
    } else {
        let (c, l) = best_center(t, j - 1);
        if expand(t, j - 1, 0) > l {
            (j - 1, expand(t, j - 1, 0))
        } else {
            (c, l)
        }
    }
}

/// `s` is a longest palindromic substring of `text`: it reads the same
/// forwards and backwards, occurs in `text`, and no palindromic substring of
/// `text` is longer.
pub open spec fn is_longest_palindrome(text: Seq<char>, s: Seq<char>) -> bool {
    &&& is_palindrome(s)
    &&& exists|a: int| 0 <= a && a + s.len() <= text.len() && #[trigger] text.subrange(a, a + s.len()) == s
    &&& forall|a: int, b: int|
        0 <= a <= b <= text.len() && #[trigger] is_palindrome(text.subrange(a, b)) ==> b - a <= s.len()
}

/// Finds a longest palindromic substring of a text (the first one, among
/// several of the greatest length), by expanding around each center of the
/// transformed text; empty for an empty text.
pub fn longest_palindrome(text: &str) -> (result: Result<String, StringError>)
    requires
        text@.len() <= usize::MAX / 16,
    ensures
        result matches Ok(s) && is_longest_palindrome(text@, s@),
{
    if text.is_empty() {
        let empty = String::new();
        proof {
            assert(text@.len() == 0);
            assert(text@.subrange(0, 0 + empty@.len() as int) =~= empty@);
        }
        return Ok(empty);
    }
    let transformed = preprocess(text);
    let mut chars: Vec<char> = Vec::new();
    let ghost tv = transformed@;
    for ch in iter: transformed.as_str().chars()
        invariant
            tv == transformed@,
            iter.seq() == tv,
            chars@ == tv.subrange(0, iter.index() as int),
    {
        chars.push(ch);
        proof {
            assert(chars@ =~= tv.subrange(0, iter.index() + 1));
        }
    }
    proof {
        assert(tv.subrange(0, tv.len() as int) =~= tv);
    }
    let ghost t = chars@;
    proof {
        lemma_preprocessed_len(text@);
    }
    let n = chars.len();
    let mut p: Vec<usize> = vec![0; n];
    let mut center: usize = 0;
    let mut right: usize = 0;
    let mut i: usize = 1;
    while i < n - 1
        invariant
            t == chars@,
            t == preprocessed(text@),
            n == t.len(),
            n >= 5,
            n < usize::MAX / 2,
            1 <= i <= n - 1,
            p@.len() == n,
            center < i,
            forall|j: int| 1 <= j < i ==> #[trigger] p@[j] == expand(t, j, 0) && p@[j] <= j,
            forall|j: int| i <= j < n ==> #[trigger] p@[j] == 0,
        decreases n - 1 - i,
    {
        let mirror = if i < center {
            2 * center - i
        } else {
            i
        };
        if i < right {
            let pm = p[mirror];
            let cap = right - i;
            p.set(i, if pm < cap { pm } else { cap });
        }
        proof {
            assert(p@[i as int] == 0);
        }
        let mut r: usize = p[i];
        while i + 1 + r < n - 1 && i > r + 1 && chars[i + 1 + r] == chars[i - 1 - r]
            invariant
                t == chars@,
                n == t.len(),
                n < usize::MAX / 2,
                1 <= i < n - 1,
                r <= i,
                expand(t, i as int, r as int) == expand(t, i as int, 0),
            decreases n - r,
        {
            r = r + 1;
        }
        p.set(i, r);
        if i + r > right {
            center = i;
            right = i + r;
        }
        i = i + 1;
    }
    let mut max_center: usize = 0;
    let mut max_len: usize = 0;
    let mut j: usize = 1;
    while j < n - 1
        invariant
            t == chars@,
            n == t.len(),
            n >= 5,
            1 <= j <= n - 1,
            p@.len() == n,
            forall|k: int| 1 <= k < n - 1 ==> #[trigger] p@[k] == expand(t, k, 0) && p@[k] <= k,
            (max_center as int, max_len as int) == best_center(t, j as int),
            max_center < n,
            max_len <= n,
        decreases n - 1 - j,
    {
        if p[j] > max_len {
            max_center = j;
            max_len = p[j];
        }
        j = j + 1;
    }
    proof {
        lemma_best_center_is_longest(text@);
    }
    if max_center < 1 + max_len {
        return Err(StringError::invalid_input("Invalid palindrome position"));
    }
    let start = (max_center - 1 - max_len) / 2;
    let length = char_count(text);
    if start + max_len > length {
        return Err(StringError::invalid_input("Invalid palindrome length"));
    }
    Ok(chars_between(text, start, start + max_len))
}

/// The number of characters of `text`.
fn char_count(text: &str) -> (n: usize)
    requires
        text@.len() <= usize::MAX,
    ensures
        n == text@.len(),
{
    let mut n: usize = 0;
    for ch in iter: text.chars()
        invariant
            iter.seq() == text@,
            n == iter.index(),
            text@.len() <= usize::MAX,
    {
        n = n + 1;
    }
    n
}

/// The characters of `text` from position `start` up to, not including,
/// `end`.
fn chars_between(text: &str, start: usize, end: usize) -> (r: String)
    requires
        start <= end <= text@.len(),
        text@.len() <= usize::MAX,
    ensures
        r@ == text@.subrange(start as int, end as int),
{
    let mut found = String::new();
    let mut k: usize = 0;
    for ch in iter: text.chars()
        invariant
            iter.seq() == text@,
            k == iter.index(),
            start <= end <= text@.len(),
            text@.len() <= usize::MAX,
            found@ == text@.subrange(start as int, if k < start { start as int } else if k < end { k as int } else { end as int }),
    {
        if start <= k && k < end {
            found.push(ch);
        }
        k = k + 1;
        proof {
            let e = if k < start { start as int } else if k < end { k as int } else { end as int };
            assert(found@ =~= text@.subrange(start as int, e));
        }
    }
    found
}

/// The character at position `i` of the transformed text of `s`.
pub open spec fn transformed_char(s: Seq<char>, i: int) -> char {
    if i == 0 {
        '^'
    } else if i == 2 * s.len() + 2 {
        '$'
    } else if i % 2 == 1 {
        '#'
    } else {
        s[(i - 2) / 2]
    }
}

/// The transformed text holds `^`, a `#` at each odd position, the
/// characters of `s` at the even positions between, and `$` last.
proof fn lemma_preprocessed_chars(s: Seq<char>)
    ensures
        preprocessed(s).len() == 2 * s.len() + 3,
        forall|i: int| 0 <= i < preprocessed(s).len() ==> #[trigger] preprocessed(s)[i] == transformed_char(s, i),
    decreases s.len(),
{
    lemma_preprocessed_len(s);
    if s.len() > 0 {
        let p = s.drop_last();
        lemma_preprocessed_chars(p);
        let tp = preprocessed(p);
        let t = preprocessed(s);
        assert(t == tp.drop_last().drop_last().push('#').push(s.last()).push('#').push('$'));
        assert forall|i: int| 0 <= i < t.len() implies #[trigger] t[i] == transformed_char(s, i) by {
            if i < tp.len() - 2 {
                assert(t[i] == tp[i]);
                assert(tp[i] == transformed_char(p, i));
                if i % 2 == 0 && i != 0 {
                    assert(s[(i - 2) / 2] == p[(i - 2) / 2]);
                }
            }
        }
    }
}

/// Position `m` of the expansion around `i` matches: both ends lie strictly
/// between the end markers and hold the same character.
pub open spec fn matched(t: Seq<char>, i: int, m: int) -> bool {
    0 <= m && i + 1 + m < t.len() - 1 && i > m + 1 && t[i + 1 + m] == t[i - 1 - m]
}

/// The expansion from `r` passes exactly the matching positions from `r`
/// on, and stops at the first that does not match.
proof fn lemma_expand(t: Seq<char>, i: int, r: int)
    requires
        0 <= r,
    ensures
        expand(t, i, r) >= r,
        forall|m: int| r <= m < expand(t, i, r) ==> #[trigger] matched(t, i, m),
        !matched(t, i, expand(t, i, r)),
    decreases t.len() - r,
{
    if matched(t, i, r) {
        lemma_expand(t, i, r + 1);
    }
}

/// Where every position from `r` up to `len` matches, the expansion from `r`
/// reaches at least `len`.
proof fn lemma_expand_reaches(t: Seq<char>, i: int, r: int, len: int)
    requires
        0 <= r <= len,
        forall|m: int| r <= m < len ==> #[trigger] matched(t, i, m),
    ensures
        expand(t, i, r) >= len,
    decreases len - r,
{
    lemma_expand(t, i, r);
    if r < len {
        assert(matched(t, i, r));
        lemma_expand_reaches(t, i, r + 1, len);
    }
}

/// The best center among `1 .. j` is one of them with the largest radius,
/// or center 0 with radius 0 where none has a positive radius.
proof fn lemma_best_center(t: Seq<char>, j: int)
    requires
        j >= 1,
    ensures
        (best_center(t, j).0 == 0 && best_center(t, j).1 == 0) || (1 <= best_center(t, j).0 < j
            && best_center(t, j).1 == expand(t, best_center(t, j).0, 0)),
        forall|i: int| 1 <= i < j ==> #[trigger] expand(t, i, 0) <= best_center(t, j).1,
    decreases j,
{
    if j > 1 {
        lemma_best_center(t, j - 1);
        lemma_expand(t, j - 1, 0);
    }
}

/// `s` reads the same forwards and backwards.
pub open spec fn is_palindrome(s: Seq<char>) -> bool {
    forall|k: int| 0 <= k < s.len() ==> #[trigger] s[k] == s[s.len() - 1 - k]
}

/// The first largest palindrome of the transformed text of a nonempty text
/// has its ends on separators, lies within the text, and gives a longest
/// palindromic substring of the text.
proof fn lemma_best_center_is_longest(text: Seq<char>)
    requires
        text.len() > 0,
    ensures
        ({
            let t = preprocessed(text);
            let (c, l) = best_center(t, t.len() - 1);
            &&& c >= 1 + l
            &&& (c - 1 - l) / 2 + l <= text.len()
            &&& is_longest_palindrome(text, text.subrange((c - 1 - l) / 2, (c - 1 - l) / 2 + l))
        }),
{
    let n = text.len() as int;
    let t = preprocessed(text);
    lemma_preprocessed_chars(text);
    let big = t.len() as int;
    assert(big == 2 * n + 3);
    let (c, l) = best_center(t, big - 1);
    lemma_best_center(t, big - 1);
    lemma_expand(t, 2, 0);
    assert(t[3] == transformed_char(text, 3));
    assert(t[1] == transformed_char(text, 1));
    assert(matched(t, 2, 0));
    assert(expand(t, 2, 0) >= 1);
    assert(l >= 1);
    assert(1 <= c < big - 1 && l == expand(t, c, 0));
    lemma_expand(t, c, 0);
    assert(matched(t, c, l - 1));
    assert(!matched(t, c, l));
    assert((c + l) % 2 == 1) by {
        if (c + l) % 2 == 0 {
            assert(c + 1 + l < big - 1);
            assert(c > l + 1);
            assert(t[c + 1 + l] == transformed_char(text, c + 1 + l));
            assert(t[c - 1 - l] == transformed_char(text, c - 1 - l));
        }
    }
    assert(c - l >= 1);
    assert(c + l <= 2 * n + 1);
    let st = (c - 1 - l) / 2;
    assert(2 * st == c - 1 - l);
    assert(st + l <= n);
    let found = text.subrange(st, st + l);
    assert(text.subrange(st, st + found.len()) == found);
    assert forall|x: int| 0 <= x < found.len() implies #[trigger] found[x] == found[found.len() - 1 - x] by {
        let p1 = c - l + 1 + 2 * x;
        let p2 = c + l - 1 - 2 * x;
        assert(found[x] == text[st + x]);
        assert(found[found.len() - 1 - x] == text[st + l - 1 - x]);
        assert(t[p1] == transformed_char(text, p1));
        assert(t[p2] == transformed_char(text, p2));
        assert((p1 - 2) / 2 == st + x);
        assert((p2 - 2) / 2 == st + l - 1 - x);
        if 2 * x < l - 1 {
            assert(matched(t, c, l - 2 - 2 * x));
        } else if 2 * x > l - 1 {
            assert(matched(t, c, 2 * x - l));
        }
    }
    assert forall|a: int, b: int|
        0 <= a <= b <= n && #[trigger] is_palindrome(text.subrange(a, b)) implies b - a <= l by {
        let len = b - a;
        if len > 0 {
            let center = a + b + 1;
            let sub = text.subrange(a, b);
            assert forall|m: int| 0 <= m < len implies #[trigger] matched(t, center, m) by {
                let p1 = center + 1 + m;
                let p2 = center - 1 - m;
                assert(t[p1] == transformed_char(text, p1));
                assert(t[p2] == transformed_char(text, p2));
                if p2 % 2 == 0 {
                    let k = (p2 - 2) / 2;
                    let k2 = (p1 - 2) / 2;
                    assert(a <= k && k2 < b);
                    assert(k2 == a + b - 1 - k);
                    assert(sub[k - a] == sub[sub.len() - 1 - (k - a)]);
                }
            }
            lemma_expand_reaches(t, center, 0, len);
            assert(1 <= center < big - 1);
        }
    }
}

} // verus!
