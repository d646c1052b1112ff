//! Splitting text into words at whitespace, and joining words back.

use vstd::prelude::*;

verus! {

broadcast use vstd::string::group_string_axioms;

/// Whether `c` has Unicode's White_Space property: the 25 code points
/// U+0009 to U+000D, U+0020, U+0085, U+00A0, U+1680, U+2000 to U+200A,
/// U+2028, U+2029, U+202F, U+205F and U+3000.
pub open spec fn white_space(c: char) -> bool {
    let u = c as u32;
    ||| 0x9 <= u <= 0xd
    ||| u == 0x20
    ||| u == 0x85
    ||| u == 0xa0
    ||| u == 0x1680
    ||| 0x2000 <= u <= 0x200a
    ||| u == 0x2028
    ||| u == 0x2029
    ||| u == 0x202f
    ||| u == 0x205f
    ||| u == 0x3000
}

/// Whether `c` has Unicode's White_Space property, as `char::is_whitespace`
/// documents it.
fn is_whitespace(c: char) -> (r: bool)
    ensures
        r == white_space(c),
{
    let u = c as u32;
    (0x9 <= u && u <= 0xd) || u == 0x20 || u == 0x85 || u == 0xa0 || u == 0x1680 || (0x2000 <= u && u
        <= 0x200a) || u == 0x2028 || u == 0x2029 || u == 0x202f || u == 0x205f || u == 0x3000
}

/// The words of `s`: its maximal runs of characters that are not
/// whitespace, in order.
pub open spec fn words(s: Seq<char>) -> Seq<Seq<char>>
    decreases s.len(),
{
    if s.len() == 0 {
        Seq::empty()
    } else {
        let init = s.drop_last();
        let c = s.last();
        let w = words(init);
        if white_space(c) {
            w
        } else if init.len() > 0 && !white_space(init.last()) {
            w.update(w.len() - 1, w.last().push(c))
        } else {
            w.push(seq![c])
        }
    }
}

/// Text that ends in a character that is not whitespace has at least one word.
pub proof fn lemma_words_nonempty(s: Seq<char>)
    requires
        s.len() > 0,
        !white_space(s.last()),
    ensures
        words(s).len() > 0,
    decreases s.len(),
{
    let init = s.drop_last();
    if init.len() > 0 && !white_space(init.last()) {
        lemma_words_nonempty(init);
    }
}

/// No word is empty.
pub proof fn lemma_words_not_empty(s: Seq<char>)
    ensures
        forall|k: int| 0 <= k < words(s).len() ==> (#[trigger] words(s)[k]).len() > 0,
    decreases s.len(),
{
    if s.len() > 0 {
        lemma_words_not_empty(s.drop_last());
        let init = s.drop_last();
        if !white_space(s.last()) && init.len() > 0 && !white_space(init.last()) {
            lemma_words_nonempty(init);
        }
    }
}

/// The characters of each string.
pub open spec fn string_views(v: Seq<String>) -> Seq<Seq<char>> {
    v.map_values(|t: String| t@)
}

/// Splits `text` into its words, at whitespace.
pub fn tokenize(text: &str) -> (tokens: Vec<String>)
    ensures
        string_views(tokens@) == words(text@),
        concat_words(string_views(tokens@)) == without_white_space(text@),
        forall|k: int| 0 <= k < tokens@.len() ==> (#[trigger] tokens@[k])@.len() > 0,
{
    let ghost chars = text@;
    let mut tokens: Vec<String> = Vec::new();
    let mut current = String::new();
    let mut in_word = false;
    for c in iter: text.chars()
        invariant
            chars == text@,
            iter.seq() == chars,
            in_word ==> iter.index() > 0 && !white_space(chars[iter.index() - 1]),
            !in_word ==> iter.index() == 0 || white_space(chars[iter.index() - 1]),
            in_word ==> string_views(tokens@).push(current@) == words(
                chars.subrange(0, iter.index() as int),
            ),
            !in_word ==> string_views(tokens@) == words(chars.subrange(0, iter.index() as int)),
            !in_word ==> current@ == Seq::<char>::empty(),
    {
        let ghost k = iter.index() as int;
        let ghost seen = chars.subrange(0, k + 1);
        proof {
            assert(seen.drop_last() =~= chars.subrange(0, k));
            assert(seen.last() == c);
        }
        if is_whitespace(c) {
            if in_word {
                tokens.push(current);
                current = String::new();
                in_word = false;
                proof {
                    assert(string_views(tokens@) =~= words(seen));
                }
            }
        } else {
            let ghost before = current@;
            current.push(c);
            proof {
                if in_word {
                    assert(string_views(tokens@).push(current@) =~= words(seen));
                } else {
                    assert(string_views(tokens@).push(current@) =~= words(seen));
                }
            }
            in_word = true;
        }
    }
    proof {
        assert(chars.subrange(0, chars.len() as int) =~= chars);
    }
    if in_word {
        tokens.push(current);
        proof {
            assert(string_views(tokens@) =~= words(chars));
        }
    }
    proof {
        words_are_text_without_white_space(text@);
        assert forall|k: int| 0 <= k < tokens@.len() implies (#[trigger] tokens@[k])@.len() > 0 by {
            assert(string_views(tokens@)[k] == tokens@[k]@);
        }
    }
    tokens
}

/// The words joined with single spaces between them.
pub open spec fn joined(words: Seq<Seq<char>>) -> Seq<char>
    decreases words.len(),
{
    if words.len() == 0 {
        Seq::empty()
    } else if words.len() == 1 {
        words[0]
    } else {
        joined(words.drop_last()) + seq![' '] + words.last()
    }
}

/// Joins the tokens into one string, with a single space between each two.
pub fn detokenize(tokens: &[String]) -> (text: String)
    ensures
        text@ == joined(string_views(tokens@)),
{
    let mut text = String::new();
    let mut k: usize = 0;
    while k < tokens.len()
        invariant
            0 <= k <= tokens@.len(),
            text@ == joined(string_views(tokens@.subrange(0, k as int))),
        decreases tokens@.len() - k,
    {
        if k > 0 {
            text.push(' ');
        }
        text.push_str(tokens[k].as_str());
        proof {
            let done = string_views(tokens@.subrange(0, k + 1));
            assert(done.drop_last() =~= string_views(tokens@.subrange(0, k as int)));
            assert(done.last() == tokens@[k as int]@);
            if k == 0 {
                assert(text@ =~= joined(done));
            } else {
                assert(text@ =~= joined(done));
            }
        }
        k = k + 1;
    }
    proof {
        assert(tokens@.subrange(0, tokens@.len() as int) =~= tokens@);
    }
    text
}

/// Text that ends in whitespace, or is empty, splits into its own words
/// followed by those of whatever comes after it: words never run across
/// whitespace.
pub proof fn lemma_words_concat(p: Seq<char>, q: Seq<char>)
    requires
        p.len() == 0 || white_space(p.last()),
    ensures
        words(p + q) == words(p) + words(q),
    decreases q.len(),
{
    if q.len() == 0 {
        assert(p + q =~= p);
        assert(words(p) + words(q) =~= words(p));
    } else {
        let q1 = q.drop_last();
        let c = q.last();
        lemma_words_concat(p, q1);
        assert((p + q).drop_last() =~= p + q1);
        assert((p + q).last() == c);
        let w = words(p + q1);
        if white_space(c) {
        } else if q1.len() > 0 && !white_space(q1.last()) {
            assert((p + q1).last() == q1.last());
            lemma_words_nonempty(q1);
            assert(words(p + q) =~= words(p) + words(q));
        } else {
            if q1.len() > 0 {
                assert((p + q1).last() == q1.last());
            } else {
                assert(p + q1 =~= p);
            }
            assert(words(p + q) =~= words(p) + words(q));
        }
    }
}

/// A nonempty text without whitespace is one word.
pub proof fn lemma_single_word(w: Seq<char>)
    requires
        w.len() > 0,
        forall|j: int| 0 <= j < w.len() ==> !white_space(#[trigger] w[j]),
    ensures
        words(w) == seq![w],
    decreases w.len(),
{
    let init = w.drop_last();
    if init.len() > 0 {
        lemma_single_word(init);
        assert(init.last() == w[w.len() - 2]);
        assert(init.push(w.last()) =~= w);
        assert(seq![init].update(0, init.push(w.last())) =~= seq![w]);
    } else {
        assert(words(init) =~= Seq::<Seq<char>>::empty());
        assert(seq![w.last()] =~= w);
    }
}

/// The code points that have Unicode's White_Space property, as the Unicode
/// Character Database's PropList lists them: five ASCII control characters
/// and the space, and nineteen beyond ASCII.
pub open spec fn unicode_white_space() -> Set<u32> {
    set![
        0x0009u32, 0x000Au32, 0x000Bu32, 0x000Cu32, 0x000Du32, 0x0020u32,
        0x0085u32, 0x00A0u32, 0x1680u32,
        0x2000u32, 0x2001u32, 0x2002u32, 0x2003u32, 0x2004u32, 0x2005u32, 0x2006u32,
        0x2007u32, 0x2008u32, 0x2009u32, 0x200Au32,
        0x2028u32, 0x2029u32, 0x202Fu32, 0x205Fu32, 0x3000u32
    ]
}

/// A character separates words exactly when it has Unicode's White_Space
/// property.
pub proof fn white_space_is_unicode_white_space(c: char)
    ensures
        white_space(c) <==> unicode_white_space().contains(c as u32),
{
}

/// `s` with its whitespace characters taken out.
pub open spec fn without_white_space(s: Seq<char>) -> Seq<char>
    decreases s.len(),
{
    if s.len() == 0 {
        s
    } else if white_space(s.last()) {
        without_white_space(s.drop_last())
    } else {
        without_white_space(s.drop_last()).push(s.last())
    }
}

/// The words, one after another.
pub open spec fn concat_words(ws: Seq<Seq<char>>) -> Seq<char>
    decreases ws.len(),
{
    if ws.len() == 0 {
        Seq::empty()
    } else {
        concat_words(ws.drop_last()) + ws.last()
    }
}

/// The words of a text hold, in order, exactly its characters that are not
/// whitespace: each word is nonempty and holds no whitespace, and the words
/// one after another are the text with its whitespace taken out.
pub proof fn words_are_text_without_white_space(s: Seq<char>)
    ensures
        concat_words(words(s)) == without_white_space(s),
        forall|k: int| 0 <= k < words(s).len() ==> (#[trigger] words(s)[k]).len() > 0,
        forall|k: int, j: int|
            0 <= k < words(s).len() && 0 <= j < words(s)[k].len() ==> !white_space(#[trigger] words(s)[k][j]),
    decreases s.len(),
{
    lemma_words_not_empty(s);
    if s.len() > 0 {
        let init = s.drop_last();
        let c = s.last();
        let w = words(init);
        words_are_text_without_white_space(init);
        if white_space(c) {
        } else if init.len() > 0 && !white_space(init.last()) {
            lemma_words_nonempty(init);
            let w2 = w.update(w.len() - 1, w.last().push(c));
            assert(w2.drop_last() =~= w.drop_last());
            assert(concat_words(w2) =~= concat_words(w).push(c));
            assert forall|k: int, j: int| 0 <= k < w2.len() && 0 <= j < w2[k].len() implies !white_space(
                #[trigger] w2[k][j],
            ) by {
                if k < w.len() - 1 {
                    assert(w2[k] == w[k]);
                } else if j < w.last().len() {
                    assert(w2[k][j] == w[k][j]);
                }
            }
        } else {
            let w2 = w.push(seq![c]);
            assert(w2.drop_last() =~= w);
            assert(concat_words(w2) =~= concat_words(w).push(c));
            assert forall|k: int, j: int| 0 <= k < w2.len() && 0 <= j < w2[k].len() implies !white_space(
                #[trigger] w2[k][j],
            ) by {
                if k < w.len() {
                    assert(w2[k] == w[k]);
                }
            }
        }
    }
}

/// Splitting tokens joined by spaces gives the tokens back, for tokens that
/// are nonempty and hold no whitespace.
pub proof fn tokenize_inverts_detokenize(tokens: Seq<Seq<char>>)
    requires
        forall|k: int| 0 <= k < tokens.len() ==> (#[trigger] tokens[k]).len() > 0,
        forall|k: int, j: int|
            0 <= k < tokens.len() && 0 <= j < tokens[k].len() ==> !white_space(#[trigger] tokens[k][j]),
    ensures
        words(joined(tokens)) == tokens,
    decreases tokens.len(),
{
    if tokens.len() == 1 {
        lemma_single_word(tokens[0]);
        assert(seq![tokens[0]] =~= tokens);
    } else if tokens.len() > 1 {
        let init = tokens.drop_last();
        let last = tokens.last();
        assert forall|k: int| 0 <= k < init.len() implies (#[trigger] init[k]).len() > 0 by {
            assert(init[k] == tokens[k]);
        }
        assert forall|k: int, j: int|
            0 <= k < init.len() && 0 <= j < init[k].len() implies !white_space(#[trigger] init[k][j]) by {
            assert(init[k] == tokens[k]);
        }
        tokenize_inverts_detokenize(init);
        let p = joined(init) + seq![' '];
        assert(p.drop_last() =~= joined(init));
        assert(words(p) == words(joined(init)));
        assert(tokens[tokens.len() - 1] == last);
        lemma_single_word(last);
        lemma_words_concat(p, last);
        assert(joined(tokens) =~= p + last);
        assert(tokens =~= init.push(last));
        assert(init + seq![last] =~= init.push(last));
    } else {
        assert(tokens =~= Seq::<Seq<char>>::empty());
    }
}

} // verus!
