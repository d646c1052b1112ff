//! The Cocke-Younger-Kasami recognizer for context-free grammars in Chomsky
//! normal form.

use crate::nlp::error::NLPError;
use crate::nlp::utils::{string_views, tokenize, words};
use vstd::prelude::*;

verus! {

/// A rule in Chomsky normal form, by the names of its symbols.
pub ghost enum GrammarRule {
    /// `A → B C`: the head and the two symbols of the body.
    Binary(Seq<char>, Seq<char>, Seq<char>),
    /// `A → a`: the head and the terminal.
    Terminal(Seq<char>, Seq<char>),
}

/// `x` derives the nonempty sequence of words `w` under the rules `g`: by a
/// terminal rule where `w` is one word, and otherwise by a binary rule whose
/// body symbols derive the two parts of some split of `w`.
pub open spec fn derives(g: Seq<GrammarRule>, x: Seq<char>, w: Seq<Seq<char>>) -> bool
    decreases w.len(),
{
    if w.len() == 1 {
        exists|r: int| 0 <= r < g.len() && #[trigger] g[r] == GrammarRule::Terminal(x, w[0])
    } else if w.len() >= 2 {
        exists|k: int, r: int|
            #![trigger g[r], w.subrange(0, k)]
            {
                &&& 0 <= r < g.len()
                &&& 1 <= k < w.len()
                &&& g[r] matches GrammarRule::Binary(h, b, c)
                &&& h == x
                &&& derives(g, b, w.subrange(0, k))
                &&& derives(g, c, w.subrange(k, w.len() as int))
            }
    } else {
        false
    }
}

/// Rule `r` of `g` is a binary rule with head `x` whose body derives `w`
/// split after its first `k` words.
pub open spec fn split_derives(g: Seq<GrammarRule>, x: Seq<char>, w: Seq<Seq<char>>, k: int, r: int) -> bool {
    &&& 0 <= r < g.len()
    &&& 1 <= k < w.len()
    &&& g[r] matches GrammarRule::Binary(h, b, c)
    &&& h == x
    &&& derives(g, b, w.subrange(0, k))
    &&& derives(g, c, w.subrange(k, w.len() as int))
}

/// The rule that a body of one or two words gives under `head`.
pub open spec fn body_rule(head: Seq<char>, body: Seq<char>) -> GrammarRule {
    let parts = words(body);
    if parts.len() == 1 {
        GrammarRule::Terminal(head, parts[0])
    } else {
        GrammarRule::Binary(head, parts[0], parts[1])
    }
}

/// A body is valid where it has one word (a terminal) or two (non-terminals).
pub open spec fn valid_body(body: Seq<char>) -> bool {
    words(body).len() == 1 || words(body).len() == 2
}

/// The rules of one head with its bodies, in order.
pub open spec fn entry_rules(head: Seq<char>, bodies: Seq<&str>) -> Seq<GrammarRule> {
    bodies.map_values(|b: &str| body_rule(head, b@))
}

/// The rules of a grammar given as heads with their bodies, in order.
pub open spec fn rules_of(g: Seq<(&str, Vec<&str>)>) -> Seq<GrammarRule>
    decreases g.len(),
{
    if g.len() == 0 {
        Seq::empty()
    } else {
        rules_of(g.drop_last()) + entry_rules(g.last().0@, g.last().1@)
    }
}

/// Body `b` of entry `e` is invalid.
pub open spec fn invalid_at(g: Seq<(&str, Vec<&str>)>, e: int, b: int) -> bool {
    &&& 0 <= e < g.len()
    &&& 0 <= b < g[e].1@.len()
    &&& !valid_body(g[e].1@[b]@)
}

/// Every body that comes before body `b` of entry `e` is valid.
pub open spec fn valid_before(g: Seq<(&str, Vec<&str>)>, e: int, b: int) -> bool {
    forall|e2: int, b2: int|
        (e2 < e || (e2 == e && b2 < b)) ==> !#[trigger] invalid_at(g, e2, b2)
}

/// The message for an invalid rule.
pub open spec fn invalid_rule_message(head: Seq<char>, body: Seq<char>) -> Seq<char> {
    "Invalid rule: "@ + head + " → "@ + body
}

/// A rule of the grammar, by the names of its symbols.
#[derive(Debug, Clone)]
enum CNFRule {
    /// `A → B C`.
    Binary(String, String, String),
    /// `A → a`.
    Terminal(String, String),
}

/// The rule as the names of its symbols.
spec fn rule_view(r: CNFRule) -> GrammarRule {
    match r {
        CNFRule::Binary(a, b, c) => GrammarRule::Binary(a@, b@, c@),
        CNFRule::Terminal(a, t) => GrammarRule::Terminal(a@, t@),
    }
}

/// The head of a rule.
spec fn rule_head(r: GrammarRule) -> Seq<char> {
    match r {
        GrammarRule::Binary(a, _, _) => a,
        GrammarRule::Terminal(a, _) => a,
    }
}

/// A recognizer for the language of a context-free grammar in Chomsky
/// normal form.
#[derive(Debug)]
pub struct CYKParser {
    rules: Vec<CNFRule>,
    non_terminals: Vec<String>,
    start_symbol: String,
}

impl CYKParser {
    /// The non-terminals are listed once each, and every symbol that a rule
    /// names as a head or in a binary body is among them.
    #[verifier::type_invariant]
    spec fn well_formed(self) -> bool {
        let nt = string_views(self.non_terminals@);
        &&& nt.no_duplicates()
        &&& forall|r: int|
            0 <= r < self.rules@.len() ==> match #[trigger] rule_view(self.rules@[r]) {
                GrammarRule::Binary(a, b, c) => nt.contains(a) && nt.contains(b) && nt.contains(c),
                GrammarRule::Terminal(a, _) => nt.contains(a),
            }
    }

    /// The rules of the grammar, in the order in which they were given.
    pub closed spec fn grammar(&self) -> Seq<GrammarRule> {
        self.rules@.map_values(|r: CNFRule| rule_view(r))
    }

    /// The start symbol: the head of the first entry of the grammar.
    pub closed spec fn start(&self) -> Seq<char> {
        self.start_symbol@
    }

    /// Builds a recognizer from a grammar given as heads with their bodies;
    /// each body is one terminal or two non-terminals, separated by
    /// whitespace. The head of the first entry is the start symbol.
    ///
    /// Returns a grammar error for an empty grammar, and for the first body
    /// that does not have one or two words.
    pub fn new(grammar: Vec<(&str, Vec<&str>)>) -> (result: Result<Self, NLPError>)
        ensures
            grammar@.len() == 0 ==> (result matches Err(NLPError::GrammarError(m)) && m@
                == "Empty grammar"@),
            grammar@.len() > 0 && (exists|e: int, b: int| invalid_at(grammar@, e, b)) ==> (result matches Err(
                NLPError::GrammarError(m),
            ) && exists|e: int, b: int|
                #[trigger] invalid_at(grammar@, e, b) && valid_before(grammar@, e, b) && m@
                    == invalid_rule_message(grammar@[e].0@, grammar@[e].1@[b]@)),
            grammar@.len() > 0 && (forall|e: int, b: int| !#[trigger] invalid_at(grammar@, e, b))
                ==> (result matches Ok(p) && p.grammar() == rules_of(grammar@) && p.start()
                == grammar@[0].0@),
    {
        if grammar.len() == 0 {
            return Err(NLPError::GrammarError("Empty grammar".to_owned()));
        }
        let start_symbol = grammar[0].0.to_owned();
        let mut rules: Vec<CNFRule> = Vec::new();
        let mut non_terminals: Vec<String> = Vec::new();
        let mut e: usize = 0;
        while e < grammar.len()
            invariant
                0 <= e <= grammar@.len(),
                grammar@.len() > 0,
                start_symbol@ == grammar@[0].0@,
                valid_before(grammar@, e as int, 0),
                rules@.map_values(|r: CNFRule| rule_view(r)) == rules_of(grammar@.subrange(0, e as int)),
                string_views(non_terminals@).no_duplicates(),
                forall|r: int|
                    0 <= r < rules@.len() ==> match #[trigger] rule_view(rules@[r]) {
                        GrammarRule::Binary(a, b, c) => string_views(non_terminals@).contains(a)
                            && string_views(non_terminals@).contains(b) && string_views(
                            non_terminals@,
                        ).contains(c),
                        GrammarRule::Terminal(a, _) => string_views(non_terminals@).contains(a),
                    },
            decreases grammar@.len() - e,
        {
            let head: &str = grammar[e].0;
            let bodies: &Vec<&str> = &grammar[e].1;
            let head_name = head.to_owned();
            add_symbol(&mut non_terminals, &head_name);
            let ghost rules_before = rules@;
            let mut b: usize = 0;
            while b < bodies.len()
                invariant
                    0 <= e < grammar@.len(),
                    head@ == grammar@[e as int].0@,
                    head_name@ == head@,
                    bodies@ == grammar@[e as int].1@,
                    0 <= b <= bodies@.len(),
                    valid_before(grammar@, e as int, b as int),
                    rules@.map_values(|r: CNFRule| rule_view(r)) == rules_before.map_values(
                        |r: CNFRule| rule_view(r),
                    ) + entry_rules(head@, bodies@.subrange(0, b as int)),
                    string_views(non_terminals@).no_duplicates(),
                    string_views(non_terminals@).contains(head@),
                    forall|r: int|
                        0 <= r < rules@.len() ==> match #[trigger] rule_view(rules@[r]) {
                            GrammarRule::Binary(a, b, c) => string_views(non_terminals@).contains(a)
                                && string_views(non_terminals@).contains(b) && string_views(
                                non_terminals@,
                            ).contains(c),
                            GrammarRule::Terminal(a, _) => string_views(non_terminals@).contains(
                                a,
                            ),
                        },
                decreases bodies@.len() - b,
            {
                let body: &str = bodies[b];
                let parts = tokenize(body);
                let ghost rules_mid = rules@;
                let ghost nt_mid = string_views(non_terminals@);
                if parts.len() == 1 {
                    rules.push(CNFRule::Terminal(head.to_owned(), parts[0].clone()));
                } else if parts.len() == 2 {
                    add_symbol(&mut non_terminals, &parts[0]);
                    add_symbol(&mut non_terminals, &parts[1]);
                    rules.push(CNFRule::Binary(head.to_owned(), parts[0].clone(), parts[1].clone()));
                } else {
                    let mut message = String::new();
                    message.push_str("Invalid rule: ");
                    message.push_str(head);
                    message.push_str(" → ");
                    message.push_str(body);
                    proof {
                        assert(invalid_at(grammar@, e as int, b as int));
                        assert(message@ =~= invalid_rule_message(
                            grammar@[e as int].0@,
                            grammar@[e as int].1@[b as int]@,
                        ));
                    }
                    return Err(NLPError::GrammarError(message));
                }
                proof {
                    let views = string_views(parts@);
                    assert(views[0] == parts@[0]@);
                    assert(body_rule(head@, body@) == rule_view(rules@.last()));
                    assert(entry_rules(head@, bodies@.subrange(0, b + 1)) =~= entry_rules(
                        head@,
                        bodies@.subrange(0, b as int),
                    ).push(body_rule(head@, body@)));
                    assert(rules@ == rules_mid.push(rules@.last()));
                    assert(rules@.map_values(|r: CNFRule| rule_view(r)) =~= rules_mid.map_values(
                        |r: CNFRule| rule_view(r),
                    ).push(rule_view(rules@.last())));
                    assert forall|r: int|
                        0 <= r < rules@.len() implies match #[trigger] rule_view(rules@[r]) {
                            GrammarRule::Binary(a, b, c) => string_views(non_terminals@).contains(a)
                                && string_views(non_terminals@).contains(b) && string_views(
                                non_terminals@,
                            ).contains(c),
                            GrammarRule::Terminal(a, _) => string_views(non_terminals@).contains(
                                a,
                            ),
                        } by {
                        if r < rules_mid.len() {
                            assert(rules@[r] == rules_mid[r]);
                            assert(rule_view(rules_mid[r]) == rule_view(rules@[r]));
                        }
                    }
                    assert(valid_body(body@));
                    assert forall|e2: int, b2: int|
                        (e2 < e || (e2 == e && b2 < b + 1)) implies !#[trigger] invalid_at(
                            grammar@,
                            e2,
                            b2,
                        ) by {
                        if e2 == e && b2 == b {
                        }
                    }
                }
                b = b + 1;
            }
            proof {
                assert(bodies@.subrange(0, bodies@.len() as int) =~= bodies@);
                let prefix = grammar@.subrange(0, e + 1);
                assert(prefix.drop_last() =~= grammar@.subrange(0, e as int));
                assert(prefix.last() == grammar@[e as int]);
                assert forall|e2: int, b2: int|
                    (e2 < e + 1 || (e2 == e + 1 && b2 < 0)) implies !#[trigger] invalid_at(
                        grammar@,
                        e2,
                        b2,
                    ) by {
                    if e2 == e {
                        assert(!invalid_at(grammar@, e2, b2) || b2 >= bodies@.len() || b2 < 0);
                    }
                }
            }
            e = e + 1;
        }
        proof {
            assert(grammar@.subrange(0, grammar@.len() as int) =~= grammar@);
        }
        let parser = CYKParser { rules, non_terminals, start_symbol };
        Ok(parser)
    }

    /// Whether the sentence, split into words at whitespace, is in the
    /// language of the grammar. A sentence without words is not.
    pub fn parse(&self, sentence: &str) -> (result: Result<bool, NLPError>)
        ensures
            result matches Ok(accepted) && accepted == derives(
                self.grammar(),
                self.start(),
                words(sentence@),
            ),
    {
        proof {
            use_type_invariant(self);
        }
        let tokens = tokenize(sentence);
        let ghost w = words(sentence@);
        let n = tokens.len();
        if n == 0 {
            return Ok(false);
        }
        let ghost g = self.grammar();
        let ghost nt = string_views(self.non_terminals@);
        let m = self.non_terminals.len();
        let (heads, lefts, rights) = self.resolve();
        let mut spans: Vec<Vec<Vec<bool>>> = Vec::new();
        let mut done: usize = 0;
        while done < n
            invariant
                n == tokens@.len(),
                n == w.len(),
                string_views(tokens@) == w,
                m == nt.len(),
                g == self.grammar(),
                nt == string_views(self.non_terminals@),
                nt.no_duplicates(),
                resolved(self.rules@, self.non_terminals@, heads@, lefts@, rights@),
                0 <= done <= n,
                spans_ok(spans@, g, nt, w, done as int),
            decreases n - done,
        {
            let len = done + 1;
            let mut row: Vec<Vec<bool>> = Vec::new();
            let mut i: usize = 0;
            while i <= n - len
                invariant
                    n == tokens@.len(),
                    n == w.len(),
                    string_views(tokens@) == w,
                    m == nt.len(),
                    g == self.grammar(),
                    nt == string_views(self.non_terminals@),
                    nt.no_duplicates(),
                    resolved(self.rules@, self.non_terminals@, heads@, lefts@, rights@),
                    1 <= len <= n,
                    spans_ok(spans@, g, nt, w, len - 1),
                    0 <= i <= n - len + 1,
                    row@.len() == i,
                    forall|k: int|
                        0 <= k < i ==> cell_ok(
                            #[trigger] row@[k]@,
                            g,
                            nt,
                            w.subrange(k, k + len),
                        ),
                decreases n + 1 - len - i,
            {
                let cell = if len == 1 {
                    self.word_cell(&tokens, i, &heads, Ghost(w))
                } else {
                    self.split_cell(&spans, i, len, &heads, &lefts, &rights, Ghost(w))
                };
                row.push(cell);
                proof {
                    assert forall|k: int| 0 <= k < i + 1 implies cell_ok(
                        #[trigger] row@[k]@,
                        g,
                        nt,
                        w.subrange(k, k + len),
                    ) by {
                        if k < i {
                        }
                    }
                }
                i = i + 1;
            }
            let ghost before = spans@;
            spans.push(row);
            proof {
                assert forall|l: int, j: int|
                    1 <= l <= len && 0 <= j <= w.len() - l implies cell_ok(
                        (#[trigger] spans@[l - 1]@[j])@,
                        g,
                        nt,
                        w.subrange(j, j + l),
                    ) by {
                    if l < len {
                        assert(spans@[l - 1] == before[l - 1]);
                    }
                }
            }
            done = done + 1;
        }
        match find_symbol(&self.non_terminals, &self.start_symbol) {
            Some(s) => {
                let accepted = spans[n - 1][0][s];
                proof {
                    assert(w.subrange(0, n as int) =~= w);
                }
                Ok(accepted)
            },
            None => {
                proof {
                    lemma_no_rule_no_derivation(self, w);
                }
                Ok(false)
            },
        }
    }

    /// The positions in the list of non-terminals of the symbols of each
    /// rule: its head, and the two symbols of a binary body (0 for a
    /// terminal rule).
    fn resolve(&self) -> (r: (Vec<usize>, Vec<usize>, Vec<usize>))
        ensures
            resolved(self.rules@, self.non_terminals@, r.0@, r.1@, r.2@),
    {
        proof {
            use_type_invariant(self);
        }
        let mut heads: Vec<usize> = Vec::new();
        let mut lefts: Vec<usize> = Vec::new();
        let mut rights: Vec<usize> = Vec::new();
        let mut k: usize = 0;
        while k < self.rules.len()
            invariant
                0 <= k <= self.rules@.len(),
                heads@.len() == k && lefts@.len() == k && rights@.len() == k,
                resolved(self.rules@.subrange(0, k as int), self.non_terminals@, heads@, lefts@, rights@),
                self.well_formed(),
            decreases self.rules@.len() - k,
        {
            let ghost rv = rule_view(self.rules@[k as int]);
            match &self.rules[k] {
                CNFRule::Binary(a, b, c) => {
                    heads.push(index_of(&self.non_terminals, a));
                    lefts.push(index_of(&self.non_terminals, b));
                    rights.push(index_of(&self.non_terminals, c));
                },
                CNFRule::Terminal(a, _) => {
                    heads.push(index_of(&self.non_terminals, a));
                    lefts.push(0);
                    rights.push(0);
                },
            }
            proof {
                let done = self.rules@.subrange(0, k + 1);
                assert forall|r: int| 0 <= r < k + 1 implies #[trigger] done[r] == self.rules@[r] by {}
            }
            k = k + 1;
        }
        proof {
            assert(self.rules@.subrange(0, self.rules@.len() as int) =~= self.rules@);
        }
        (heads, lefts, rights)
    }

    /// The cell of the one-word span at `i`: the non-terminals with a
    /// terminal rule for that word.
    fn word_cell(&self, tokens: &Vec<String>, i: usize, heads: &Vec<usize>, Ghost(w): Ghost<Seq<Seq<char>>>) -> (cell: Vec<bool>)
        requires
            string_views(tokens@) == w,
            i < tokens@.len(),
            resolved_heads(self.rules@, self.non_terminals@, heads@),
            string_views(self.non_terminals@).no_duplicates(),
        ensures
            cell_ok(cell@, self.grammar(), string_views(self.non_terminals@), w.subrange(i as int, i + 1)),
    {
        let ghost g = self.grammar();
        let ghost nt = string_views(self.non_terminals@);
        let ghost word = w[i as int];
        let m = self.non_terminals.len();
        let mut cell: Vec<bool> = Vec::new();
        let mut a: usize = 0;
        while a < m
            invariant
                0 <= a <= m,
                cell@.len() == a,
                forall|x: int| 0 <= x < a ==> !cell@[x],
            decreases m - a,
        {
            cell.push(false);
            a = a + 1;
        }
        let mut r: usize = 0;
        while r < self.rules.len()
            invariant
                g == self.grammar(),
                nt == string_views(self.non_terminals@),
                nt.no_duplicates(),
                m == nt.len(),
                word == w[i as int],
                string_views(tokens@) == w,
                i < tokens@.len(),
                resolved_heads(self.rules@, self.non_terminals@, heads@),
                0 <= r <= self.rules@.len(),
                cell@.len() == m,
                forall|x: int|
                    0 <= x < m ==> cell@[x] == exists|r2: int|
                        0 <= r2 < r && #[trigger] g[r2] == GrammarRule::Terminal(nt[x], word),
            decreases self.rules@.len() - r,
        {
            let ghost before = cell@;
            match &self.rules[r] {
                CNFRule::Terminal(_, t) => {
                    if *t == tokens[i] {
                        cell.set(heads[r], true);
                    }
                },
                CNFRule::Binary(_, _, _) => {},
            }
            proof {
                assert(g[r as int] == rule_view(self.rules@[r as int]));
                assert(tokens@[i as int]@ == word);
                assert forall|x: int|
                    0 <= x < m implies cell@[x] == exists|r2: int|
                        0 <= r2 < r + 1 && #[trigger] g[r2] == GrammarRule::Terminal(nt[x], word) by {
                    if g[r as int] == GrammarRule::Terminal(nt[x], word) {
                        assert(nt[heads@[r as int] as int] == self.non_terminals@[heads@[r as int] as int]@);
                        assert(rule_head(g[r as int]) == nt[heads@[r as int] as int]);
                        assert(heads@[r as int] == x);
                    }
                    if before[x] {
                        let r2 = choose|r2: int|
                            0 <= r2 < r && #[trigger] g[r2] == GrammarRule::Terminal(nt[x], word);
                        assert(0 <= r2 < r + 1 && g[r2] == GrammarRule::Terminal(nt[x], word));
                    }
                    if cell@[x] && !before[x] {
                        assert(heads@[r as int] == x);
                    }
                }
            }
            r = r + 1;
        }
        proof {
            let span = w.subrange(i as int, i + 1);
            assert(span[0] == word);
        }
        cell
    }

    /// The cell of the span of `len` words at `i`, for `len` at least two,
    /// from the cells of all shorter spans.
    fn split_cell(
        &self,
        spans: &Vec<Vec<Vec<bool>>>,
        i: usize,
        len: usize,
        heads: &Vec<usize>,
        lefts: &Vec<usize>,
        rights: &Vec<usize>,
        Ghost(w): Ghost<Seq<Seq<char>>>,
    ) -> (cell: Vec<bool>)
        requires
            2 <= len,
            i + len <= w.len(),
            w.len() <= usize::MAX,
            spans_ok(spans@, self.grammar(), string_views(self.non_terminals@), w, len - 1),
            resolved(self.rules@, self.non_terminals@, heads@, lefts@, rights@),
            string_views(self.non_terminals@).no_duplicates(),
        ensures
            cell_ok(cell@, self.grammar(), string_views(self.non_terminals@), w.subrange(i as int, i + len)),
    {
        let ghost g = self.grammar();
        let ghost nt = string_views(self.non_terminals@);
        let ghost span = w.subrange(i as int, i + len);
        let m = self.non_terminals.len();
        let mut cell: Vec<bool> = Vec::new();
        let mut a: usize = 0;
        while a < m
            invariant
                0 <= a <= m,
                cell@.len() == a,
                forall|x: int| 0 <= x < a ==> !cell@[x],
            decreases m - a,
        {
            cell.push(false);
            a = a + 1;
        }
        let mut k: usize = 1;
        while k < len
            invariant
                g == self.grammar(),
                nt == string_views(self.non_terminals@),
                nt.no_duplicates(),
                m == nt.len(),
                span == w.subrange(i as int, i + len),
                2 <= len,
                i + len <= w.len(),
                w.len() <= usize::MAX,
                spans_ok(spans@, g, nt, w, len - 1),
                resolved(self.rules@, self.non_terminals@, heads@, lefts@, rights@),
                1 <= k <= len,
                cell@.len() == m,
                forall|x: int|
                    0 <= x < m ==> cell@[x] == exists|k2: int, r2: int|
                        k2 < k && #[trigger] split_derives(g, nt[x], span, k2, r2),
            decreases len - k,
        {
            let ghost left = span.subrange(0, k as int);
            let ghost right = span.subrange(k as int, len as int);
            proof {
                assert(left =~= w.subrange(i as int, i + k));
                assert(right =~= w.subrange(i + k, i + k + (len - k)));
            }
            let mut r: usize = 0;
            while r < self.rules.len()
                invariant
                    g == self.grammar(),
                    nt == string_views(self.non_terminals@),
                    nt.no_duplicates(),
                    m == nt.len(),
                    span == w.subrange(i as int, i + len),
                    left == span.subrange(0, k as int),
                    right == span.subrange(k as int, len as int),
                    2 <= len,
                    i + len <= w.len(),
                    w.len() <= usize::MAX,
                    spans_ok(spans@, g, nt, w, len - 1),
                    left == w.subrange(i as int, i + k),
                    right == w.subrange(i + k, i + k + (len - k)),
                    resolved(self.rules@, self.non_terminals@, heads@, lefts@, rights@),
                    1 <= k < len,
                    0 <= r <= self.rules@.len(),
                    cell@.len() == m,
                    forall|x: int|
                        0 <= x < m ==> cell@[x] == exists|k2: int, r2: int|
                            (k2 < k || (k2 == k && r2 < r)) && #[trigger] split_derives(
                                g,
                                nt[x],
                                span,
                                k2,
                                r2,
                            ),
                decreases self.rules@.len() - r,
            {
                let ghost before = cell@;
                match &self.rules[r] {
                    CNFRule::Binary(_, _, _) => {
                        let l_cell = &spans[k - 1][i];
                        let r_cell = &spans[len - k - 1][i + k];
                        if l_cell[lefts[r]] && r_cell[rights[r]] {
                            cell.set(heads[r], true);
                        }
                    },
                    CNFRule::Terminal(_, _) => {},
                }
                proof {
                    assert(g[r as int] == rule_view(self.rules@[r as int]));
                    assert(cell_ok(spans@[k - 1]@[i as int]@, g, nt, left));
                    assert(cell_ok(spans@[len - k - 1]@[i + k]@, g, nt, right));
                    assert forall|x: int|
                        0 <= x < m implies cell@[x] == exists|k2: int, r2: int|
                            (k2 < k || (k2 == k && r2 < r + 1)) && #[trigger] split_derives(
                                g,
                                nt[x],
                                span,
                                k2,
                                r2,
                            ) by {
                        if split_derives(g, nt[x], span, k as int, r as int) {
                            assert(rule_head(g[r as int]) == nt[x]);
                            assert(nt[heads@[r as int] as int] == self.non_terminals@[heads@[r as int] as int]@);
                            assert(heads@[r as int] == x);
                        }
                        if before[x] {
                            let (k2, r2) = choose|k2: int, r2: int|
                                (k2 < k || (k2 == k && r2 < r)) && #[trigger] split_derives(
                                    g,
                                    nt[x],
                                    span,
                                    k2,
                                    r2,
                                );
                            assert((k2 < k || (k2 == k && r2 < r + 1)) && split_derives(
                                g,
                                nt[x],
                                span,
                                k2,
                                r2,
                            ));
                        }
                        if cell@[x] && !before[x] {
                            assert(heads@[r as int] == x);
                            assert(split_derives(g, nt[x], span, k as int, r as int));
                        }
                    }
                }
                r = r + 1;
            }
            proof {
                assert forall|x: int|
                    0 <= x < m implies cell@[x] == exists|k2: int, r2: int|
                        k2 < k + 1 && #[trigger] split_derives(g, nt[x], span, k2, r2) by {
                    if exists|k2: int, r2: int| k2 < k + 1 && #[trigger] split_derives(g, nt[x], span, k2, r2) {
                        let (k2, r2) = choose|k2: int, r2: int|
                            k2 < k + 1 && #[trigger] split_derives(g, nt[x], span, k2, r2);
                        assert((k2 < k || (k2 == k && r2 < self.rules@.len())) && split_derives(
                            g,
                            nt[x],
                            span,
                            k2,
                            r2,
                        ));
                    }
                }
            }
            k = k + 1;
        }
        proof {
            assert(span.len() == len);
            assert forall|x: int| 0 <= x < m implies cell@[x] == derives(g, nt[x], span) by {
                lemma_derives_by_split(g, nt[x], span);
                if derives(g, nt[x], span) {
                    let (k2, r2) = choose|k2: int, r2: int| #[trigger] split_derives(g, nt[x], span, k2, r2);
                    assert(k2 < len && split_derives(g, nt[x], span, k2, r2));
                }
            }
        }
        cell
    }
}

/// Each cell of a span of words: a flag for each non-terminal, set exactly
/// where that non-terminal derives the span.
pub open spec fn cell_ok(cell: Seq<bool>, g: Seq<GrammarRule>, nt: Seq<Seq<char>>, span: Seq<Seq<char>>) -> bool {
    &&& cell.len() == nt.len()
    &&& forall|a: int| 0 <= a < nt.len() ==> cell[a] == derives(g, nt[a], span)
}

/// The table holds, for each length up to `len` and each start, the cell of
/// that span of `w`.
pub open spec fn spans_ok(
    spans: Seq<Vec<Vec<bool>>>,
    g: Seq<GrammarRule>,
    nt: Seq<Seq<char>>,
    w: Seq<Seq<char>>,
    len: int,
) -> bool {
    &&& spans.len() == len
    &&& forall|l: int| 1 <= l <= len ==> (#[trigger] spans[l - 1])@.len() == w.len() - l + 1
    &&& forall|l: int, j: int|
        1 <= l <= len && 0 <= j <= w.len() - l ==> cell_ok(
            (#[trigger] spans[l - 1]@[j])@,
            g,
            nt,
            w.subrange(j, j + l),
        )
}

/// `heads` gives the position of the head of each rule among the
/// non-terminals.
spec fn resolved_heads(rules: Seq<CNFRule>, nt: Seq<String>, heads: Seq<usize>) -> bool {
    &&& heads.len() == rules.len()
    &&& forall|r: int|
        0 <= r < rules.len() ==> heads[r] < nt.len() && nt[heads[r] as int]@ == rule_head(
            rule_view(#[trigger] rules[r]),
        )
}

/// `heads`, `lefts` and `rights` give the positions among the non-terminals
/// of the symbols of each rule.
spec fn resolved(
    rules: Seq<CNFRule>,
    nt: Seq<String>,
    heads: Seq<usize>,
    lefts: Seq<usize>,
    rights: Seq<usize>,
) -> bool {
    &&& resolved_heads(rules, nt, heads)
    &&& lefts.len() == rules.len()
    &&& rights.len() == rules.len()
    &&& forall|r: int|
        0 <= r < rules.len() ==> match rule_view(#[trigger] rules[r]) {
            GrammarRule::Binary(_, b, c) => lefts[r] < nt.len() && rights[r] < nt.len() && nt[lefts[r] as int]@
                == b && nt[rights[r] as int]@ == c,
            GrammarRule::Terminal(_, _) => true,
        }
}

/// A sequence of two or more words is derived exactly by a binary rule and a
/// split.
proof fn lemma_derives_by_split(g: Seq<GrammarRule>, x: Seq<char>, w: Seq<Seq<char>>)
    requires
        w.len() >= 2,
    ensures
        derives(g, x, w) == exists|k: int, r: int| #[trigger] split_derives(g, x, w, k, r),
{
    if derives(g, x, w) {
        let (k, r) = choose|k: int, r: int|
            #![trigger g[r], w.subrange(0, k)]
            {
                &&& 0 <= r < g.len()
                &&& 1 <= k < w.len()
                &&& g[r] matches GrammarRule::Binary(h, b, c)
                &&& h == x
                &&& derives(g, b, w.subrange(0, k))
                &&& derives(g, c, w.subrange(k, w.len() as int))
            };
        assert(split_derives(g, x, w, k, r));
    }
    if exists|k: int, r: int| #[trigger] split_derives(g, x, w, k, r) {
        let (k, r) = choose|k: int, r: int| #[trigger] split_derives(g, x, w, k, r);
        assert(g[r] == g[r] && w.subrange(0, k) == w.subrange(0, k));
    }
}

/// Where no rule has `x` as its head, `x` derives nothing.
proof fn lemma_no_rule_no_derivation(p: &CYKParser, w: Seq<Seq<char>>)
    requires
        p.well_formed(),
        !string_views(p.non_terminals@).contains(p.start_symbol@),
    ensures
        !derives(p.grammar(), p.start(), w),
{
    let g = p.grammar();
    let x = p.start();
    if w.len() == 1 {
        if exists|r: int| 0 <= r < g.len() && #[trigger] g[r] == GrammarRule::Terminal(x, w[0]) {
            let r = choose|r: int| 0 <= r < g.len() && #[trigger] g[r] == GrammarRule::Terminal(x, w[0]);
            assert(g[r] == rule_view(p.rules@[r]));
        }
    } else if w.len() >= 2 {
        if exists|k: int, r: int| #[trigger] split_derives(g, x, w, k, r) {
            let (k, r) = choose|k: int, r: int| #[trigger] split_derives(g, x, w, k, r);
            assert(g[r] == rule_view(p.rules@[r]));
        }
    }
}

/// Adds a name to the list of non-terminals unless it is there.
fn add_symbol(nt: &mut Vec<String>, name: &String)
    requires
        string_views(old(nt)@).no_duplicates(),
    ensures
        string_views(final(nt)@).no_duplicates(),
        string_views(final(nt)@).contains(name@),
        forall|s: Seq<char>| string_views(old(nt)@).contains(s) ==> string_views(final(nt)@).contains(s),
{
    match find_symbol(nt, name) {
        Some(k) => {
            proof {
                assert(string_views(nt@)[k as int] == name@);
            }
        },
        None => {
            let ghost before = string_views(nt@);
            nt.push(name.clone());
            proof {
                assert(string_views(nt@) =~= before.push(name@));
                assert(string_views(nt@)[before.len() as int] == name@);
                assert forall|s: Seq<char>| before.contains(s) implies string_views(nt@).contains(s) by {
                    let k = choose|k: int| 0 <= k < before.len() && before[k] == s;
                    assert(string_views(nt@)[k] == s);
                }
            }
        },
    }
}

/// The position of a name among the non-terminals, if it is one.
fn find_symbol(nt: &Vec<String>, name: &String) -> (r: Option<usize>)
    ensures
        match r {
            Some(k) => k < nt@.len() && nt@[k as int]@ == name@,
            None => !string_views(nt@).contains(name@),
        },
{
    let mut k: usize = 0;
    while k < nt.len()
        invariant
            0 <= k <= nt@.len(),
            forall|j: int| 0 <= j < k ==> nt@[j]@ != name@,
        decreases nt@.len() - k,
    {
        if nt[k] == *name {
            return Some(k);
        }
        k = k + 1;
    }
    proof {
        if string_views(nt@).contains(name@) {
            let j = choose|j: int| 0 <= j < nt@.len() && string_views(nt@)[j] == name@;
            assert(nt@[j]@ == name@);
        }
    }
    None
}

/// The position of a name that is among the non-terminals.
fn index_of(nt: &Vec<String>, name: &String) -> (k: usize)
    requires
        string_views(nt@).contains(name@),
    ensures
        k < nt@.len(),
        nt@[k as int]@ == name@,
{
    match find_symbol(nt, name) {
        Some(k) => k,
        None => {
            proof {
                assert(false);
            }
            0
        },
    }
}

} // verus!
