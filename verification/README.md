# blocks

Classic algorithms with machine-checked contracts, written in Verus.

- `src/cs/search`: linear, jump, Fibonacci and ternary search, sub-list
  search (naive and Knuth-Morris-Pratt), and breadth-first and depth-first
  search over adjacency-list graphs.
- `src/cs/sort`: bubble, selection, shell, quick, heap, counting and radix
  sort.
- `src/cs/string`: Knuth-Morris-Pratt, Z-algorithm, Manacher, rolling hash,
  suffix array, suffix tree and suffix automaton.
- `src/nlp`: whitespace tokenization and the CYK recognizer for grammars in
  Chomsky normal form.
- `src/ml`: the error types and settings of the learning algorithms.
- `src/laws.rs`: properties that relate the results of several functions.
- `app/`: the floating-point code (bucket sort and the learning algorithms
  over `ndarray`), which uses the library's error types.

`tests/` runs the functions on concrete inputs.

Notes on behaviour:

- The suffix tree's `find_all` lists every occurrence, also in a text of
  `'a'`s followed by one `'b'`: 998 occurrences of `"aaa"` in 1000 `'a'`s
  and a `'b'`.
- The Z-algorithm search reports a match that a zero byte follows, as the
  Knuth-Morris-Pratt search does.
- `longest_palindrome` works on characters, so texts with multi-byte
  characters, `'^'` or `'$'` give a longest palindrome.
- The suffix array orders the suffixes lexicographically by code point for
  every text, one character long or holding `'\0'` included: `"abab"` gives
  `[2, 0, 3, 1]`, and the rank of each suffix is its place in that order.
- Radix sort takes every `u32`; ternary search answers `None` for a value
  below every element.
- The CYK recognizer rejects a sentence that its grammar cannot derive, so a
  grammar without a rule for its verb phrase, or a sentence with words that
  the grammar does not have, gives `false`; the tests do not expect more.
