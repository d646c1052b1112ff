use blocks::cs::string::manacher::longest_palindrome;
use blocks::cs::search::bfs::Graph as BfsGraph;
use blocks::cs::search::dfs::Graph as DfsGraph;
use blocks::cs::search::sublist;
use blocks::cs::sort::{
    bubblesort, countingsort, heapsort, quicksort, radixsort, selectionsort, shellsort,
};
use blocks::cs::string::rolling_hash::RollingHash;
use blocks::cs::string::suffix_array::SuffixArray;
use blocks::cs::string::suffix_automaton::SuffixAutomaton;
use blocks::cs::string::suffix_tree::SuffixTree;
use blocks::cs::string::{kmp, z_algorithm};
use blocks::nlp::cyk::CYKParser;
use blocks::nlp::utils::{detokenize, tokenize};

#[test]
fn kmp_first_is_head_of_all() {
    let text = b"abracadabra";
    for pattern in [&b"abra"[..], b"a", b"cad", b"zz", b"abracadabra"] {
        let all = kmp::find_all(text, pattern).unwrap();
        let first = kmp::find_first(text, pattern).unwrap();
        assert_eq!(first, all.first().copied());
    }
    assert_eq!(kmp::find_all(text, b"abra").unwrap(), vec![0, 7]);
}

#[test]
fn z_first_is_head_of_all() {
    let text = b"mississippi";
    for pattern in [&b"ss"[..], b"i", b"ppi", b"q"] {
        let all = z_algorithm::find_all(text, pattern).unwrap();
        let first = z_algorithm::find_first(text, pattern).unwrap();
        assert_eq!(first, all.first().copied());
    }
    assert_eq!(z_algorithm::find_all(text, b"ss").unwrap(), vec![2, 5]);
}

#[test]
fn z_agrees_with_kmp() {
    let text = b"abababcab\0ab";
    for pattern in [&b"ab"[..], b"aba", b"c", b"abab", b"b\0a"] {
        assert_eq!(
            z_algorithm::find_all(text, pattern).unwrap(),
            kmp::find_all(text, pattern).unwrap()
        );
    }
}

#[test]
fn z_finds_occurrence_followed_by_zero_byte() {
    let text = [b'a', b'b', 0u8, b'a', b'b'];
    assert_eq!(kmp::find_all(&text, b"ab").unwrap(), vec![0, 3]);
    assert_eq!(z_algorithm::find_all(&text, b"ab").unwrap(), vec![0, 3]);
    assert_eq!(z_algorithm::find_all(&[b'a', 0u8, b'a'], b"a").unwrap(), vec![0, 2]);
    assert_eq!(z_algorithm::find_first(&text, b"ab").unwrap(), Some(0));
}

#[test]
fn suffix_array_first_is_head_of_all() {
    let sa = SuffixArray::new("abracadabra");
    for pattern in ["abra", "a", "cad", "zz"] {
        let all = sa.find_all(pattern).unwrap();
        let first = sa.find_first(pattern).unwrap();
        assert_eq!(first, all.first().copied());
    }
    assert_eq!(sa.find_all("a").unwrap(), vec![0, 3, 5, 7, 10]);
}

#[test]
fn sublist_searches_agree_on_examples() {
    let data = vec![1, 2, 1, 2, 1, 3, 1, 2, 1, 3];
    for pattern in [vec![1, 2, 1, 3], vec![2, 1], vec![3], vec![4], vec![1, 3, 1, 2, 1, 3]] {
        assert_eq!(
            sublist::search(&data, &pattern).unwrap(),
            sublist::search_kmp(&data, &pattern).unwrap()
        );
    }
    assert_eq!(sublist::search(&data, &[1, 2, 1, 3]).unwrap(), Some(2));
}

#[test]
fn all_sorts_agree() {
    let input: Vec<i32> = vec![5, -3, 9, 0, 0, 12, -7, 5, 3, 3, 1, -1, 8, 20, -20];
    let mut expected = input.clone();
    expected.sort();

    let mut a = input.clone();
    bubblesort::sort(&mut a);
    let mut b = input.clone();
    selectionsort::sort(&mut b);
    let mut c = input.clone();
    shellsort::sort(&mut c);
    let mut d = input.clone();
    quicksort::sort(&mut d);
    let mut e = input.clone();
    heapsort::sort(&mut e).unwrap();
    for v in [&a, &b, &c, &d, &e] {
        assert_eq!(*v, expected);
    }

    let unsigned: Vec<u32> = vec![170, 45, 75, 90, 802, 24, 2, 66, 45];
    let mut f = unsigned.clone();
    countingsort::sort(&mut f);
    let mut g = unsigned.clone();
    radixsort::sort(&mut g);
    assert_eq!(f, g);
    assert_eq!(f, vec![2, 24, 45, 45, 66, 75, 90, 170, 802]);
}

#[test]
fn quicksort_large_input_uses_partitions() {
    let mut v: Vec<i32> = (0..200).map(|i| (i * 37) % 101 - 50).collect();
    let mut expected = v.clone();
    expected.sort();
    quicksort::sort(&mut v);
    assert_eq!(v, expected);
}

#[test]
fn countingsort_large_values() {
    let mut v: Vec<u32> = vec![4_000_000_000, 7, 3_000_000_000, 7, 0];
    countingsort::sort(&mut v);
    assert_eq!(v, vec![0, 7, 7, 3_000_000_000, 4_000_000_000]);
}

#[test]
fn graph_searches_agree_on_examples() {
    let edges = [(1, 2), (2, 3), (3, 4), (1, 5), (5, 4), (6, 7)];
    let mut bg = BfsGraph::new();
    let mut dg = DfsGraph::new();
    for &(s, d) in &edges {
        bg.add_edge(s, d);
        dg.add_edge(s, d);
    }
    let order = bg.traverse(&1).unwrap();
    for target in 1..=7 {
        let b = bg.search(&1, &target).unwrap();
        let d = dg.search(&1, &target).unwrap();
        let di = dg.search_iterative(&1, &target).unwrap();
        assert_eq!(b.is_some(), d.is_some());
        assert_eq!(b.is_some(), di.is_some());
        assert_eq!(b.is_some(), order.contains(&target));
        if let (Some(p), Some(q)) = (&b, &d) {
            assert!(p.len() <= q.len());
        }
    }
    assert_eq!(bg.search(&1, &4).unwrap(), Some(vec![1, 5, 4]));
    assert_eq!(order.len(), 5);
}

#[test]
fn added_edge_is_found() {
    let mut g = BfsGraph::new();
    g.add_vertex(10);
    g.add_edge(10, 20);
    assert_eq!(g.search(&10, &20).unwrap(), Some(vec![10, 20]));
    assert_eq!(g.search(&20, &10).unwrap(), None);
    let mut h = DfsGraph::new();
    h.add_edge("x", "y");
    assert_eq!(h.search(&"x", &"y").unwrap(), Some(vec!["x", "y"]));
    assert_eq!(h.search_iterative(&"y", &"x").unwrap(), None);
}

#[test]
fn traverse_from_missing_vertex_is_an_error() {
    let g: BfsGraph<u8> = BfsGraph::default();
    let e = g.traverse(&3).unwrap_err();
    assert_eq!(e.to_string(), "Invalid input: Start vertex not found in graph");
}

#[test]
fn rolling_hash_depends_only_on_window() {
    let mut a: RollingHash<31, 1_000_003> = RollingHash::new();
    let mut b: RollingHash<31, 1_000_003> = RollingHash::new();
    for &byte in b"xyzabc" {
        a.push(byte);
    }
    for _ in 0..3 {
        a.pop();
    }
    for &byte in b"abc" {
        b.push(byte);
    }
    assert_eq!(a.window_size(), 3);
    assert_eq!(a.current_hash(), b.current_hash());
    assert_eq!(b.current_hash(), (97 * 31 * 31 + 98 * 31 + 99) % 1_000_003);
}

#[test]
fn tokenize_splits_at_all_whitespace() {
    let tokens = tokenize("  one\ttwo\n\nthree \u{A0}four ");
    assert_eq!(tokens, vec!["one", "two", "three", "four"]);
    assert_eq!(detokenize(&tokens), "one two three four");
    assert_eq!(tokenize(&detokenize(&tokens)), tokens);
    assert!(tokenize(" \t ").is_empty());
    assert_eq!(detokenize(&[]), "");
}

#[test]
fn suffix_tree_lists_every_occurrence() {
    let mut st = SuffixTree::new("aaab");
    st.build();
    assert_eq!(st.find_all("aa"), vec![0, 1]);
    assert_eq!(st.find_all("a"), vec![0, 1, 2]);
    let mut short = SuffixTree::new("aab");
    short.build();
    assert_eq!(short.find_all("aa"), vec![0]);
    let text = "a".repeat(1000) + "b";
    let mut long = SuffixTree::new(&text);
    long.build();
    assert_eq!(long.find_all("aaa").len(), 998);
    assert_eq!(long.find_all("b"), vec![1000]);
    assert_eq!(long.find_all("c"), Vec::<usize>::new());
}

#[test]
fn suffix_automaton_positions_are_sorted_and_distinct() {
    let sa = SuffixAutomaton::new("abcabcabc");
    assert_eq!(sa.find_all("abc"), vec![0, 3, 6]);
    assert_eq!(sa.find_all("c"), vec![2, 5, 8]);
    assert!(sa.contains("cab"));
    assert!(!sa.contains("cb"));
}

#[test]
fn cyk_accepts_exactly_the_language() {
    let parser = CYKParser::new(vec![
        ("S", vec!["A B"]),
        ("A", vec!["a", "A A"]),
        ("B", vec!["b"]),
    ])
    .unwrap();
    assert!(parser.parse("a b").unwrap());
    assert!(parser.parse("a a a b").unwrap());
    assert!(!parser.parse("b").unwrap());
    assert!(!parser.parse("a b b").unwrap());
    assert!(!parser.parse("a").unwrap());
}

#[test]
fn longest_palindrome_examples() {
    assert_eq!(longest_palindrome("abacdfgdcaba").unwrap(), "aba");
    assert_eq!(longest_palindrome("xabbay").unwrap(), "abba");
    assert_eq!(longest_palindrome("a#b#a").unwrap(), "a#b#a");
    assert_eq!(longest_palindrome("zz").unwrap(), "zz");
}

#[test]
fn radix_sort_takes_every_u32() {
    let mut v = vec![1_000_000_000u32, 1];
    radixsort::sort(&mut v);
    assert_eq!(v, vec![1, 1_000_000_000]);
    let mut w = vec![u32::MAX, 0, 4_000_000_000, 7];
    radixsort::sort(&mut w);
    assert_eq!(w, vec![0, 7, 4_000_000_000, u32::MAX]);
}

#[test]
fn ternary_search_below_every_element() {
    assert_eq!(blocks::cs::search::ternary::search(&[1, 2, 3], &0).unwrap(), None);
    assert_eq!(blocks::cs::search::ternary::search(&[1, 2, 3, 4, 5, 6, 7], &0).unwrap(), None);
}

#[test]
fn depth_first_paths_repeat_no_vertex() {
    let mut g = DfsGraph::new();
    for v in [1u64, 2, 3, 4] {
        g.add_vertex(v);
    }
    g.add_edge(1, 2);
    g.add_edge(2, 3);
    g.add_edge(3, 1);
    g.add_edge(2, 4);
    assert_eq!(g.search(&1, &4).unwrap(), Some(vec![1, 2, 4]));
    assert_eq!(g.search_iterative(&1, &4).unwrap(), Some(vec![1, 2, 4]));
}

#[test]
fn palindrome_of_multibyte_and_marker_characters() {
    assert_eq!(longest_palindrome("éé").unwrap(), "éé");
    assert_eq!(longest_palindrome("aéa").unwrap(), "aéa");
    assert_eq!(longest_palindrome("a^").unwrap(), "a");
    assert_eq!(longest_palindrome("$$").unwrap(), "$$");
}

#[test]
fn tokenize_splits_at_unicode_whitespace() {
    assert_eq!(tokenize("a\u{3000}b\u{a0}c"), vec!["a", "b", "c"]);
}

#[test]
fn suffix_array_orders_every_text() {
    let sa = SuffixArray::new("abab");
    assert_eq!(sa.get_array(), &[2, 0, 3, 1]);
    assert_eq!(sa.get_rank(), &[1, 3, 0, 2]);
    assert_eq!(sa.get_lcp(), &[0, 2, 0, 1]);
    let sa = SuffixArray::new("aaa");
    assert_eq!(sa.get_array(), &[2, 1, 0]);
    assert_eq!(sa.get_rank(), &[2, 1, 0]);
    assert_eq!(sa.get_lcp(), &[0, 1, 2]);
    let single = SuffixArray::new("x");
    assert_eq!(single.get_array(), &[0]);
    assert_eq!(single.get_rank(), &[0]);
    assert_eq!(single.get_lcp(), &[0]);
    let with_nul = SuffixArray::new("a\0a");
    assert_eq!(with_nul.get_array(), &[1, 2, 0]);
}

#[test]
fn tokenize_whitespace_is_unicode_white_space() {
    for code in 0u32..0x11_0000 {
        if let Some(c) = char::from_u32(code) {
            let text = format!("a{}b", c);
            let expected: Vec<String> = text.split_whitespace().map(|w| w.to_string()).collect();
            assert_eq!(tokenize(&text), expected, "code point {:#x}", code);
        }
    }
}

#[test]
fn suffix_tree_node_counts() {
    let mut st = SuffixTree::new("abcabx");
    st.build();
    assert_eq!(st.node_count(), 9);
    let mut st = SuffixTree::new("aab");
    st.build();
    assert_eq!(st.node_count(), 5);
    let mut st = SuffixTree::new("xabxa#babxba$");
    st.build();
    assert!(st.node_count() >= 14 && st.node_count() <= 26);
}

#[test]
fn suffix_automaton_finds_substrings() {
    let sa = SuffixAutomaton::new("banana");
    assert!(sa.contains("nan"));
    assert!(sa.contains(""));
    assert!(!sa.contains("nab"));
    assert_eq!(sa.find_all("a"), vec![1, 3, 5]);
    let sa = SuffixAutomaton::new("aaaaa");
    assert_eq!(sa.find_all("aa"), vec![0, 1, 2, 3]);
    let sa = SuffixAutomaton::new("bAnAnA");
    assert!(!sa.contains("ana"));
}
