use blocks::cs::string::suffix_tree::SuffixTree;

#[test]
fn test_suffix_tree_build() {
    let mut st = SuffixTree::new("xabxa#babxba$");
    st.build();
    assert!(st.node_count() > 1);
}

#[test]
fn test_pattern_search() {
    let mut st = SuffixTree::new("banana");
    st.build();

    assert_eq!(st.find_all("ana"), vec![1, 3]);
    assert_eq!(st.find_all("na"), vec![2, 4]);
    assert_eq!(st.find_all("ban"), vec![0]);
    assert_eq!(st.find_all("xyz"), vec![]);
}

#[test]
fn suffix_tree_test_empty_pattern() {
    let mut st = SuffixTree::new("banana");
    st.build();
    assert_eq!(st.find_all(""), vec![]);
}

#[test]
fn test_unicode() {
    let mut st = SuffixTree::new("こんにちは世界");
    st.build();

    assert_eq!(st.find_all("にち"), vec![2]);
    assert_eq!(st.find_all("世界"), vec![5]);
    assert_eq!(st.find_all("世に"), vec![]);
}

#[test]
fn suffix_tree_test_overlapping_patterns() {
    let mut st = SuffixTree::new("aaaaa");
    st.build();

    assert_eq!(st.find_all("aa"), vec![0, 1, 2, 3]);
    assert_eq!(st.find_all("aaa"), vec![0, 1, 2]);
}

