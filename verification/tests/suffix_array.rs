use blocks::cs::string::suffix_array::{find_all, find_first, SuffixArray};

#[test]
fn test_basic_suffix_array() {
    let text = "banana";
    let sa = SuffixArray::new(text);
    let array = sa.get_array();

    // Expected suffix array for "banana":
    // Suffixes sorted lexicographically:
    // 5: a
    // 3: ana
    // 1: anana
    // 0: banana
    // 4: na
    // 2: nana
    assert_eq!(array, &[5, 3, 1, 0, 4, 2]);
}

#[test]
fn test_lcp_array() {
    let text = "banana";
    let sa = SuffixArray::new(text);
    let lcp = sa.get_lcp();

    // Expected LCP values for adjacent suffixes in suffix array:
    // [5, 3, 1, 0, 4, 2] -> suffixes
    // [a, ana, anana, banana, na, nana]
    // LCP values: [0, 1, 3, 0, 0, 2]
    assert_eq!(lcp, &[0, 1, 3, 0, 0, 2]);
}

#[test]
fn suffix_array_test_find_all() {
    let text = "banana";
    let sa = SuffixArray::new(text);

    assert_eq!(sa.find_all("ana").unwrap(), vec![1, 3]);
    assert_eq!(sa.find_all("na").unwrap(), vec![2, 4]);
    assert_eq!(sa.find_all("a").unwrap(), vec![1, 3, 5]);
    assert_eq!(sa.find_all("ban").unwrap(), vec![0]);
    assert_eq!(sa.find_all("xyz").unwrap(), vec![]);
}

#[test]
fn test_find_first() {
    let text = "banana";
    let sa = SuffixArray::new(text);

    assert_eq!(sa.find_first("ana").unwrap(), Some(1));
    assert_eq!(sa.find_first("na").unwrap(), Some(2));
    assert_eq!(sa.find_first("a").unwrap(), Some(1));
    assert_eq!(sa.find_first("ban").unwrap(), Some(0));
    assert_eq!(sa.find_first("xyz").unwrap(), None);
}

#[test]
fn suffix_array_test_empty_pattern() {
    let text = "banana";
    let sa = SuffixArray::new(text);

    assert!(sa.find_all("").is_err());
    assert!(sa.find_first("").is_err());
}

#[test]
fn test_pattern_longer_than_text() {
    let text = "abc";
    let sa = SuffixArray::new(text);

    assert_eq!(sa.find_all("abcd").unwrap(), vec![]);
    assert_eq!(sa.find_first("abcd").unwrap(), None);
}

#[test]
fn suffix_array_test_unicode_text() {
    let text = "こんにちは世界";
    let sa = SuffixArray::new(text);

    assert_eq!(sa.find_all("にち").unwrap(), vec![2]);
    assert_eq!(sa.find_all("世界").unwrap(), vec![5]);
    assert_eq!(sa.find_all("ちは").unwrap(), vec![3]);
}

#[test]
fn suffix_array_test_overlapping_patterns() {
    let text = "aaaaa";
    let sa = SuffixArray::new(text);

    // Should find all overlapping occurrences
    assert_eq!(sa.find_all("aa").unwrap(), vec![0, 1, 2, 3]);
    assert_eq!(sa.find_all("aaa").unwrap(), vec![0, 1, 2]);
}

#[test]
fn suffix_array_test_long_text() {
    let text = "a".repeat(10000) + "b";
    let sa = SuffixArray::new(&text);

    // Should handle long texts efficiently
    assert_eq!(sa.find_first("b").unwrap(), Some(10000));
    assert_eq!(sa.find_all("aa").unwrap().len(), 9999);
}

#[test]
fn test_module_level_functions() {
    let text = "banana";

    assert_eq!(find_all(text, "ana").unwrap(), vec![1, 3]);
    assert_eq!(find_first(text, "ana").unwrap(), Some(1));

    assert!(find_all(text, "").is_err());
    assert!(find_first(text, "").is_err());
}

#[test]
fn test_repeated_patterns() {
    let text = "abababab";
    let sa = SuffixArray::new(text);

    assert_eq!(sa.find_all("ab").unwrap(), vec![0, 2, 4, 6]);
    assert_eq!(sa.find_all("aba").unwrap(), vec![0, 2, 4]);
    assert_eq!(sa.find_all("abab").unwrap(), vec![0, 2, 4]);
}

#[test]
fn suffix_array_test_case_sensitivity() {
    let text = "bAnAnA";
    let sa = SuffixArray::new(text);

    assert_eq!(sa.find_all("ana").unwrap(), vec![]);
    assert_eq!(sa.find_all("AnA").unwrap(), vec![1, 3]);
}
