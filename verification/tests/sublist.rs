use blocks::cs::error::Error;
use blocks::cs::search::sublist::{search, search_kmp};

#[test]
fn test_empty_data() {
    let data: Vec<i32> = vec![];
    let pattern = vec![1, 2];
    assert!(matches!(search(&data, &pattern).unwrap(), None));
    assert!(matches!(search_kmp(&data, &pattern).unwrap(), None));
}

#[test]
fn sublist_test_empty_pattern() {
    let data = vec![1, 2, 3];
    let pattern: Vec<i32> = vec![];
    assert!(matches!(
        search(&data, &pattern),
        Err(Error::InvalidInput(_))
    ));
    assert!(matches!(
        search_kmp(&data, &pattern),
        Err(Error::InvalidInput(_))
    ));
}

#[test]
fn test_pattern_longer_than_data() {
    let data = vec![1, 2];
    let pattern = vec![1, 2, 3];
    assert!(matches!(search(&data, &pattern).unwrap(), None));
    assert!(matches!(search_kmp(&data, &pattern).unwrap(), None));
}

#[test]
fn test_simple_match() {
    let data = vec![1, 2, 3, 4, 5];
    let pattern = vec![2, 3];
    assert!(matches!(search(&data, &pattern).unwrap(), Some(1)));
    assert!(matches!(search_kmp(&data, &pattern).unwrap(), Some(1)));
}

#[test]
fn sublist_test_match_at_start() {
    let data = vec![1, 2, 3, 4, 5];
    let pattern = vec![1, 2];
    assert!(matches!(search(&data, &pattern).unwrap(), Some(0)));
    assert!(matches!(search_kmp(&data, &pattern).unwrap(), Some(0)));
}

#[test]
fn sublist_test_match_at_end() {
    let data = vec![1, 2, 3, 4, 5];
    let pattern = vec![4, 5];
    assert!(matches!(search(&data, &pattern).unwrap(), Some(3)));
    assert!(matches!(search_kmp(&data, &pattern).unwrap(), Some(3)));
}

#[test]
fn test_no_match() {
    let data = vec![1, 2, 3, 4, 5];
    let pattern = vec![2, 4];
    assert!(matches!(search(&data, &pattern).unwrap(), None));
    assert!(matches!(search_kmp(&data, &pattern).unwrap(), None));
}

#[test]
fn test_with_repeating_elements() {
    let data = vec![1, 2, 1, 2, 1, 2, 3];
    let pattern = vec![1, 2, 3];
    assert!(matches!(search(&data, &pattern).unwrap(), Some(4)));
    assert!(matches!(search_kmp(&data, &pattern).unwrap(), Some(4)));
}

#[test]
fn sublist_test_with_strings() {
    let data = vec!["apple", "banana", "cherry", "date"];
    let pattern = vec!["banana", "cherry"];
    assert!(matches!(search(&data, &pattern).unwrap(), Some(1)));
    assert!(matches!(search_kmp(&data, &pattern).unwrap(), Some(1)));
}

#[test]
fn test_overlapping_pattern() {
    let data = vec![1, 1, 1, 1];
    let pattern = vec![1, 1];
    assert!(matches!(search(&data, &pattern).unwrap(), Some(0)));
    assert!(matches!(search_kmp(&data, &pattern).unwrap(), Some(0)));
}

#[test]
fn test_single_element_pattern() {
    let data = vec![1, 2, 3, 4, 5];
    let pattern = vec![3];
    assert!(matches!(search(&data, &pattern).unwrap(), Some(2)));
    assert!(matches!(search_kmp(&data, &pattern).unwrap(), Some(2)));
}

#[test]
fn test_pattern_equals_data() {
    let data = vec![1, 2, 3];
    let pattern = vec![1, 2, 3];
    assert!(matches!(search(&data, &pattern).unwrap(), Some(0)));
    assert!(matches!(search_kmp(&data, &pattern).unwrap(), Some(0)));
}

#[test]
fn test_complex_pattern() {
    let data = vec![1, 2, 3, 1, 2, 4, 1, 2, 3, 1, 2, 3];
    let pattern = vec![1, 2, 3];
    assert!(matches!(search(&data, &pattern).unwrap(), Some(0)));
    assert!(matches!(search_kmp(&data, &pattern).unwrap(), Some(0)));
}
