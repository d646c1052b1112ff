use blocks::cs::error::Error;
use blocks::cs::string::z_algorithm::{compute_z_array, find_all, find_first};

#[test]
fn z_algorithm_test_empty_pattern() {
    let text = "hello";
    let pattern = "";
    assert!(matches!(
        find_all(text.as_bytes(), pattern.as_bytes()),
        Err(Error::EmptyPattern)
    ));
}

#[test]
fn z_algorithm_test_pattern_too_long() {
    let text = "hi";
    let pattern = "hello";
    assert!(matches!(
        find_all(text.as_bytes(), pattern.as_bytes()),
        Err(Error::PatternTooLong { .. })
    ));
}

#[test]
fn z_algorithm_test_pattern_not_found() {
    let text = "hello world";
    let pattern = "xyz";
    assert_eq!(find_all(text.as_bytes(), pattern.as_bytes()).unwrap(), Vec::<usize>::new());
    assert_eq!(find_first(text.as_bytes(), pattern.as_bytes()).unwrap(), None);
}

#[test]
fn z_algorithm_test_single_match() {
    let text = "hello world";
    let pattern = "world";
    assert_eq!(find_all(text.as_bytes(), pattern.as_bytes()).unwrap(), vec![6]);
    assert_eq!(find_first(text.as_bytes(), pattern.as_bytes()).unwrap(), Some(6));
}

#[test]
fn z_algorithm_test_multiple_matches() {
    let text = "AABAACAADAABAAABAA";
    let pattern = "AABA";
    assert_eq!(find_all(text.as_bytes(), pattern.as_bytes()).unwrap(), vec![0, 9, 13]);
    assert_eq!(find_first(text.as_bytes(), pattern.as_bytes()).unwrap(), Some(0));
}

#[test]
fn z_algorithm_test_overlapping_matches() {
    let text = "AAAAA";
    let pattern = "AA";
    assert_eq!(find_all(text.as_bytes(), pattern.as_bytes()).unwrap(), vec![0, 1, 2, 3]);
    assert_eq!(find_first(text.as_bytes(), pattern.as_bytes()).unwrap(), Some(0));
}

#[test]
fn z_algorithm_test_match_at_start() {
    let text = "hello world";
    let pattern = "hello";
    assert_eq!(find_all(text.as_bytes(), pattern.as_bytes()).unwrap(), vec![0]);
    assert_eq!(find_first(text.as_bytes(), pattern.as_bytes()).unwrap(), Some(0));
}

#[test]
fn z_algorithm_test_match_at_end() {
    let text = "hello world";
    let pattern = "world";
    assert_eq!(find_all(text.as_bytes(), pattern.as_bytes()).unwrap(), vec![6]);
    assert_eq!(find_first(text.as_bytes(), pattern.as_bytes()).unwrap(), Some(6));
}

#[test]
fn z_algorithm_test_unicode_text() {
    let text = "Hello 世界!";
    let pattern = "世界";
    assert_eq!(find_all(text.as_bytes(), pattern.as_bytes()).unwrap(), vec![6]);
    assert_eq!(find_first(text.as_bytes(), pattern.as_bytes()).unwrap(), Some(6));
}

#[test]
fn test_empty_text() {
    let text = "";
    let pattern = "a";
    assert!(matches!(
        find_all(text.as_bytes(), pattern.as_bytes()),
        Err(Error::PatternTooLong { .. })
    ));
}

#[test]
fn test_z_array() {
    let pattern = "aabaacd";
    let z = compute_z_array(pattern.as_bytes());
    assert_eq!(z, vec![7, 1, 0, 2, 1, 0, 0]);

    let pattern = "aaaaa";
    let z = compute_z_array(pattern.as_bytes());
    assert_eq!(z, vec![5, 4, 3, 2, 1]);
}

#[test]
fn test_z_box_optimization() {
    // This test verifies that the Z-box optimization correctly reuses
    // previously computed values
    let text = "abababab";
    let pattern = "abab";
    assert_eq!(find_all(text.as_bytes(), pattern.as_bytes()).unwrap(), vec![0, 2, 4]);
}
