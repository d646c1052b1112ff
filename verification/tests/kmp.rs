use blocks::cs::error::Error;
use blocks::cs::string::kmp::{compute_lps, find_all, find_first};

#[test]
fn kmp_test_empty_pattern() {
    let text = "hello";
    let pattern = "";
    assert!(matches!(find_all(text.as_bytes(), pattern.as_bytes()), Err(Error::EmptyPattern)));
}

#[test]
fn kmp_test_pattern_too_long() {
    let text = "hi";
    let pattern = "hello";
    assert!(matches!(
        find_all(text.as_bytes(), pattern.as_bytes()),
        Err(Error::PatternTooLong { .. })
    ));
}

#[test]
fn kmp_test_pattern_not_found() {
    let text = "hello world";
    let pattern = "xyz";
    assert_eq!(find_all(text.as_bytes(), pattern.as_bytes()).unwrap(), Vec::<usize>::new());
    assert_eq!(find_first(text.as_bytes(), pattern.as_bytes()).unwrap(), None);
}

#[test]
fn kmp_test_single_match() {
    let text = "hello world";
    let pattern = "world";
    assert_eq!(find_all(text.as_bytes(), pattern.as_bytes()).unwrap(), vec![6]);
    assert_eq!(find_first(text.as_bytes(), pattern.as_bytes()).unwrap(), Some(6));
}

#[test]
fn kmp_test_multiple_matches() {
    let text = "AABAACAADAABAAABAA";
    let pattern = "AABA";
    assert_eq!(find_all(text.as_bytes(), pattern.as_bytes()).unwrap(), vec![0, 9, 13]);
    assert_eq!(find_first(text.as_bytes(), pattern.as_bytes()).unwrap(), Some(0));
}

#[test]
fn kmp_test_overlapping_matches() {
    let text = "AAAAA";
    let pattern = "AA";
    assert_eq!(find_all(text.as_bytes(), pattern.as_bytes()).unwrap(), vec![0, 1, 2, 3]);
    assert_eq!(find_first(text.as_bytes(), pattern.as_bytes()).unwrap(), Some(0));
}

#[test]
fn kmp_test_match_at_start() {
    let text = "hello world";
    let pattern = "hello";
    assert_eq!(find_all(text.as_bytes(), pattern.as_bytes()).unwrap(), vec![0]);
    assert_eq!(find_first(text.as_bytes(), pattern.as_bytes()).unwrap(), Some(0));
}

#[test]
fn kmp_test_match_at_end() {
    let text = "hello world";
    let pattern = "world";
    assert_eq!(find_all(text.as_bytes(), pattern.as_bytes()).unwrap(), vec![6]);
    assert_eq!(find_first(text.as_bytes(), pattern.as_bytes()).unwrap(), Some(6));
}

#[test]
fn kmp_test_unicode_text() {
    let text = "Hello 世界!";
    let pattern = "世界";
    assert_eq!(
        find_all(text.as_bytes(), pattern.as_bytes()).unwrap(),
        vec![6]
    );
    assert_eq!(
        find_first(text.as_bytes(), pattern.as_bytes()).unwrap(),
        Some(6)
    );
}

#[test]
fn test_compute_lps() {
    let pattern = "AABAACAABAA";
    let lps = compute_lps(pattern.as_bytes());
    assert_eq!(lps, vec![0, 1, 0, 1, 2, 0, 1, 2, 3, 4, 5]);
}
