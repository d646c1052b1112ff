use blocks::cs::error::Error;
use blocks::cs::search::ternary::search;

#[test]
fn ternary_test_empty_slice() {
    let data: Vec<i32> = vec![];
    assert!(matches!(search(&data, &5).unwrap(), None));
}

#[test]
fn ternary_test_single_element_found() {
    let data = vec![5];
    assert!(matches!(search(&data, &5).unwrap(), Some(0)));
}

#[test]
fn ternary_test_single_element_not_found() {
    let data = vec![5];
    assert!(matches!(search(&data, &3).unwrap(), None));
}

#[test]
fn test_two_elements_found_first() {
    let data = vec![1, 2];
    assert!(matches!(search(&data, &1).unwrap(), Some(0)));
}

#[test]
fn test_two_elements_found_second() {
    let data = vec![1, 2];
    assert!(matches!(search(&data, &2).unwrap(), Some(1)));
}

#[test]
fn ternary_test_multiple_elements_found_first() {
    let data = vec![1, 2, 3, 4, 5, 6, 7, 8, 9];
    assert!(matches!(search(&data, &1).unwrap(), Some(0)));
}

#[test]
fn ternary_test_multiple_elements_found_last() {
    let data = vec![1, 2, 3, 4, 5, 6, 7, 8, 9];
    assert!(matches!(search(&data, &9).unwrap(), Some(8)));
}

#[test]
fn ternary_test_multiple_elements_found_middle() {
    let data = vec![1, 2, 3, 4, 5, 6, 7, 8, 9];
    assert!(matches!(search(&data, &5).unwrap(), Some(4)));
}

#[test]
fn ternary_test_multiple_elements_not_found() {
    let data = vec![1, 2, 3, 4, 5, 6, 7, 8, 9];
    assert!(matches!(search(&data, &10).unwrap(), None));
}

#[test]
fn ternary_test_with_duplicates() {
    let data = vec![1, 2, 2, 2, 3, 4];
    // Should find any occurrence of the duplicate value
    let result = search(&data, &2).unwrap().unwrap();
    assert!(result >= 1 && result <= 3);
}

#[test]
fn ternary_test_unsorted_input() {
    let data = vec![3, 1, 4, 1, 5];
    assert!(matches!(search(&data, &4), Err(Error::InvalidInput(_))));
}

#[test]
fn ternary_test_large_sorted_dataset() {
    let data: Vec<i32> = (0..10_000).collect();
    assert!(matches!(search(&data, &5000).unwrap(), Some(5000)));
    assert!(matches!(search(&data, &10_000).unwrap(), None));
}

#[test]
fn ternary_test_with_strings() {
    let data = vec!["apple", "banana", "orange", "pear"];
    assert!(matches!(search(&data, &"orange").unwrap(), Some(2)));
    assert!(matches!(search(&data, &"grape").unwrap(), None));
}

#[test]
fn ternary_test_boundary_values() {
    let data = vec![i32::MIN, -5, 0, 5, i32::MAX];
    assert!(matches!(search(&data, &i32::MIN).unwrap(), Some(0)));
    assert!(matches!(search(&data, &i32::MAX).unwrap(), Some(4)));
    assert!(matches!(search(&data, &0).unwrap(), Some(2)));
}
