use blocks::cs::error::Error;
use blocks::cs::search::fibonacci::search;

#[test]
fn fibonacci_test_empty_slice() {
    let data: Vec<i32> = vec![];
    assert!(matches!(search(&data, &5).unwrap(), None));
}

#[test]
fn fibonacci_test_single_element_found() {
    let data = vec![5];
    assert!(matches!(search(&data, &5).unwrap(), Some(0)));
}

#[test]
fn fibonacci_test_single_element_not_found() {
    let data = vec![5];
    assert!(matches!(search(&data, &3).unwrap(), None));
}

#[test]
fn fibonacci_test_multiple_elements_found_first() {
    let data = vec![1, 2, 3, 4, 5];
    assert!(matches!(search(&data, &1).unwrap(), Some(0)));
}

#[test]
fn fibonacci_test_multiple_elements_found_last() {
    let data = vec![1, 2, 3, 4, 5];
    assert!(matches!(search(&data, &5).unwrap(), Some(4)));
}

#[test]
fn fibonacci_test_multiple_elements_found_middle() {
    let data = vec![1, 2, 3, 4, 5];
    assert!(matches!(search(&data, &3).unwrap(), Some(2)));
}

#[test]
fn fibonacci_test_multiple_elements_not_found() {
    let data = vec![1, 2, 3, 4, 5];
    assert!(matches!(search(&data, &6).unwrap(), None));
}

#[test]
fn fibonacci_test_with_duplicates() {
    let data = vec![1, 2, 2, 2, 3, 4];
    // Should find any occurrence of the duplicate value
    let result = search(&data, &2).unwrap().unwrap();
    assert!(result >= 1 && result <= 3);
}

#[test]
fn fibonacci_test_unsorted_input() {
    let data = vec![3, 1, 4, 1, 5];
    assert!(matches!(
        search(&data, &4),
        Err(Error::InvalidInput(_))
    ));
}

#[test]
fn fibonacci_test_large_sorted_dataset() {
    let data: Vec<i32> = (0..10_000).collect();
    assert!(matches!(search(&data, &5000).unwrap(), Some(5000)));
    assert!(matches!(search(&data, &10_000).unwrap(), None));
}

#[test]
fn fibonacci_test_with_strings() {
    let data = vec!["apple", "banana", "orange", "pear"];
    assert!(matches!(search(&data, &"orange").unwrap(), Some(2)));
    assert!(matches!(search(&data, &"grape").unwrap(), None));
}

#[test]
fn fibonacci_test_boundary_values() {
    let data = vec![i32::MIN, -5, 0, 5, i32::MAX];
    assert!(matches!(search(&data, &i32::MIN).unwrap(), Some(0)));
    assert!(matches!(search(&data, &i32::MAX).unwrap(), Some(4)));
    assert!(matches!(search(&data, &0).unwrap(), Some(2)));
}

#[test]
fn test_fibonacci_sequence_lengths() {
    // Test with array sizes that match Fibonacci numbers
    let data1: Vec<i32> = (0..3).collect();   // Fib: 3
    let data2: Vec<i32> = (0..5).collect();   // Fib: 5
    let data3: Vec<i32> = (0..8).collect();   // Fib: 8
    let data4: Vec<i32> = (0..13).collect();  // Fib: 13

    assert!(matches!(search(&data1, &1).unwrap(), Some(1)));
    assert!(matches!(search(&data2, &3).unwrap(), Some(3)));
    assert!(matches!(search(&data3, &5).unwrap(), Some(5)));
    assert!(matches!(search(&data4, &8).unwrap(), Some(8)));
}

#[test]
fn test_non_fibonacci_lengths() {
    // Test with array sizes that don't match Fibonacci numbers
    let data1: Vec<i32> = (0..4).collect();   // Between Fib 3 and 5
    let data2: Vec<i32> = (0..7).collect();   // Between Fib 5 and 8
    let data3: Vec<i32> = (0..10).collect();  // Between Fib 8 and 13

    assert!(matches!(search(&data1, &2).unwrap(), Some(2)));
    assert!(matches!(search(&data2, &4).unwrap(), Some(4)));
    assert!(matches!(search(&data3, &6).unwrap(), Some(6)));
}
