use blocks::cs::sort::bubblesort::sort;

#[derive(Debug, Clone, Eq, PartialEq)]
struct Item {
    key: i32,
    original_index: usize,
}
impl PartialOrd for Item {
    fn partial_cmp(&self, other: &Self) -> Option<std::cmp::Ordering> {
        self.key.partial_cmp(&other.key)
    }
}
impl Ord for Item {
    fn cmp(&self, other: &Self) -> std::cmp::Ordering {
        self.key.cmp(&other.key)
    }
}

#[test]
fn bubblesort_test_empty_slice() {
    let mut arr: Vec<i32> = vec![];
    sort(&mut arr);
    assert_eq!(arr, Vec::<i32>::new());
}

#[test]
fn bubblesort_test_single_element() {
    let mut arr = vec![1];
    sort(&mut arr);
    assert_eq!(arr, vec![1]);
}

#[test]
fn bubblesort_test_sorted_array() {
    let mut arr = vec![1, 2, 3, 4, 5];
    sort(&mut arr);
    assert_eq!(arr, vec![1, 2, 3, 4, 5]);
}

#[test]
fn bubblesort_test_reverse_sorted() {
    let mut arr = vec![5, 4, 3, 2, 1];
    sort(&mut arr);
    assert_eq!(arr, vec![1, 2, 3, 4, 5]);
}

#[test]
fn bubblesort_test_random_order() {
    let mut arr = vec![3, 1, 4, 1, 5, 9, 2, 6, 5, 3, 5];
    let mut expected = arr.clone();
    expected.sort();
    sort(&mut arr);
    assert_eq!(arr, expected);
}

#[test]
fn bubblesort_test_duplicate_elements() {
    let mut arr = vec![3, 1, 4, 1, 5, 9, 2, 6, 5, 3, 5];
    let mut expected = arr.clone();
    expected.sort();
    sort(&mut arr);
    assert_eq!(arr, expected);
}

#[test]
fn bubblesort_test_large_array() {
    let mut arr: Vec<i32> = (0..1000).rev().collect();
    let mut expected = arr.clone();
    expected.sort();
    sort(&mut arr);
    assert_eq!(arr, expected);
}

#[test]
fn bubblesort_test_stability() {



    let mut items = vec![
        Item {
            key: 1,
            original_index: 0,
        },
        Item {
            key: 1,
            original_index: 1,
        },
        Item {
            key: 2,
            original_index: 2,
        },
        Item {
            key: 2,
            original_index: 3,
        },
    ];

    sort(&mut items);

    // Check if elements with equal keys maintain their relative order
    assert_eq!(items[0].original_index, 0);
    assert_eq!(items[1].original_index, 1);
    assert_eq!(items[2].original_index, 2);
    assert_eq!(items[3].original_index, 3);
}

#[test]
fn bubblesort_test_different_types() {
    // Test with floating point numbers
    let mut float_arr = vec![3.14, 1.41, 2.71, 0.58];
    let mut expected = float_arr.clone();
    expected.sort_by(|a, b| a.partial_cmp(b).unwrap());
    sort(&mut float_arr);
    assert_eq!(float_arr, expected);

    // Test with strings
    let mut string_arr = vec!["banana", "apple", "cherry", "date"];
    let mut expected = string_arr.clone();
    expected.sort();
    sort(&mut string_arr);
    assert_eq!(string_arr, expected);
}

#[test]
fn test_early_termination() {
    // Test that the algorithm terminates early when no swaps are needed
    let mut arr = vec![1, 2, 3, 4, 5];
    sort(&mut arr);
    assert_eq!(arr, vec![1, 2, 3, 4, 5]);
}
