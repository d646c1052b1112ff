use blocks::cs::sort::selectionsort::sort;

struct SwapCounter<'a, T> {
    slice: &'a mut [T],
    swap_count: &'a mut usize,
}
impl<'a, T> SwapCounter<'a, T> {
    fn swap(&mut self, i: usize, j: usize) {
        self.slice.swap(i, j);
        *self.swap_count += 1;
    }
}

#[test]
fn selectionsort_test_empty_slice() {
    let mut arr: Vec<i32> = vec![];
    sort(&mut arr);
    assert_eq!(arr, vec![]);
}

#[test]
fn selectionsort_test_single_element() {
    let mut arr = vec![1];
    sort(&mut arr);
    assert_eq!(arr, vec![1]);
}

#[test]
fn selectionsort_test_sorted_array() {
    let mut arr = vec![1, 2, 3, 4, 5];
    sort(&mut arr);
    assert_eq!(arr, vec![1, 2, 3, 4, 5]);
}

#[test]
fn selectionsort_test_reverse_sorted() {
    let mut arr = vec![5, 4, 3, 2, 1];
    sort(&mut arr);
    assert_eq!(arr, vec![1, 2, 3, 4, 5]);
}

#[test]
fn selectionsort_test_random_order() {
    let mut arr = vec![3, 1, 4, 1, 5, 9, 2, 6, 5, 3, 5];
    let mut expected = arr.clone();
    expected.sort();
    sort(&mut arr);
    assert_eq!(arr, expected);
}

#[test]
fn selectionsort_test_duplicate_elements() {
    let mut arr = vec![3, 1, 4, 1, 5, 9, 2, 6, 5, 3, 5];
    let mut expected = arr.clone();
    expected.sort();
    sort(&mut arr);
    assert_eq!(arr, expected);
}

#[test]
fn selectionsort_test_large_array() {
    let mut arr: Vec<i32> = (0..1000).rev().collect();
    let mut expected = arr.clone();
    expected.sort();
    sort(&mut arr);
    assert_eq!(arr, expected);
}

#[test]
fn selectionsort_test_different_types() {
    // Test with floating point numbers
    let mut float_arr = vec![3.14, 1.41, 2.71, 0.58];
    let mut expected = float_arr.clone();
    expected.sort_by(|a, b| a.partial_cmp(b).unwrap());
    sort(&mut float_arr);
    assert_eq!(float_arr, expected);

    // Test with strings
    let mut string_arr = vec!["banana", "apple", "cherry", "date"];
    let mut expected = string_arr.clone();
    expected.sort();
    sort(&mut string_arr);
    assert_eq!(string_arr, expected);
}

#[test]
fn selectionsort_test_all_equal() {
    // Test with an array where all elements are equal
    let mut arr = vec![1, 1, 1, 1, 1];
    sort(&mut arr);
    assert_eq!(arr, vec![1, 1, 1, 1, 1]);
}

#[test]
fn selectionsort_test_alternating() {
    // Test with an array that alternates between two values
    let mut arr = vec![1, 2, 1, 2, 1, 2];
    sort(&mut arr);
    assert_eq!(arr, vec![1, 1, 1, 2, 2, 2]);
}

#[test]
fn selectionsort_test_negative_numbers() {
    // Test with negative numbers
    let mut arr = vec![-5, -2, -8, -1, -9];
    sort(&mut arr);
    assert_eq!(arr, vec![-9, -8, -5, -2, -1]);
}

#[test]
fn selectionsort_test_mixed_numbers() {
    // Test with a mix of positive and negative numbers
    let mut arr = vec![-3, 4, 0, -1, 5, -2];
    sort(&mut arr);
    assert_eq!(arr, vec![-3, -2, -1, 0, 4, 5]);
}

#[test]
fn test_minimal_swaps() {
    // Test that we're making O(n) swaps
    let mut count = 0;
    let mut arr = vec![5, 4, 3, 2, 1];

    // Wrap the slice in a type that counts swaps


    {
        let mut counter = SwapCounter {
            slice: &mut arr,
            swap_count: &mut count,
        };

        // Custom selection sort that uses the counter
        for i in 0..counter.slice.len() {
            let mut min_idx = i;
            for j in (i + 1)..counter.slice.len() {
                if counter.slice[j] < counter.slice[min_idx] {
                    min_idx = j;
                }
            }
            if min_idx != i {
                counter.swap(i, min_idx);
            }
        }
    }

    // For n=5, we expect at most n-1=4 swaps in selection sort
    assert!(
        count <= arr.len() - 1,
        "Expected at most {} swaps, but got {}",
        arr.len() - 1,
        count
    );
    assert_eq!(arr, vec![1, 2, 3, 4, 5]);
}
