use blocks::cs::sort::heapsort::{build_max_heap, heapify_iterative, sort, sort_i32, validate_array_size, HeapSortError};
use std::time::{Duration, Instant};

#[test]
fn heapsort_test_empty_slice() {
    let mut arr: Vec<i32> = vec![];
    sort(&mut arr).expect("Sort should succeed on empty slice");
    assert_eq!(arr, Vec::<i32>::new());
}

#[test]
fn heapsort_test_single_element() {
    let mut arr = vec![1];
    sort(&mut arr).expect("Sort should succeed on single element");
    assert_eq!(arr, vec![1]);
}

#[test]
fn heapsort_test_sorted_array() {
    let mut arr = vec![1, 2, 3, 4, 5];
    sort(&mut arr).expect("Sort should succeed on sorted array");
    assert_eq!(arr, vec![1, 2, 3, 4, 5]);
}

#[test]
fn heapsort_test_reverse_sorted() {
    let mut arr = vec![5, 4, 3, 2, 1];
    sort(&mut arr).expect("Sort should succeed on reverse sorted array");
    assert_eq!(arr, vec![1, 2, 3, 4, 5]);
}

#[test]
fn heapsort_test_random_order() {
    let mut arr = vec![3, 1, 4, 1, 5, 9, 2, 6, 5, 3, 5];
    let mut expected = arr.clone();
    expected.sort();
    sort(&mut arr).expect("Sort should succeed on random array");
    assert_eq!(arr, expected);
}

#[test]
fn heapsort_test_duplicate_elements() {
    let mut arr = vec![3, 1, 4, 1, 5, 9, 2, 6, 5, 3, 5];
    let mut expected = arr.clone();
    expected.sort();
    sort(&mut arr).expect("Sort should succeed on array with duplicates");
    assert_eq!(arr, expected);
}

#[test]
fn heapsort_test_large_array() {
    let size = 100_000;
    validate_array_size(size).expect("Size should be valid");
    
    let mut arr: Vec<i32> = (0..size).rev().map(|x| x as i32).collect();
    let mut expected = arr.clone();
    expected.sort();
    sort(&mut arr).expect("Sort should succeed on large array");
    assert_eq!(arr, expected);
}

#[test]
fn heapsort_test_different_types() {
    let mut string_arr = vec!["banana", "apple", "cherry", "date"];
    let mut expected = string_arr.clone();
    expected.sort();
    sort(&mut string_arr).expect("Sort should succeed on string array");
    assert_eq!(string_arr, expected);
}

#[test]
fn test_heap_property() {
    let mut arr = vec![4, 10, 3, 5, 1];
    build_max_heap(&mut arr).expect("Build heap should succeed");
    
    // Test max-heap property at each level
    for i in 0..arr.len() {
        let left = 2 * i + 1;
        let right = 2 * i + 2;
        
        if left < arr.len() {
            assert!(arr[i] >= arr[left], 
                "Heap property violated at index {} with left child", i);
        }
        if right < arr.len() {
            assert!(arr[i] >= arr[right], 
                "Heap property violated at index {} with right child", i);
        }
    }
}

#[test]
fn test_index_calculation_limits() {
    // Test array size at power of 2 boundaries
    let sizes = [2, 4, 8, 16, 32, 64, 128, 256, 512, 1024];

    for &size in &sizes {
        let mut arr: Vec<i32> = (0..size).map(|x| x as i32).rev().collect();
        
        // First build the heap and verify heap property
        build_max_heap(&mut arr).expect("Build heap should succeed");
        
        // Verify heap property is maintained after heap construction
        for i in 0..arr.len() {
            let left = 2 * i + 1;
            let right = left + 1;
            if left < arr.len() {
                assert!(arr[i] >= arr[left], 
                    "Heap property violated at index {} with left child", i);
            }
            if right < arr.len() {
                assert!(arr[i] >= arr[right],
                    "Heap property violated at index {} with right child", i);
            }
        }

        // Now complete the sort
        sort(&mut arr).expect("Sort should succeed");
        assert!(arr.windows(2).all(|w| w[0] <= w[1]),
            "Array not sorted correctly for size {}", size);
    }
}

#[test]
fn test_size_boundaries() {
    let boundary_sizes = [8, 9, 10, 11, 15, 16, 17, 32, 1023, 1024, 1025];

    for &size in &boundary_sizes {
        let mut arr: Vec<i32> = (0..size).map(|x| x as i32).rev().collect();
        let mut expected = arr.clone();
        expected.sort();
        sort(&mut arr).expect(&format!("Sort should succeed for size {}", size));
        assert_eq!(arr, expected, "Failed for size {}", size);
    }
}

#[test]
fn test_pathological_inputs() {
    // All equal elements
    let mut arr = vec![1; 100];
    sort(&mut arr).expect("Sort should succeed on equal elements");
    assert!(arr.windows(2).all(|w| w[0] <= w[1]));

    // Alternating elements
    let mut arr: Vec<i32> = (0..100).map(|i| (i % 2) as i32).collect();
    let mut expected = arr.clone();
    expected.sort();
    sort(&mut arr).expect("Sort should succeed on alternating elements");
    assert_eq!(arr, expected);

    // Saw pattern
    let mut arr: Vec<i32> = (0..50).map(|x| x as i32)
        .chain((0..50).rev().map(|x| x as i32))
        .collect();
    let mut expected = arr.clone();
    expected.sort();
    sort(&mut arr).expect("Sort should succeed on saw pattern");
    assert_eq!(arr, expected);

    // Pipeline pattern
    let mut arr: Vec<i32> = (0..50).map(|x| x as i32)
        .chain((0..50).map(|x| x as i32))
        .collect();
    let mut expected = arr.clone();
    expected.sort();
    sort(&mut arr).expect("Sort should succeed on pipeline pattern");
    assert_eq!(arr, expected);
}

#[test]
fn test_invalid_root_index() {
    let mut arr = vec![1, 2, 3];
    let result = heapify_iterative(&mut arr, 3);
    assert!(matches!(
        result,
        Err(HeapSortError::InvalidRootIndex { root: 3, len: 3 })
    ));
}

#[test]
fn test_array_size_limit() {
    // Only test the validation logic without allocating memory
    let size = (isize::MAX as usize / 2) + 1;
    let result = validate_array_size(size);
    
    assert!(matches!(
        result,
        Err(HeapSortError::ArrayTooLarge(s)) if s == size
    ));
    
    // Test a valid size
    let valid_size = isize::MAX as usize / 4;
    assert!(validate_array_size(valid_size).is_ok());
}

#[test]
fn test_child_index_calculation() {
    // Test with a reasonable size array
    let size = 10_000;
    let mut arr = vec![1; size];
    
    // Test with valid indices first
    let valid_index = size / 2;
    let result = heapify_iterative(&mut arr, valid_index);
    assert!(result.is_ok(), "Should succeed with valid index");
    
    // Now test with an index that would cause child index overflow
    // We don't need a huge array to test this, just pass a large index
    let large_index = (usize::MAX - 1) / 2;  // This will cause 2*i+1 to overflow
    let result = heapify_iterative(&mut arr, large_index);
    assert!(result.is_err(), "Should error on large indices");
}

#[test]
fn test_simd_sort() {
    let mut arr = vec![3, 1, 4, 1, 5, 9, 2, 6, 5, 3, 5];
    let mut expected = arr.clone();
    expected.sort();
    
    sort_i32(&mut arr).expect("SIMD sort should succeed");
    assert_eq!(arr, expected, "SIMD sort failed to sort correctly");
}

#[test]
fn test_parallel_simd_sort() {
    let size = 100_000;
    let mut arr: Vec<i32> = (0..size).rev().collect();
    let mut expected = arr.clone();
    expected.sort();
    
    sort_i32(&mut arr).expect("Parallel SIMD sort should succeed");
    assert_eq!(arr, expected, "Parallel SIMD sort failed to sort correctly");
}

#[test]
fn test_simd_performance() {
    let size = 100_000;
    let mut arr1: Vec<i32> = (0..size).rev().collect();
    let mut arr2 = arr1.clone();
    
    let start = std::time::Instant::now();
    sort_i32(&mut arr1).expect("SIMD sort should succeed");
    let simd_time = start.elapsed();
    
    let start = std::time::Instant::now();
    sort(&mut arr2).expect("Regular sort should succeed");
    let regular_time = start.elapsed();
    
    println!("Size {}: SIMD sort {:?}, Regular sort {:?}", 
            size, simd_time, regular_time);
    
    assert_eq!(arr1, arr2, "SIMD sort produced different results");
}

fn bench_sort(size: usize) -> Result<Duration, HeapSortError> {
    // Add size validation
    validate_array_size(size)?;
    
    let mut arr: Vec<i32> = (0..size).map(|x| x as i32).rev().collect();
    let start = Instant::now();
    sort(&mut arr)?;
    Ok(start.elapsed())
}

#[test]
fn compare_performance() {
    // Use more reasonable sizes for testing
    for &size in &[100, 1_000, 10_000, 100_000] {
        // Our heapsort
        let heap_time = bench_sort(size).expect("Heapsort benchmark should succeed");
        
        // Standard library sort
        let mut arr: Vec<i32> = (0..size).map(|x| x as i32).rev().collect();
        let start = Instant::now();
        arr.sort();
        let std_time = start.elapsed();

        println!("Size {}: Heapsort {:?}, std::sort {:?}", 
                size, heap_time, std_time);
    }
}
