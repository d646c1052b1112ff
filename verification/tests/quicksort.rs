use blocks::cs::sort::quicksort::sort;
use std::cmp::Ordering;

#[derive(Debug, Eq, PartialEq, Clone)]
struct Person {
    name: String,
    age: u32,
}

impl PartialOrd for Person {
    fn partial_cmp(&self, other: &Self) -> Option<Ordering> {
        Some(self.cmp(other))
    }
}

impl Ord for Person {
    fn cmp(&self, other: &Self) -> Ordering {
        self.age
            .cmp(&other.age)
            .then_with(|| self.name.cmp(&other.name))
    }
}

#[test]
fn test_empty_array() {
    let mut arr: Vec<i32> = vec![];
    sort(&mut arr);
    assert_eq!(arr, Vec::<i32>::new());
}

#[test]
fn quicksort_test_single_element() {
    let mut arr = vec![1];
    sort(&mut arr);
    assert_eq!(arr, vec![1]);
}

#[test]
fn quicksort_test_sorted_array() {
    let mut arr = vec![1, 2, 3, 4, 5];
    sort(&mut arr);
    assert_eq!(arr, vec![1, 2, 3, 4, 5]);
}

#[test]
fn test_reverse_sorted_array() {
    let mut arr = vec![5, 4, 3, 2, 1];
    sort(&mut arr);
    assert_eq!(arr, vec![1, 2, 3, 4, 5]);
}

#[test]
fn test_all_equal_elements() {
    let mut arr = vec![1, 1, 1, 1, 1];
    sort(&mut arr);
    assert_eq!(arr, vec![1, 1, 1, 1, 1]);
}

#[test]
fn test_two_unique_elements_repeated() {
    let mut arr = vec![2, 1, 2, 1, 2, 1];
    sort(&mut arr);
    assert_eq!(arr, vec![1, 1, 1, 2, 2, 2]);
}

#[test]
fn test_large_random_array() {
    let mut arr: Vec<i32> = (0..1000).map(|i| (i * 17 + 11) % 1000).collect();
    let mut expected = arr.clone();
    expected.sort();
    sort(&mut arr);
    assert_eq!(arr, expected);
}

#[test]
fn test_large_mostly_sorted_array() {
    let mut arr: Vec<i32> = (0..1000).collect();
    // Introduce some disorder
    for i in 0..50 {
        arr.swap(i * 2, i * 2 + 1);
    }
    let mut expected = arr.clone();
    expected.sort();
    sort(&mut arr);
    assert_eq!(arr, expected);
}

#[test]
fn test_custom_type() {
    let mut people = vec![
        Person {
            name: "Alice".to_string(),
            age: 30,
        },
        Person {
            name: "Bob".to_string(),
            age: 25,
        },
        Person {
            name: "Charlie".to_string(),
            age: 35,
        },
        Person {
            name: "David".to_string(),
            age: 25,
        },
    ];

    sort(&mut people);

    assert_eq!(
        people,
        vec![
            Person {
                name: "Bob".to_string(),
                age: 25
            },
            Person {
                name: "David".to_string(),
                age: 25
            },
            Person {
                name: "Alice".to_string(),
                age: 30
            },
            Person {
                name: "Charlie".to_string(),
                age: 35
            },
        ]
    );
}

#[test]
fn test_array_with_many_duplicates() {
    let mut arr = Vec::with_capacity(1000);
    for i in 0..1000 {
        arr.push(i % 4); // Only 4 unique values
    }
    let mut expected = arr.clone();
    expected.sort();
    sort(&mut arr);
    assert_eq!(arr, expected);
}

#[test]
fn test_nearly_sorted_array() {
    let mut arr: Vec<i32> = (0..1000).collect();
    // Swap every 100th element
    for i in 0..10 {
        arr.swap(i * 100, i * 100 + 1);
    }
    let mut expected = arr.clone();
    expected.sort();
    sort(&mut arr);
    assert_eq!(arr, expected);
}
