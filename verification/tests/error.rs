use blocks::error::{SortError, StringError};

#[test]
fn sort_error_test_error_messages() {
    let err = SortError::recursion_limit_exceeded(100, 50);
    assert_eq!(
        err.to_string(),
        "Recursion depth 100 exceeded maximum allowed depth of 50"
    );

    let err = SortError::allocation_failed("failed to allocate buffer", None);
    assert_eq!(err.to_string(), "Failed to allocate memory: failed to allocate buffer");

    let err = SortError::parallel_execution_failed("thread panic");
    assert_eq!(err.to_string(), "Parallel execution failed: thread panic");

    let err = SortError::input_too_large(1_000_000, 100_000);
    assert_eq!(
        err.to_string(),
        "Input slice length 1000000 exceeds maximum supported length of 100000"
    );
}

#[test]
fn test_error_sources() {
    let mut v: Vec<i32> = Vec::new();
    let err = v.try_reserve(usize::MAX).unwrap_err();
    let err = SortError::allocation_failed("failed to allocate", Some(err));
    assert!(err.source().is_some());

    let err = SortError::recursion_limit_exceeded(10, 5);
    assert!(err.source().is_none());
}

#[test]
fn test_error_display() {
    let mut v: Vec<i32> = Vec::new();
    let reserve_err = v.try_reserve(usize::MAX).unwrap_err();
    let err = SortError::allocation_failed("failed to allocate", Some(reserve_err));
    assert!(err.to_string().contains("failed to allocate"));
}

#[test]
fn string_error_test_error_messages() {
    let err = StringError::empty_pattern();
    assert_eq!(err.to_string(), "Pattern cannot be empty");

    let err = StringError::pattern_too_long(10, 5);
    assert_eq!(
        err.to_string(),
        "Pattern length 10 is longer than text length 5"
    );

    let err = StringError::allocation_failed("failed to allocate buffer");
    assert_eq!(err.to_string(), "Failed to allocate memory: failed to allocate buffer");

    let err = StringError::invalid_input("invalid UTF-8");
    assert_eq!(err.to_string(), "Invalid input: invalid UTF-8");
}
