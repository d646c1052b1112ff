use blocks::cs::error::Error;

#[test]
fn error_test_error_messages() {
    let err = Error::empty_pattern();
    assert_eq!(err.to_string(), "Pattern cannot be empty");

    let err = Error::pattern_too_long(10, 5);
    assert_eq!(err.to_string(), "Pattern length 10 is longer than text length 5");

    let err = Error::recursion_limit_exceeded(100, 50);
    assert_eq!(err.to_string(), "Recursion depth 100 exceeded maximum allowed depth of 50");

    let err = Error::input_too_large(1_000_000, 100_000);
    assert_eq!(err.to_string(), "Input length 1000000 exceeds maximum supported length of 100000");

    let err = Error::invalid_input("invalid UTF-8");
    assert_eq!(err.to_string(), "Invalid input: invalid UTF-8");
}

#[test]
fn test_error_variants() {
    // Test that error variants exist but are handled by specific modules
    let err = Error::AllocationFailed {
        reason: "test".to_string(),
        source: None,
    };
    assert!(err.to_string().contains("Failed to allocate memory"));

    let err = Error::ParallelExecutionFailed {
        reason: "test".to_string(),
    };
    assert!(err.to_string().contains("Parallel execution failed"));

    let err = Error::IndexOutOfBounds("test".to_string());
    assert!(err.to_string().contains("Index out of bounds"));

    let err = Error::Unsupported("test".to_string());
    assert!(err.to_string().contains("Operation not supported"));
}
