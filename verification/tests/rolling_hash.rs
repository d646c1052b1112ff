use blocks::cs::string::rolling_hash::RollingHash;

#[test]
fn test_rolling_hash_basics() {
    let mut rh: RollingHash<257, 1_000_000_007> = RollingHash::new();

    rh.push(b'a');
    assert_eq!(rh.window_size(), 1);
    let h1 = rh.current_hash();

    rh.push(b'b');
    assert_eq!(rh.window_size(), 2);
    let h2 = rh.current_hash();
    assert_ne!(h1, h2);

    let popped = rh.pop();
    assert_eq!(popped, Some(b'a'));
    assert_eq!(rh.window_size(), 1);

    let h3 = rh.current_hash();
    let mut rh_test: RollingHash<257, 1_000_000_007> = RollingHash::new();
    rh_test.push(b'b');
    assert_eq!(h3, rh_test.current_hash());
}

#[test]
fn test_pop_on_empty() {
    let mut rh: RollingHash<257, 1_000_000_007> = RollingHash::new();
    assert_eq!(rh.pop(), None);
}

#[test]
fn test_clear() {
    let mut rh: RollingHash<257, 1_000_000_007> = RollingHash::new();
    rh.push(b'a');
    rh.push(b'b');
    rh.clear();
    assert_eq!(rh.window_size(), 0);
    assert_eq!(rh.current_hash(), 0);
    assert_eq!(rh.pop(), None);
}

#[test]
fn test_window_operations() {
    let mut rh: RollingHash<257, 1_000_000_007> = RollingHash::new();
    
    // Push sequence of characters
    let text = b"abcdef";
    for &byte in text {
        rh.push(byte);
    }
    assert_eq!(rh.window_size(), 6);

    // Pop characters one by one
    for &expected in text {
        assert_eq!(rh.pop(), Some(expected));
    }
    assert_eq!(rh.window_size(), 0);
}

#[test]
fn test_hash_consistency() {
    let mut rh1: RollingHash<257, 1_000_000_007> = RollingHash::new();
    let mut rh2: RollingHash<257, 1_000_000_007> = RollingHash::new();

    // Same sequence should produce same hash
    for &byte in b"hello" {
        rh1.push(byte);
        rh2.push(byte);
    }
    assert_eq!(rh1.current_hash(), rh2.current_hash());
}
