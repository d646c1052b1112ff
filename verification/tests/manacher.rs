use blocks::cs::string::manacher::longest_palindrome;

#[test]
fn test_empty_string() {
    assert_eq!(longest_palindrome("").unwrap(), "");
}

#[test]
fn test_single_char() {
    assert_eq!(longest_palindrome("a").unwrap(), "a");
}

#[test]
fn test_odd_length_palindrome() {
    let result = longest_palindrome("babad").unwrap();
    assert!(result == "bab" || result == "aba");
}

#[test]
fn test_even_length_palindrome() {
    assert_eq!(longest_palindrome("cbbd").unwrap(), "bb");
}

#[test]
fn test_all_same_chars() {
    assert_eq!(longest_palindrome("aaaa").unwrap(), "aaaa");
}

#[test]
fn test_no_palindrome() {
    let result = longest_palindrome("abcd").unwrap();
    assert_eq!(result.len(), 1);
}

#[test]
fn test_complex_palindrome() {
    assert_eq!(
        longest_palindrome("forgeeksskeegfor").unwrap(),
        "geeksskeeg"
    );
}
