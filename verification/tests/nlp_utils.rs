use blocks::nlp::utils::{detokenize, tokenize};

#[test]
fn test_tokenize() {
    let text = "hello world";
    let tokens = tokenize(text);
    assert_eq!(tokens, vec!["hello", "world"]);
}

#[test]
fn test_detokenize() {
    let tokens = vec!["hello".to_string(), "world".to_string()];
    let text = detokenize(&tokens);
    assert_eq!(text, "hello world");
}
