use blocks::cs::string::suffix_automaton::SuffixAutomaton;

#[test]
fn test_basic_construction() {
    let text = "banana";
    let sa = SuffixAutomaton::new(text);

    assert!(sa.contains("ana"));
    assert!(sa.contains("ban"));
    assert!(sa.contains("na"));
    // "banana" DOES contain "nan"
    assert!(sa.contains("nan"));
}

#[test]
fn suffix_automaton_test_find_all() {
    let text = "banana";
    let sa = SuffixAutomaton::new(text);

    assert_eq!(sa.find_all("ana"), vec![1, 3]);
    assert_eq!(sa.find_all("na"), vec![2, 4]);
    assert_eq!(sa.find_all("a"), vec![1, 3, 5]);
    assert_eq!(sa.find_all("ban"), vec![0]);
    assert_eq!(sa.find_all("xyz"), vec![]);
}

#[test]
fn suffix_automaton_test_empty_pattern() {
    let text = "banana";
    let sa = SuffixAutomaton::new(text);

    assert!(sa.contains(""));
    assert_eq!(sa.find_all(""), vec![]);
}

#[test]
fn suffix_automaton_test_unicode_text() {
    let text = "こんにちは世界";
    let sa = SuffixAutomaton::new(text);

    assert!(sa.contains("にち"));
    assert!(sa.contains("世界"));
    assert!(!sa.contains("世に"));

    assert_eq!(sa.find_all("にち"), vec![2]);
    assert_eq!(sa.find_all("世界"), vec![5]);
}

#[test]
fn suffix_automaton_test_overlapping_patterns() {
    let text = "aaaaa";
    let sa = SuffixAutomaton::new(text);

    assert_eq!(sa.find_all("aa"), vec![0, 1, 2, 3]);
    assert_eq!(sa.find_all("aaa"), vec![0, 1, 2]);
}

#[test]
fn suffix_automaton_test_long_text() {
    let text = "a".repeat(1000) + "b";
    let sa = SuffixAutomaton::new(&text);

    assert!(sa.contains("aaa"));
    assert!(sa.contains("b"));
    assert!(!sa.contains("c"));

    let positions = sa.find_all("aa");
    assert_eq!(positions.len(), 999);
}

#[test]
fn suffix_automaton_test_case_sensitivity() {
    let text = "bAnAnA";
    let sa = SuffixAutomaton::new(text);

    assert!(!sa.contains("ana"));
    assert!(sa.contains("AnA"));

    assert_eq!(sa.find_all("ana"), vec![]);
    assert_eq!(sa.find_all("AnA"), vec![1, 3]);
}
