use blocks::nlp::cyk::CYKParser;
use blocks::nlp::error::NLPError;

fn create_test_grammar() -> Vec<(&'static str, Vec<&'static str>)> {
    vec![
        ("S", vec!["NP VP"]),
        ("NP", vec!["Det N", "NP PP"]),
        ("VP", vec!["V NP", "VP PP"]),
        ("PP", vec!["P NP"]),
        ("Det", vec!["the", "a"]),
        ("N", vec!["cat", "dog", "mouse"]),
        ("V", vec!["chased", "saw"]),
        ("P", vec!["with", "in"]),
    ]
}

fn create_unicode_grammar() -> Vec<(&'static str, Vec<&'static str>)> {
    vec![
        ("S", vec!["NP VP"]),
        ("NP", vec!["Det N"]),
        ("VP", vec!["V NP"]),
        ("Det", vec!["el", "la"]),
        ("N", vec!["niño", "niña", "perro"]),
        ("V", vec!["vio", "amó"]),
    ]
}

#[test]
fn test_empty_sentence() {
    let parser = CYKParser::new(create_test_grammar()).unwrap();
    assert!(!parser.parse("").unwrap());
}

#[test]
fn test_simple_sentence() {
    let parser = CYKParser::new(create_test_grammar()).unwrap();
    assert!(parser.parse("the cat saw a mouse").unwrap());
}

#[test]
fn test_complex_sentence() {
    let parser = CYKParser::new(create_test_grammar()).unwrap();
    assert!(parser.parse("the cat with a mouse saw the dog").unwrap());
}

#[test]
fn test_invalid_sentence() {
    let parser = CYKParser::new(create_test_grammar()).unwrap();
    assert!(!parser.parse("cat the saw mouse").unwrap());
}

#[test]
fn test_invalid_word() {
    let parser = CYKParser::new(create_test_grammar()).unwrap();
    assert!(!parser.parse("the cat ate the mouse").unwrap());
}

#[test]
fn test_empty_grammar() {
    let result = CYKParser::new(vec![]);
    assert!(matches!(result, Err(NLPError::GrammarError(_))));
}

#[test]
fn test_invalid_rule() {
    let result = CYKParser::new(vec![
        ("S", vec!["A B C"]),  // Invalid: more than 2 symbols
    ]);
    assert!(matches!(result, Err(NLPError::GrammarError(_))));
}

#[test]
fn test_large_sentence() {
    let parser = CYKParser::new(create_test_grammar()).unwrap();
    let sentence = "the cat saw the dog with the mouse in the cat with a dog";
    assert!(parser.parse(sentence).unwrap());
}

#[test]
fn test_all_terminals() {
    let parser = CYKParser::new(create_test_grammar()).unwrap();
    let mut all_valid = true;
    for word in ["the", "a", "cat", "dog", "mouse", "chased", "saw", "with", "in"] {
        if parser.parse(word).unwrap() {
            all_valid = false;
            break;
        }
    }
    assert!(all_valid, "Single terminals should not form valid sentences");
}

#[test]
fn test_unicode_simple() {
    let parser = CYKParser::new(create_unicode_grammar()).unwrap();
    assert!(parser.parse("el niño vio la niña").unwrap());
}

#[test]
fn test_unicode_invalid() {
    let parser = CYKParser::new(create_unicode_grammar()).unwrap();
    assert!(!parser.parse("el vio niño la").unwrap());
}

#[test]
fn test_deep_recursion() {
    let grammar = vec![
        ("S", vec!["A B"]),
        ("A", vec!["A A", "a"]),  // Allows for deep left recursion
        ("B", vec!["b"]),
    ];
    let parser = CYKParser::new(grammar).unwrap();
    
    // Create a sentence with many 'a's followed by 'b'
    let many_as: String = "a ".repeat(100);
    let sentence = format!("{} b", many_as);
    assert!(parser.parse(&sentence).unwrap());
}

#[test]
fn test_ambiguous_grammar() {
    let grammar = vec![
        ("S", vec!["A B", "B A"]),
        ("A", vec!["a"]),
        ("B", vec!["b"]),
    ];
    let parser = CYKParser::new(grammar).unwrap();
    assert!(parser.parse("a b").unwrap());
    assert!(parser.parse("b a").unwrap());
}

#[test]
fn test_empty_production() {
    let result = CYKParser::new(vec![
        ("S", vec![""]),  // Empty production
    ]);
    assert!(matches!(result, Err(NLPError::GrammarError(_))));
}

#[test]
fn test_whitespace_handling() {
    let parser = CYKParser::new(create_test_grammar()).unwrap();
    assert!(parser.parse("the   cat   saw   a   mouse").unwrap());
    assert!(parser.parse("\tthe\ncat\rsaw\ta\nmouse").unwrap());
}
