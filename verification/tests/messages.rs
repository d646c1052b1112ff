use blocks::cs::sort::heapsort::HeapSortError;
use blocks::error::{SearchError, SortError, StringError};
use blocks::ml::decision_tree::{DecisionTreeError, SplitCriterion};
use blocks::ml::error::Error as MlError;
use blocks::ml::logistic_regression::LogisticRegressionError;
use blocks::nlp::cyk::CYKParser;
use blocks::nlp::error::NLPError;

#[test]
fn ml_error_messages() {
    let e = MlError::InvalidDimensions { expected: vec![3, 2], got: vec![3] };
    assert_eq!(e.to_string(), "Invalid input dimensions: expected [3, 2], got [3]");
    let e = MlError::InvalidDimensions { expected: vec![], got: vec![10, 0, 7] };
    assert_eq!(e.to_string(), "Invalid input dimensions: expected [], got [10, 0, 7]");
    assert_eq!(
        MlError::InvalidParameter("k must be positive".to_string()).to_string(),
        "Invalid parameter value: k must be positive"
    );
    assert_eq!(
        MlError::ConvergenceFailed("100 iterations".to_string()).to_string(),
        "Convergence failed: 100 iterations"
    );
    assert_eq!(MlError::NumericalError("NaN".to_string()).to_string(), "Numerical error: NaN");
    assert_eq!(MlError::InvalidState("not fitted".to_string()).to_string(), "Invalid state: not fitted");
    assert_eq!(MlError::Other("boom".to_string()).to_string(), "boom");
}

#[test]
fn decision_tree_error_messages() {
    assert_eq!(DecisionTreeError::EmptyTrainingSet.to_string(), "Empty training dataset");
    assert_eq!(DecisionTreeError::EmptyTestSet.to_string(), "Empty test dataset");
    assert_eq!(DecisionTreeError::DimensionMismatch.to_string(), "Feature dimensions mismatch");
    assert_eq!(
        DecisionTreeError::LabelsMismatch.to_string(),
        "Labels length mismatch with training data"
    );
    assert_eq!(DecisionTreeError::InvalidFeatureIndex.to_string(), "Invalid feature index");
    assert_eq!(DecisionTreeError::InvalidSplitThreshold.to_string(), "Invalid split threshold");
    assert_eq!(DecisionTreeError::InvalidPruningParams.to_string(), "Invalid pruning parameters");
    assert_ne!(SplitCriterion::InformationGain, SplitCriterion::GainRatio);
}

#[test]
fn logistic_regression_error_messages() {
    assert_eq!(LogisticRegressionError::InvalidLabels.to_string(), "Invalid class labels");
    assert_eq!(
        LogisticRegressionError::FailedToConverge.to_string(),
        "Failed to converge within max iterations"
    );
    assert_eq!(
        LogisticRegressionError::InvalidRegularization.to_string(),
        "Invalid regularization parameter"
    );
    assert_eq!(LogisticRegressionError::InvalidLearningRate.to_string(), "Invalid learning rate");
    assert_eq!(LogisticRegressionError::EmptyTrainingSet.to_string(), "Empty training dataset");
}

#[test]
fn nlp_error_messages() {
    assert_eq!(NLPError::ParseError("x".to_string()).to_string(), "Parse error: x");
    assert_eq!(NLPError::GrammarError("y".to_string()).to_string(), "Grammar error: y");
    assert_eq!(NLPError::InputError("z".to_string()).to_string(), "Input error: z");
    assert_eq!(NLPError::ModelError("m".to_string()).to_string(), "Model error: m");
    assert_eq!(NLPError::TrainingError("t".to_string()).to_string(), "Training error: t");
}

#[test]
fn grammar_errors_name_the_rule() {
    match CYKParser::new(vec![]) {
        Err(e) => assert_eq!(e.to_string(), "Grammar error: Empty grammar"),
        Ok(_) => panic!("an empty grammar is refused"),
    }
    match CYKParser::new(vec![("S", vec!["A B"]), ("A", vec!["a", "x y z"])]) {
        Err(e) => assert_eq!(e.to_string(), "Grammar error: Invalid rule: A → x y z"),
        Ok(_) => panic!("a body of three symbols is refused"),
    }
    match CYKParser::new(vec![("S", vec!["  "])]) {
        Err(e) => assert_eq!(e.to_string(), "Grammar error: Invalid rule: S →   "),
        Ok(_) => panic!("an empty body is refused"),
    }
}

#[test]
fn sort_and_search_error_messages() {
    assert_eq!(
        HeapSortError::ArrayTooLarge(7).to_string(),
        "Array size 7 is too large, would cause integer overflow in heap operations"
    );
    let e = SortError::input_too_large(5, 4);
    assert_eq!(e.to_string(), "Input slice length 5 exceeds maximum supported length of 4");
    assert!(SortError::parallel_execution_failed("x").source().is_none());
    let s = StringError::pattern_too_long(3, 2);
    assert_eq!(s.to_string(), "Pattern length 3 is longer than text length 2");
    assert_eq!(SearchError::Unsupported("z".to_string()).to_string(), "Operation not supported: z");
}

#[test]
fn label_count_check() {
    assert!(blocks::ml::error::check_label_count(4, 4).is_ok());
    match blocks::ml::error::check_label_count(4, 3) {
        Err(e) => assert_eq!(e.to_string(), "Invalid input dimensions: expected [4], got [3]"),
        Ok(()) => panic!("a mismatch is an error"),
    }
}
