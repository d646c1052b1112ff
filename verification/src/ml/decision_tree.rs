//! The error type and split criteria of decision trees.

use vstd::prelude::*;

verus! {

/// Errors of decision-tree training and prediction.
#[derive(Debug, PartialEq, Eq, Structural, Clone, Copy)]
pub enum DecisionTreeError {
    /// The training data holds no sample.
    EmptyTrainingSet,
    /// The test data holds no sample.
    EmptyTestSet,
    /// Samples have differing numbers of features.
    DimensionMismatch,
    /// There are not as many labels as training samples.
    LabelsMismatch,
    /// A feature index is out of range.
    InvalidFeatureIndex,
    /// A split threshold is invalid.
    InvalidSplitThreshold,
    /// The pruning parameters are invalid.
    InvalidPruningParams,
}

impl DecisionTreeError {
    /// The text that describes the error.
    pub open spec fn message(&self) -> Seq<char> {
        match self {
            DecisionTreeError::EmptyTrainingSet => "Empty training dataset"@,
            DecisionTreeError::EmptyTestSet => "Empty test dataset"@,
            DecisionTreeError::DimensionMismatch => "Feature dimensions mismatch"@,
            DecisionTreeError::LabelsMismatch => "Labels length mismatch with training data"@,
            DecisionTreeError::InvalidFeatureIndex => "Invalid feature index"@,
            DecisionTreeError::InvalidSplitThreshold => "Invalid split threshold"@,
            DecisionTreeError::InvalidPruningParams => "Invalid pruning parameters"@,
        }
    }

    /// Describes the error in words.
    pub fn to_string(&self) -> (s: String)
        ensures
            s@ == self.message(),
    {
        let text = match self {
            DecisionTreeError::EmptyTrainingSet => "Empty training dataset",
            DecisionTreeError::EmptyTestSet => "Empty test dataset",
            DecisionTreeError::DimensionMismatch => "Feature dimensions mismatch",
            DecisionTreeError::LabelsMismatch => "Labels length mismatch with training data",
            DecisionTreeError::InvalidFeatureIndex => "Invalid feature index",
            DecisionTreeError::InvalidSplitThreshold => "Invalid split threshold",
            DecisionTreeError::InvalidPruningParams => "Invalid pruning parameters",
        };
        text.to_owned()
    }
}

/// How a decision tree chooses its splits.
#[derive(Debug, Clone, Copy, PartialEq, Eq, Structural)]
pub enum SplitCriterion {
    /// Information gain (ID3).
    InformationGain,
    /// Gain ratio (C4.5).
    GainRatio,
}

} // verus!
