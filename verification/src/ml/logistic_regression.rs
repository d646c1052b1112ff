//! The error type of logistic regression.

use vstd::prelude::*;

verus! {

/// Errors of logistic-regression training and prediction.
#[derive(Debug, PartialEq, Eq, Structural, Clone, Copy)]
pub enum LogisticRegressionError {
    /// The training data holds no sample.
    EmptyTrainingSet,
    /// The test data holds no sample.
    EmptyTestSet,
    /// Samples have differing numbers of features.
    DimensionMismatch,
    /// There are not as many labels as training samples.
    LabelsMismatch,
    /// The class labels are invalid.
    InvalidLabels,
    /// The optimization did not converge within its iterations.
    FailedToConverge,
    /// The regularization parameter is invalid.
    InvalidRegularization,
    /// The learning rate is invalid.
    InvalidLearningRate,
}

impl LogisticRegressionError {
    /// The text that describes the error.
    pub open spec fn message(&self) -> Seq<char> {
        match self {
            LogisticRegressionError::EmptyTrainingSet => "Empty training dataset"@,
            LogisticRegressionError::EmptyTestSet => "Empty test dataset"@,
            LogisticRegressionError::DimensionMismatch => "Feature dimensions mismatch"@,
            LogisticRegressionError::LabelsMismatch => "Labels length mismatch with training data"@,
            LogisticRegressionError::InvalidLabels => "Invalid class labels"@,
            LogisticRegressionError::FailedToConverge => "Failed to converge within max iterations"@,
            LogisticRegressionError::InvalidRegularization => "Invalid regularization parameter"@,
            LogisticRegressionError::InvalidLearningRate => "Invalid learning rate"@,
        }
    }

    /// Describes the error in words.
    pub fn to_string(&self) -> (s: String)
        ensures
            s@ == self.message(),
    {
        let text = match self {
            LogisticRegressionError::EmptyTrainingSet => "Empty training dataset",
            LogisticRegressionError::EmptyTestSet => "Empty test dataset",
            LogisticRegressionError::DimensionMismatch => "Feature dimensions mismatch",
            LogisticRegressionError::LabelsMismatch => "Labels length mismatch with training data",
            LogisticRegressionError::InvalidLabels => "Invalid class labels",
            LogisticRegressionError::FailedToConverge => "Failed to converge within max iterations",
            LogisticRegressionError::InvalidRegularization => "Invalid regularization parameter",
            LogisticRegressionError::InvalidLearningRate => "Invalid learning rate",
        };
        text.to_owned()
    }
}

} // verus!
