//! The error type of the language-processing algorithms.

use vstd::prelude::*;

verus! {

/// Errors of the language-processing algorithms.
#[derive(Debug)]
pub enum NLPError {
    /// Parsing failed.
    ParseError(String),
    /// The grammar is invalid.
    GrammarError(String),
    /// The input is invalid.
    InputError(String),
    /// Model parameters are invalid.
    ModelError(String),
    /// Training failed.
    TrainingError(String),
}

impl NLPError {
    /// The text that describes the error.
    pub open spec fn message(&self) -> Seq<char> {
        match self {
            NLPError::ParseError(m) => "Parse error: "@ + m@,
            NLPError::GrammarError(m) => "Grammar error: "@ + m@,
            NLPError::InputError(m) => "Input error: "@ + m@,
            NLPError::ModelError(m) => "Model error: "@ + m@,
            NLPError::TrainingError(m) => "Training error: "@ + m@,
        }
    }

    /// Describes the error in words.
    pub fn to_string(&self) -> (s: String)
        ensures
            s@ == self.message(),
    {
        let mut s = String::new();
        match self {
            NLPError::ParseError(m) => {
                s.push_str("Parse error: ");
                s.push_str(m.as_str());
            },
            NLPError::GrammarError(m) => {
                s.push_str("Grammar error: ");
                s.push_str(m.as_str());
            },
            NLPError::InputError(m) => {
                s.push_str("Input error: ");
                s.push_str(m.as_str());
            },
            NLPError::ModelError(m) => {
                s.push_str("Model error: ");
                s.push_str(m.as_str());
            },
            NLPError::TrainingError(m) => {
                s.push_str("Training error: ");
                s.push_str(m.as_str());
            },
        }
        s
    }
}

} // verus!
