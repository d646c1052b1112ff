//! The error types and settings of the learning algorithms, whose numerical
//! work is done in floating point outside this library.

pub mod decision_tree;
pub mod error;
pub mod logistic_regression;
