//! Error types for sorting, searching and string operations.

use crate::text::{decimal, push_decimal};
use std::collections::TryReserveError;
use vstd::prelude::*;

verus! {

/// Errors that can occur during sorting operations.
#[derive(Debug)]
pub enum SortError {
    /// The recursion depth exceeded the configured maximum.
    RecursionLimitExceeded { depth: usize, max_depth: usize },
    /// Failed to allocate memory for sorting operations.
    AllocationFailed { reason: String, source: Option<TryReserveError> },
    /// A parallel execution task failed.
    ParallelExecutionFailed { reason: String },
    /// The input slice was too large to sort.
    InputTooLarge { length: usize, max_length: usize },
}

impl SortError {
    /// The text that describes the error.
    pub open spec fn message(&self) -> Seq<char> {
        match self {
            SortError::RecursionLimitExceeded { depth, max_depth } => "Recursion depth "@
                + decimal(*depth as nat) + " exceeded maximum allowed depth of "@ + decimal(
                *max_depth as nat,
            ),
            SortError::AllocationFailed { reason, .. } => "Failed to allocate memory: "@
                + reason@,
            SortError::ParallelExecutionFailed { reason } => "Parallel execution failed: "@
                + reason@,
            SortError::InputTooLarge { length, max_length } => "Input slice length "@ + decimal(
                *length as nat,
            ) + " exceeds maximum supported length of "@ + decimal(*max_length as nat),
        }
    }

    /// Describes the error in words.
    pub fn to_string(&self) -> (s: String)
        ensures
            s@ == self.message(),
    {
        let mut s = String::new();
        match self {
            SortError::RecursionLimitExceeded { depth, max_depth } => {
                s.push_str("Recursion depth ");
                push_decimal(&mut s, *depth);
                s.push_str(" exceeded maximum allowed depth of ");
                push_decimal(&mut s, *max_depth);
            },
            SortError::AllocationFailed { reason, .. } => {
                s.push_str("Failed to allocate memory: ");
                s.push_str(reason.as_str());
            },
            SortError::ParallelExecutionFailed { reason } => {
                s.push_str("Parallel execution failed: ");
                s.push_str(reason.as_str());
            },
            SortError::InputTooLarge { length, max_length } => {
                s.push_str("Input slice length ");
                push_decimal(&mut s, *length);
                s.push_str(" exceeds maximum supported length of ");
                push_decimal(&mut s, *max_length);
            },
        }
        proof {
            assert(s@ =~= self.message());
        }
        s
    }

    /// The underlying allocation error, where there is one.
    pub fn source(&self) -> (r: Option<&TryReserveError>)
        ensures
            r is Some <==> (self matches SortError::AllocationFailed { source, .. }
                && source is Some),
    {
        match self {
            SortError::AllocationFailed { source, .. } => match source {
                Some(e) => Some(e),
                None => None,
            },
            _ => None,
        }
    }

    /// The error for a recursion that went too deep.
    pub fn recursion_limit_exceeded(depth: usize, max_depth: usize) -> (e: Self)
        ensures
            e == (SortError::RecursionLimitExceeded { depth, max_depth }),
    {
        SortError::RecursionLimitExceeded { depth, max_depth }
    }

    /// The error for a failed allocation.
    pub fn allocation_failed(reason: &str, source: Option<TryReserveError>) -> (e: Self)
        ensures
            e matches SortError::AllocationFailed { reason: r, source: s } && r@ == reason@
                && s == source,
    {
        SortError::AllocationFailed { reason: reason.to_owned(), source }
    }

    /// The error for a failed parallel task.
    pub fn parallel_execution_failed(reason: &str) -> (e: Self)
        ensures
            e matches SortError::ParallelExecutionFailed { reason: r } && r@ == reason@,
    {
        SortError::ParallelExecutionFailed { reason: reason.to_owned() }
    }

    /// The error for an input that is too large.
    pub fn input_too_large(length: usize, max_length: usize) -> (e: Self)
        ensures
            e == (SortError::InputTooLarge { length, max_length }),
    {
        SortError::InputTooLarge { length, max_length }
    }
}

/// Errors of search operations.
#[derive(Debug, PartialEq)]
pub enum SearchError {
    InvalidInput(String),
    IndexOutOfBounds(String),
    Unsupported(String),
}

impl SearchError {
    /// The text that describes the error.
    pub open spec fn message(&self) -> Seq<char> {
        match self {
            SearchError::InvalidInput(m) => "Invalid input: "@ + m@,
            SearchError::IndexOutOfBounds(m) => "Index out of bounds: "@ + m@,
            SearchError::Unsupported(m) => "Operation not supported: "@ + m@,
        }
    }

    /// Describes the error in words.
    pub fn to_string(&self) -> (s: String)
        ensures
            s@ == self.message(),
    {
        let mut s = String::new();
        match self {
            SearchError::InvalidInput(m) => {
                s.push_str("Invalid input: ");
                s.push_str(m.as_str());
            },
            SearchError::IndexOutOfBounds(m) => {
                s.push_str("Index out of bounds: ");
                s.push_str(m.as_str());
            },
            SearchError::Unsupported(m) => {
                s.push_str("Operation not supported: ");
                s.push_str(m.as_str());
            },
        }
        proof {
            assert(s@ =~= self.message());
        }
        s
    }
}

/// Errors that can occur during string algorithm operations.
#[derive(Debug)]
pub enum StringError {
    /// The pattern is empty.
    EmptyPattern,
    /// The pattern is longer than the text.
    PatternTooLong { pattern_len: usize, text_len: usize },
    /// Failed to allocate memory for algorithm operations.
    AllocationFailed { reason: String },
    /// Invalid input parameters provided.
    InvalidInput { reason: String },
}

impl StringError {
    /// The text that describes the error.
    pub open spec fn message(&self) -> Seq<char> {
        match self {
            StringError::EmptyPattern => "Pattern cannot be empty"@,
            StringError::PatternTooLong { pattern_len, text_len } => "Pattern length "@ + decimal(
                *pattern_len as nat,
            ) + " is longer than text length "@ + decimal(*text_len as nat),
            StringError::AllocationFailed { reason } => "Failed to allocate memory: "@ + reason@,
            StringError::InvalidInput { reason } => "Invalid input: "@ + reason@,
        }
    }

    /// Describes the error in words.
    pub fn to_string(&self) -> (s: String)
        ensures
            s@ == self.message(),
    {
        let mut s = String::new();
        match self {
            StringError::EmptyPattern => {
                s.push_str("Pattern cannot be empty");
            },
            StringError::PatternTooLong { pattern_len, text_len } => {
                s.push_str("Pattern length ");
                push_decimal(&mut s, *pattern_len);
                s.push_str(" is longer than text length ");
                push_decimal(&mut s, *text_len);
            },
            StringError::AllocationFailed { reason } => {
                s.push_str("Failed to allocate memory: ");
                s.push_str(reason.as_str());
            },
            StringError::InvalidInput { reason } => {
                s.push_str("Invalid input: ");
                s.push_str(reason.as_str());
            },
        }
        proof {
            assert(s@ =~= self.message());
        }
        s
    }

    /// The error for an empty pattern.
    pub fn empty_pattern() -> (e: Self)
        ensures
            e is EmptyPattern,
    {
        StringError::EmptyPattern
    }

    /// The error for a pattern longer than the text.
    pub fn pattern_too_long(pattern_len: usize, text_len: usize) -> (e: Self)
        ensures
            e == (StringError::PatternTooLong { pattern_len, text_len }),
    {
        StringError::PatternTooLong { pattern_len, text_len }
    }

    /// The error for a failed allocation.
    pub fn allocation_failed(reason: &str) -> (e: Self)
        ensures
            e matches StringError::AllocationFailed { reason: r } && r@ == reason@,
    {
        StringError::AllocationFailed { reason: reason.to_owned() }
    }

    /// The error for invalid input.
    pub fn invalid_input(reason: &str) -> (e: Self)
        ensures
            e matches StringError::InvalidInput { reason: r } && r@ == reason@,
    {
        StringError::InvalidInput { reason: reason.to_owned() }
    }
}

} // verus!
