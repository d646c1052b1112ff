//! The error type shared by the searching and string algorithms.

use std::collections::TryReserveError;
use crate::text::{decimal, push_decimal};
use vstd::prelude::*;

verus! {

/// Errors that can occur during algorithm operations.
#[derive(Debug)]
pub enum Error {
    /// The pattern is empty.
    EmptyPattern,
    /// The pattern is longer than the text.
    PatternTooLong { pattern_len: usize, text_len: usize },
    /// The recursion depth exceeded the maximum.
    RecursionLimitExceeded { depth: usize, max_depth: usize },
    /// Failed to allocate memory.
    AllocationFailed { reason: String, source: Option<TryReserveError> },
    /// A parallel execution task failed.
    ParallelExecutionFailed { reason: String },
    /// The input was too large.
    InputTooLarge { length: usize, max_length: usize },
    /// Index out of bounds.
    IndexOutOfBounds(String),
    /// Operation not supported.
    Unsupported(String),
    /// Invalid input.
    InvalidInput(String),
}

impl Error {
    /// The text that describes the error.
    pub open spec fn message(&self) -> Seq<char> {
        match self {
            Error::EmptyPattern => "Pattern cannot be empty"@,
            Error::PatternTooLong { pattern_len, text_len } => "Pattern length "@ + decimal(
                *pattern_len as nat,
            ) + " is longer than text length "@ + decimal(*text_len as nat),
            Error::RecursionLimitExceeded { depth, max_depth } => "Recursion depth "@ + decimal(
                *depth as nat,
            ) + " exceeded maximum allowed depth of "@ + decimal(*max_depth as nat),
            Error::AllocationFailed { reason, .. } => "Failed to allocate memory: "@ + reason@,
            Error::ParallelExecutionFailed { reason } => "Parallel execution failed: "@ + reason@,
            Error::InputTooLarge { length, max_length } => "Input length "@ + decimal(
                *length as nat,
            ) + " exceeds maximum supported length of "@ + decimal(*max_length as nat),
            Error::IndexOutOfBounds(m) => "Index out of bounds: "@ + m@,
            Error::Unsupported(m) => "Operation not supported: "@ + m@,
            Error::InvalidInput(m) => "Invalid input: "@ + m@,
        }
    }

    /// Describes the error in words.
    pub fn to_string(&self) -> (s: String)
        ensures
            s@ == self.message(),
    {
        let mut s = String::new();
        match self {
            Error::EmptyPattern => {
                s.push_str("Pattern cannot be empty");
            },
            Error::PatternTooLong { pattern_len, text_len } => {
                s.push_str("Pattern length ");
                push_decimal(&mut s, *pattern_len);
                s.push_str(" is longer than text length ");
                push_decimal(&mut s, *text_len);
            },
            Error::RecursionLimitExceeded { depth, max_depth } => {
                s.push_str("Recursion depth ");
                push_decimal(&mut s, *depth);
                s.push_str(" exceeded maximum allowed depth of ");
                push_decimal(&mut s, *max_depth);
            },
            Error::AllocationFailed { reason, .. } => {
                s.push_str("Failed to allocate memory: ");
                s.push_str(reason.as_str());
            },
            Error::ParallelExecutionFailed { reason } => {
                s.push_str("Parallel execution failed: ");
                s.push_str(reason.as_str());
            },
            Error::InputTooLarge { length, max_length } => {
                s.push_str("Input length ");
                push_decimal(&mut s, *length);
                s.push_str(" exceeds maximum supported length of ");
                push_decimal(&mut s, *max_length);
            },
            Error::IndexOutOfBounds(m) => {
                s.push_str("Index out of bounds: ");
                s.push_str(m.as_str());
            },
            Error::Unsupported(m) => {
                s.push_str("Operation not supported: ");
                s.push_str(m.as_str());
            },
            Error::InvalidInput(m) => {
                s.push_str("Invalid input: ");
                s.push_str(m.as_str());
            },
        }
        proof {
            assert(s@ =~= self.message());
        }
        s
    }

    /// The error for an empty pattern.
    pub fn empty_pattern() -> (e: Self)
        ensures
            e is EmptyPattern,
    {
        Error::EmptyPattern
    }

    /// The error for a pattern longer than the text.
    pub fn pattern_too_long(pattern_len: usize, text_len: usize) -> (e: Self)
        ensures
            e == (Error::PatternTooLong { pattern_len, text_len }),
    {
        Error::PatternTooLong { pattern_len, text_len }
    }

    /// The error for a recursion that went too deep.
    pub fn recursion_limit_exceeded(depth: usize, max_depth: usize) -> (e: Self)
        ensures
            e == (Error::RecursionLimitExceeded { depth, max_depth }),
    {
        Error::RecursionLimitExceeded { depth, max_depth }
    }

    /// The error for an input that is too large.
    pub fn input_too_large(length: usize, max_length: usize) -> (e: Self)
        ensures
            e == (Error::InputTooLarge { length, max_length }),
    {
        Error::InputTooLarge { length, max_length }
    }

    /// The error for an invalid input, with a message.
    pub fn invalid_input(msg: &str) -> (e: Self)
        ensures
            e matches Error::InvalidInput(m) && m@ == msg@,
    {
        Error::InvalidInput(msg.to_owned())
    }
}

} // verus!
