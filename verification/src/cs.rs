//! Searching, sorting and string algorithms.

pub mod error;
pub mod search;
pub mod sort;
pub mod string;
