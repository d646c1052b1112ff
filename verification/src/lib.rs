//! Classic searching, sorting and string-matching algorithms, together with a
//! context-free-grammar recognizer, each stated and proved against a
//! mathematical model.

pub mod algorithms;
pub mod cs;
pub mod error;
pub mod laws;
pub mod ml;
pub mod nlp;
pub mod order;
pub mod pattern;
pub mod permutation;
pub mod text;
