//! Natural-language processing: tokenizing text and recognizing sentences
//! of a context-free grammar.

pub mod cyk;
pub mod error;
pub mod utils;
