//! String algorithms.

pub mod kmp;
pub mod manacher;
pub mod rolling_hash;
pub mod suffix_array;
pub mod suffix_order;
pub mod suffix_automaton;
pub mod suffix_tree;
pub mod z_algorithm;
