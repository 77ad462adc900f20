//! Fuzzy subsequence matching over a growing set of word tokens and over
//! directory entry names.
pub mod errors;
pub mod text;
pub mod matcher;
pub mod order;
pub mod token;
pub mod ranker;
pub mod protocol;
