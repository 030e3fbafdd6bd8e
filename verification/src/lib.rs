//! A fuzzy name-search library: Levenshtein edit distance over byte
//! sequences, whitespace-token matching, and a threshold-filtered,
//! stable-ranked, bounded search over an immutable corpus.

pub mod distance;
pub mod engine;
pub mod matcher;
