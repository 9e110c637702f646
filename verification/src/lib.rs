//! An in-memory dictionary index: a prefix tree (trie) over characters with
//! exact insertion and removal of words and approximate lookup by bounded
//! Levenshtein edit distance.

pub mod dist;
pub mod laws;
pub mod search;
pub mod trie;
