//! Exact letter-multiset decomposition of a target word into candidate words.
//!
//! A `vector::Occurrences` counts how often each of the 26 Latin letters
//! appears in a string (case-insensitively).  The search engine in `search`
//! enumerates every way to cover a target word's letter counts exactly by
//! summing candidate words' counts, each candidate usable any number of times.

pub mod search;
pub mod vector;
