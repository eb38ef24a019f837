//! Exhaustive search for sets of pairwise letter-disjoint words.
//!
//! A catalog of words is turned into bit sets: one letter set per word and,
//! for each letter, the set of words that contain it. A backtracking search
//! then enumerates every selection of [`SEARCH_MAX_DEPTH`] words in which no
//! letter occurs twice, skipping selections it has already visited.

use vstd::prelude::*;

pub mod bits;
pub mod catalog;
pub mod exhaustive;
pub mod progress;
pub mod report;
pub mod search;
pub mod seen;
pub mod traversal;

verus! {

/// Number of letters in the alphabet, `'a'` to `'z'`.
pub const LETTER_COUNT: usize = 26;

/// Code point of the first letter of the alphabet.
pub const LETTER_OFFSET_BASE: u32 = 97;

/// Number of words in a completed combination.
pub const SEARCH_MAX_DEPTH: usize = 5;

/// Number of top-level candidates between two progress events.
pub const FEEDBACK_THRESHOLD: usize = 10;

/// Largest number of words a catalog may hold: every index must be
/// distinguishable from the key sentinel.
pub const MAX_WORDS: usize = 0xffff;

} // verus!
