//! A solver core for piece-permutation puzzles (for instance a twisty cube).
//!
//! A puzzle position is a sparse permutation: a finite mapping from positions
//! to the pieces that occupy them.  Moves are themselves such permutations;
//! applying a move is composition.  A bounded depth-first search explores all
//! move sequences of a fixed length and reports one that reaches the solved
//! position, and an iterative-deepening driver retries the bounded search at
//! increasing depths.

pub mod puzzle;
pub mod search;
pub mod laws;
