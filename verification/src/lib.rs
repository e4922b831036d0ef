//! A verified solver for the Letter Boxed word puzzle.
//!
//! A puzzle consists of a square frame with four sides of letters.  The
//! solver finds short chains of dictionary words that together use every
//! letter of the frame, where each word may only step between different
//! sides of the frame and each word must start with the previous word's
//! last letter.

pub mod letterbox;
pub mod trie;
pub mod words;
pub mod graph;
pub mod search;
pub mod rank;
