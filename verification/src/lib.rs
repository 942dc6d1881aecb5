//! Structural diff of two byte sequences through a learned vocabulary of
//! recurring byte patterns.
//!
//! Two interchangeable trainers build the vocabulary: an iterative byte-pair
//! encoder that can be driven one merge at a time, and a Re-Pair trainer that
//! keeps an index of pair locations and a priority queue of pair counts. A
//! greedy matcher aligns two encoded sequences, and the diff assembler turns
//! the alignment into cell streams for a hex viewer.

pub mod bpe;
pub mod collections;
pub mod counts;
pub mod diff;
pub mod engine;
pub mod hex_view;
pub mod index;
pub mod matcher;
pub mod pairs;
pub mod re_pair;
pub mod recode;
pub mod sizes;
pub mod token;
pub mod training;
pub mod utils;
pub mod vocabulary;
