//! A word-adjacency graph built from a token stream, with random walks over it
//! that produce new token sequences.

pub mod graph;
pub mod laws;
pub mod model;
mod random;
