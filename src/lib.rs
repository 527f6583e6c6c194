//! A first-order Markov chain over interned symbols: transition counting,
//! normalization into per-node probabilities, and weighted random walks.

pub mod edges;
pub mod chain;
pub mod text;
pub mod vocabulary;
pub mod training;
