//! A solver for a Bananagrams-style tile puzzle: it lays out chains of
//! parallel words whose junctions form valid two-letter words.
pub mod tiles;
pub mod corpus;
pub mod board;
pub mod session;
pub mod pool;
pub mod render;
pub mod command;
