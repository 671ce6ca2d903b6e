//! A single-player Mancala (Kalah, avalanche variant) what-if analyzer.
//!
//! A board snapshot is explored under the sowing rules (free turns on landing
//! in the own store, forced continuation when landing in an occupied pit,
//! terminal detection), and a depth-bounded search reports the line that
//! banks the most stones in the own store.

pub mod board;
pub mod search;
