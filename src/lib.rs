//! Search of the 8-puzzle's state space under three frontier disciplines.
pub mod board;
pub mod search_strategies;
pub mod solver;
pub mod stats;
