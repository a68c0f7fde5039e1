//! Breadth-first exploration of the configurations of two stacks under a
//! fixed set of moves, and extraction of shortest sorting sequences.
pub mod ops;
pub mod state;
pub mod count;
pub mod search;
pub mod order;
pub mod solve;
