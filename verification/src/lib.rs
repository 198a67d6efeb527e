//! A verified engine for five-in-a-row on a rectangular grid.
//!
//! The crate has two halves: a board/state engine (grid representation,
//! incremental win detection, tactical forced-move extraction, legal-move
//! generation and a heuristic evaluator) and a Monte-Carlo tree search
//! engine that uses the state engine to pick moves under a time budget.

pub mod board;
pub mod patterns;
pub mod threats;
pub mod wins;
pub mod heuristic;
pub mod random;
pub mod mcts;
pub mod parse;
