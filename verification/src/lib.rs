//! Verified core of chess-meta: a human-exploiting MCTS search toolkit.

pub mod coordinator;
pub mod engine;
pub mod nn;
pub mod position;
pub mod search;
pub mod text;
pub mod ui;
