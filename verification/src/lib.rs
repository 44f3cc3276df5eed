//! A Chinese chess (xiangqi) engine core: board representation, move
//! generation, evaluation and search tables, with machine-checked contracts.

pub mod common;
pub mod lines;
pub mod pst;
pub mod zobrist;
pub mod position;
pub mod heuristic;
pub mod moves;
pub mod evaluate;
pub mod timer;
pub mod fen;
pub mod search;
