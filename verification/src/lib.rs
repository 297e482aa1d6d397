//! Trainer core for a two-player, imperfect-information tic-tac-toe variant:
//! each player privately prefers one of the three final outcomes and is scored
//! by whether the realized outcome matches that preference. This crate holds
//! the verified parts: the game rules, the canonical state graph the trainer
//! walks, the board rotations the presentation layer plays under, and the
//! bit-exact compact strategy format with its encoder and decoder.

pub mod codec;
pub mod game;
pub mod graph;
pub mod jsffi;
pub mod rotation;
pub mod strategy;
