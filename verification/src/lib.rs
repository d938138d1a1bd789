//! A multiplayer Texas Hold'em table engine: a card model, a seven-card hand
//! evaluator, a betting-round state machine over a multi-seat table, a bot
//! decision heuristic, and a simplified two-party auto-play engine.
//!
//! Randomness, clocks and identifier generation come from outside crates and
//! are isolated in the `platform` module; everything else is verified.

pub mod cards;
pub mod eval;
pub mod text;
pub mod engine;
pub mod table;
pub mod bot;
pub(crate) mod platform;
