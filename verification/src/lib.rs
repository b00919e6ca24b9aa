//! Logic engine for a grid-based mine-clearing puzzle game.
//!
//! The engine owns the board state: it places mines (keeping the first
//! revealed tile safe), interprets player actions (flag and dig), and
//! advances the board through a deferred, tick-based flood reveal.
//! Rendering and input translation are left to the embedding program.

pub mod adjacency;
pub mod board;
pub mod counting;
mod rng;
