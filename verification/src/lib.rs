//! A two-player territory-claiming grid game.
//!
//! Players move on a rectangular grid, leave permanent trails behind them,
//! collect power-ups, and are eliminated by collisions or unarmored damage.
//! The board exposes a pure state-transition function; controllers choose
//! moves, the strongest of them by a time-bounded best-first adversarial
//! search driven by a flood-fill territory heuristic.

pub mod board;
pub mod game;
pub mod player;
pub mod player_controller;
pub mod position;
pub mod power_up;
