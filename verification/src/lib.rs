//! A verified snake-game engine on a square torus grid.
//!
//! The engine owns the grid, the snake body, the current heading and the
//! apple. It advances one step per `tick`, queues heading changes through
//! `change_dir`, and answers cell queries through `get_cell`. Apple
//! placement draws from a random source; everything else is deterministic
//! and fully specified.

pub mod engine;
pub mod laws;
pub mod model;
mod rng;
