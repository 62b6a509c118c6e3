//! Verified simulation core for a grid-based multiplayer snake game.
//!
//! The library owns the authoritative board state: a flat grid of cells in
//! which every snake is stored cell by cell (each cell carries the snake id
//! and a body-part index counted from the tail).  The per-tick update rule
//! moves all snakes simultaneously, resolves collisions against the pre-tick
//! grid, and emits the events of the tick.  On top of that sit the placement
//! heuristics for apples and walls, a byte codec for the wire format, and a
//! bounded lookahead search that plays the id-0 snake.

pub mod geom;
pub mod cell;
pub mod grid;
mod rng;
pub mod board;
pub mod snakes;
pub mod spawn;
pub mod tick;
pub mod codec;
mod clock;
pub mod ai;
pub mod commands;
pub mod guns;
pub mod game;
