//! A verified engine for a grid-based box-pushing puzzle.
//!
//! The `level` module holds the tile map and the mutable play state (the
//! `World`), together with the move/push resolution rules and the win
//! condition. The `game` module holds the surrounding play/win/quit state
//! machine. Rendering and input handling are left to callers.

pub mod game;
pub mod level;
