//! Rule engine for a Minesweeper game.
//!
//! A rectangular grid of cells hides a fixed number of mines.  Mines are
//! placed lazily on the first reveal, so that the first click can never hit
//! one.  Revealing an empty cell cascades through its connected empty region,
//! a "chord" gesture opens the neighbours of a satisfied number cell, and a
//! small state machine (Ready, Playing, Win, Loose) ties the grid to a timer
//! and a mine counter.  Everything pixel-level (drawing, windowing, the event
//! loop) lives outside this crate; the types here work on grid coordinates
//! and plain values only.

pub mod cell;
pub mod field;
pub mod game;
mod rng;
