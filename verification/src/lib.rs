//! A verified Conway's Game of Life engine on an unbounded integer lattice.
//!
//! The grid is sparse: it tracks only the live cells together with every
//! cell adjacent to a live cell (the "penumbra"), which is exactly the set
//! of cells whose state can change on the next generation.

pub mod model;
pub mod grid;
pub mod engine;
