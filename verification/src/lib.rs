//! Puzzle solutions over grids, ranges, digit strings and small graphs, with
//! their contracts proved.
pub mod decimal;
pub mod text;
pub mod machines;
pub mod presses;
pub mod ranges;
pub mod ids;
pub mod banks;
pub mod utils;
pub mod dial;
pub mod rolls;
pub mod worksheet;
pub mod beams;
pub mod tiles;
pub mod devices;
pub mod routes;
pub mod presents;
pub mod packing;
pub mod circuits;
pub mod cheatsheet;
pub mod factory;
