//! Chunked storage and on-demand generation of a two-dimensional cell world.
//!
//! The world is an unbounded grid of cells, stored in square chunks that are
//! generated from a noise field the first time a coordinate inside them is
//! touched. Noise values are carried as signed fixed-point numbers, so that
//! every rule of the terrain is stated and proved over integers.

pub mod cell;
pub mod chunk;
pub mod coords;
pub mod noise;
mod sorting;
pub mod terrain;
pub mod visible;
pub mod world;
