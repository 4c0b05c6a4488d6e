//! A collection of puzzle solvers, each specified and proved: byte-level
//! parsers with sequence-level contracts, grid and counting algorithms, and
//! at their center a small verified geometry engine that finds the largest
//! fully covered rectangle in a cyclic chain of rooms — coordinate
//! compression, room rasterization, an exterior flood fill, a 2-D
//! prefix-sum index and a pairwise coverage search, with the laws tying the
//! phases together proved alongside.

pub mod text;
pub mod util;
pub mod year2023;
pub mod year2025;
