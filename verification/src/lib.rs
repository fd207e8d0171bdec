//! Nearest-neighbor color search over a small palette of byte-coordinate
//! points: a median-split spatial tree built once from the palette, then
//! repeated closest-point queries with descent and backtracking.

pub mod kd_tree;
pub mod modtile;
