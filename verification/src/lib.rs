//! Puzzle model for Hashiwokakero ("Bridges") on a triangular grid:
//! grid topology, puzzle generation, derivation of the placeable bridges,
//! and the operations that cycle bridges and decide whether a puzzle is solved.
pub mod bridges;
pub mod difficulty;
pub mod generate;
pub mod grid;
pub mod hashi;
pub mod hex;
pub mod random;
pub mod render;
pub mod solve;
