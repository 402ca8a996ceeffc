//! A Rubik's cube simulator and solver for cubes of arbitrary size.
//!
//! Cube state lives in two interchangeable representations: a compact
//! array-backed facelet cube tuned for repeated move application, and a
//! geometric cube whose stickers carry 3D coordinates and which serves as
//! ground truth when deriving the facelet form's move permutations. Both
//! are verified against one mathematical model, so they agree on the state
//! that any move sequence produces. A Thistlethwaite-style multi-phase
//! engine searches for solutions, guided by breadth-first pruning tables;
//! a solution it reports is proven to solve the cube it was asked about.

pub mod facelet_cube;
pub mod generic_cube;
pub mod generic_solver;
pub mod geometric_cube;
pub mod laws;
pub mod masking;
pub mod scramble_parser;
pub mod thistlethwaite;
