//! Verified solvers for a collection of grid and text puzzles, centred on a
//! deterministic turn-based combat simulator on a 2-D grid.

pub mod combat;
pub mod day01;
pub mod day02;
pub mod day05;
pub mod day08;
pub mod day12;
pub mod day14;
pub mod day15;
pub mod text;
