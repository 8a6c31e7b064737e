//! Generalised Sudoku for any block size: the board and its geometry, the
//! candidates of its cells, solvers that fill in forced values, solvers that
//! search, and a generator of puzzles. Every function is verified against
//! its contract; what is taken on trust of the thread pool and of the random
//! number generator stands in `pool` and `random`.

pub mod geometry;
pub mod grid;
pub mod board;
pub mod equality;
pub mod text;
pub mod hintmap;
pub mod solver;
pub mod solutions;
pub mod confluence;
pub mod branching;
pub mod search;
pub mod generator;
pub mod pool;
pub mod random;
