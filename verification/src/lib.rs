//! An n×n sliding-tile puzzle and a breadth-first solver for it.
//!
//! * [`grid`] holds a square grid addressed by row and column.
//! * [`notation`] reads and writes the numbers of a layout given as text.
//! * [`taquin`] holds the tiles, the moves and the puzzle state.
//! * [`solver`] holds the search engine, which works on any [`solver::Problem`].
pub mod grid;
pub mod notation;
mod random;
pub mod solver;
pub mod taquin;
