//! Optimal solving of the Square-1 puzzle: a model of its configurations and
//! moves, three symmetry-reduced indexings of the state space, the
//! breadth-first generator of the slice-count table, and the search that turns
//! the table into a move sequence.
pub mod counting;
pub mod notation;
pub mod perform;
pub mod robot;
pub mod solver;
pub mod square1;
pub mod state;
pub mod table;
pub mod text;
pub mod turns;
