//! Sliding-tile puzzles on an N×N grid: moves, the inversion-parity
//! solvability test, the solved-state test, and a random generator and walker.

pub mod board;
pub mod solvability;
pub mod rng;
pub mod generator;
pub mod walker;

pub use board::{find_blank, is_solved, make_move, Direction, MAX_SIDE};
pub use generator::{generate_random_board, generate_solvable_board, layout_board};
pub use solvability::is_solvable;
pub use walker::{draw_bound, make_random_moves, pick_direction, walk_step, RetryPolicy};
