//! A solver for pull-block puzzles: a wall of coloured blocks, each of which
//! can be pulled out of the wall step by step to make ledges, and a player
//! who climbs those ledges to reach a goal.
//!
//! The puzzle is read from text into a [`puzzle_configuration::PuzzleConfiguration`];
//! a [`puzzle_solver::PuzzleSolver`] then searches for a sequence of pulls
//! that brings the goal within the player's reach.

pub mod cell_counting;
pub mod cell_position;
pub mod grid_text;
pub mod move_order;
pub mod moves;
pub mod physics;
pub mod piece_extraction;
pub mod piece_laws;
pub mod player_movement;
pub mod puzzle_configuration;
pub mod puzzle_solver;
pub mod reachability;
pub mod search;
pub mod search_state;
pub mod solver_eq;
pub mod validity;
