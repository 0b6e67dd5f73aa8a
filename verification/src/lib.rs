//! A solver for the generalized sliding-tile puzzle.
//!
//! An `n`-by-`n` board holds the labels `0..n*n`, label 0 being the blank. A
//! move exchanges the blank with a tile next to it. The goal arrangement has
//! the labels from 1 on along the inward spiral that starts in the top-left
//! corner, and the blank on the cell where the spiral ends. The solver looks
//! for a shortest sequence of moves from a board to the goal by best-first
//! search, guided by one of four estimates.
//!
//! The modules, from the leaves up:
//!
//! - `position`: cells and unit moves;
//! - `spiral`: the spiral walk and its shape;
//! - `board`: boards, moves and successors;
//! - `loader`: the text form of a puzzle;
//! - `text`, `report`: boards, counts and results as text;
//! - `heuristics`: the estimates and what is proved of them;
//! - `queue`, `board_map`, `sorted_set`: the frontier and the closed set;
//! - `parity`: inversions and the rule that admits a board to the search;
//! - `search`: the search as a transition system over mathematical values;
//! - `optimal`: why the search finds a shortest way, and why it is exhausted
//!   only where no way exists;
//! - `solver`: the executable search, proved to follow `search`.

pub mod position;
pub mod spiral;
pub mod board;
pub mod loader;
pub mod text;
pub mod report;
pub mod heuristics;
pub mod queue;
pub mod board_map;
pub mod parity;
pub mod search;
pub mod optimal;
pub mod solver;
pub mod sorted_set;
