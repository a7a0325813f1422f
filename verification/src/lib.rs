//! A 9x9 Sudoku constraint-solving library.
//!
//! The library models the board as 81 flat cell indices, candidate domains as
//! 9-bit masks, and offers several interchangeable solving strategies over one
//! shared board abstraction: constraint propagation (`assign` / `eliminate`),
//! a deduction rule engine, backtracking search, and simulated annealing.

pub mod anneal;
pub mod board;
pub mod domain;
pub mod names;
pub mod init;
pub mod propagate;
pub mod rules;
pub mod score;
pub mod search;
pub mod solver;
pub mod topology;
