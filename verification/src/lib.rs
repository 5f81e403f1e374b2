//! A Wordle engine: scoring of guesses, filtering of candidate words by
//! feedback, the game state machine, and solvers that play it.

pub mod constraint;
pub mod display;
pub mod game;
pub mod io;
pub mod pick;
pub mod solver;
pub mod solver_strategy;
pub mod util;
