//! Recursive noughts and crosses ("super" tic-tac-toe at any depth), with a Monte Carlo
//! tree search player.
pub mod game;
pub mod styles;
pub mod common;
pub mod ui;
pub mod ai;
pub mod export;
