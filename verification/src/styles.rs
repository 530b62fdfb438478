//! Default settings of the game and of the computer player.
use vstd::prelude::*;

verus! {

/// The default depth of the board
pub const BOARD_DEFAULT_DEPTH: usize = 2;

/// The default number of human players
pub const BOARD_DEFAULT_PLAYERS: usize = 2;

/// The default time, in seconds, that the computer may think about a move
pub const DEFAULT_MAX_TIME: usize = 10;

/// Simulations per move of the weakest computer player (before depth scaling)
pub const COMPUTER_LEVEL_1_SIMS: usize = 15;

/// Simulations per move of the middle computer player (before depth scaling)
pub const COMPUTER_LEVEL_2_SIMS: usize = 30;

/// Simulations per move of the strongest computer player (before depth scaling)
pub const COMPUTER_LEVEL_3_SIMS: usize = 100;

/// The factor by which the simulations grow with each level of depth
pub const COMPUTER_SIM_SCALING: usize = 6;

/// The default strength of the computer player
pub const COMPUTER_DEFAULT_STRENGTH: usize = 2;

} // verus!
