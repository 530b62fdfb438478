use vstd::prelude::*;

verus! {

/// The state of a board or a cell: still open, drawn, or won by one of the players.
#[derive(Debug, Clone, Copy, PartialEq, Eq, Structural)]
pub enum Value {
    /// The board is still being played
    Undecided,
    /// The board is drawn
    Draw,
    /// The first player has won
    Player1,
    /// The second player has won
    Player2,
}

} // verus!
