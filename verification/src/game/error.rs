use vstd::prelude::*;

verus! {

/// Why a move, an undo or a write into a board was refused.
#[derive(Debug, Clone, Copy, PartialEq, Eq, Structural)]
pub enum GameError {
    /// The move lies outside the board where the next move must be played
    NotInPlay,
    /// The move lies in a board that is already won or drawn
    BoardCompleted,
    /// The move names a whole board rather than a cell
    IsBoard,
    /// The cell already holds a mark
    Filled,
    /// The path goes through a cell that is not a board
    NoCellAtDepth,
    /// There is no move to take back
    NoMoveToUnplay,
}

impl GameError {
    /// A sentence that describes the error.
    pub fn message(&self) -> (r: &'static str)
        ensures
            r@ == self.spec_message()@,
    {
        match self {
            GameError::NotInPlay => "Illegal move: Move is not within bounds of current play",
            GameError::BoardCompleted => "Illegal move: Board already completed",
            GameError::IsBoard => "Illegal move: That's a board",
            GameError::Filled => "Illegal move: Cell already filled",
            GameError::NoCellAtDepth => "No cell at specified depth",
            GameError::NoMoveToUnplay => "No move to unplay",
        }
    }

    pub open spec fn spec_message(&self) -> &'static str {
        match self {
            GameError::NotInPlay => "Illegal move: Move is not within bounds of current play",
            GameError::BoardCompleted => "Illegal move: Board already completed",
            GameError::IsBoard => "Illegal move: That's a board",
            GameError::Filled => "Illegal move: Cell already filled",
            GameError::NoCellAtDepth => "No cell at specified depth",
            GameError::NoMoveToUnplay => "No move to unplay",
        }
    }
}

} // verus!
