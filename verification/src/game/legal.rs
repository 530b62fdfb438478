use vstd::prelude::*;

verus! {

/// The legal region handed down while a board is drawn.
#[derive(PartialEq, Clone, Copy)]
pub enum Legal<'a> {
    /// The relative coordinates of the legal board
    Pos(&'a [usize]),
    /// There are no legal moves below this point.
    Nowhere,
    /// Forces the default board background colour.
    ForceDefaultBg,
}

} // verus!
