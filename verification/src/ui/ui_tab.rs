use vstd::prelude::*;

verus! {

/// The tabs of the side panel.
#[derive(Debug, Clone, Copy, PartialEq, Eq, Structural)]
pub enum UITab {
    Game,
    Settings,
    Keybinds,
    Symbols,
    /// No tab is open
    Closed,
}

} // verus!
