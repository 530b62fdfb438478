use vstd::prelude::*;

verus! {

/// The text box that typed digits go into.
#[derive(Debug, Clone, Copy, PartialEq, Eq, Structural)]
pub enum Textbox {
    /// The Max Sims textbox
    MaxSims,
    /// The Max Time textbox
    MaxTime,
    /// No textbox selected
    Unfocused,
}

} // verus!
