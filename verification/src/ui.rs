use vstd::prelude::*;

verus! {

/// Messages of the user interface: the user's edits and button presses, the choice of a
/// move in the move table, and the timer tick that polls the running search.
#[derive(Debug, Clone, PartialEq, Eq)]
pub enum Message {
    MoveInputChanged(String),
    StartSearch,
    PauseSearch,
    ResetSearch,
    SelectMove(String),
    Tick,
}

} // verus!
