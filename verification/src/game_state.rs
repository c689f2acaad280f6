use vstd::prelude::*;

verus! {

/// Where the local player currently is: in the lobby, playing a match,
/// or watching another player after being knocked out.
#[derive(Debug, Clone, Copy, PartialEq, Eq, Structural)]
pub enum GameState {
    InLobby,
    Gaming,
    Spectating,
}

} // verus!
