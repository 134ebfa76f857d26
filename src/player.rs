//! Sides and move decisions.

use vstd::prelude::*;

verus! {

/// A colour.
#[derive(Clone, Copy, Debug, PartialEq, Eq, Structural)]
pub enum TurnPlayer {
    Black,
    White,
}

impl TurnPlayer {
    pub open spec fn other(self) -> TurnPlayer {
        match self {
            TurnPlayer::Black => TurnPlayer::White,
            TurnPlayer::White => TurnPlayer::Black,
        }
    }

    /// The other colour.
    pub fn flip(&self) -> (r: TurnPlayer)
        ensures
            r == self.other(),
    {
        match self {
            TurnPlayer::Black => TurnPlayer::White,
            TurnPlayer::White => TurnPlayer::Black,
        }
    }
}

/// A move decision. Strategies return only `Pvmove` (a placement, as a
/// single-square mask) or `Passmove`; `Endnode` and `Nonenode` mark search
/// results that carry no move.
#[derive(Clone, Copy, Debug, PartialEq, Eq, Structural)]
pub enum Pmove {
    Pvmove(u64),
    Passmove,
    Endnode,
    Nonenode,
}

} // verus!
