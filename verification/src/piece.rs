//! Piece kinds and teams.

use vstd::prelude::*;

verus! {

#[derive(Debug, Clone, Copy, PartialEq, Eq, Structural)]
pub enum PieceKind {
    King,
    Queen,
    Rook,
    Bishop,
    Knight,
    Pawn,
}

#[derive(Debug, Clone, Copy, PartialEq, Eq, Structural)]
pub enum Team {
    White,
    Black,
}

impl Team {
    /// The other team.
    pub open spec fn spec_enemy(self) -> Team {
        match self {
            Team::Black => Team::White,
            Team::White => Team::Black,
        }
    }

    /// The other team.
    #[verifier::when_used_as_spec(spec_enemy)]
    pub fn enemy(self) -> (t: Team)
        ensures
            t == self.spec_enemy(),
    {
        match self {
            Team::Black => Team::White,
            Team::White => Team::Black,
        }
    }
}

/// What stands on an occupied square.
#[derive(Debug, Clone, Copy, PartialEq, Eq, Structural)]
pub struct PieceInfo {
    pub kind: PieceKind,
    pub team: Team,
}

} // verus!
