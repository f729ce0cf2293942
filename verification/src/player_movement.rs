use vstd::prelude::*;
use crate::cell_position::CellPosition;

verus! {

/// One action of the player: standing at `player_position`, move the piece
/// `piece_index` one step, out of the wall if `pull_out` and back in if not.
///
/// `score` orders the candidates of one search step; higher is better.
#[derive(PartialEq, Eq, Structural, Clone, Copy, Debug)]
pub struct PlayerMovement {
    pub player_position: CellPosition,
    pub piece_index: i32,
    pub pull_out: bool,
    pub score: i64,
}

/// What it takes to take a movement back: where the player stood before
/// it, and which piece it moved which way.
#[derive(PartialEq, Eq, Structural, Clone, Copy, Debug)]
pub struct MoveUndo {
    pub player_position: CellPosition,
    pub piece_index: i32,
    pub pull_out: bool,
}

} // verus!
