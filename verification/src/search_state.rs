//! The part of a puzzle that changes while it is being solved.

use vstd::prelude::*;
use crate::cell_position::CellPosition;
use crate::physics::MAX_PULL;
use crate::player_movement::{MoveUndo, PlayerMovement};

verus! {

/// Where the player stands and how far each piece is pulled out. Two
/// situations of one puzzle are the same if and only if their states are
/// equal.
pub struct SearchState {
    pub player: CellPosition,
    pub levels: Seq<i8>,
}

impl SearchState {
    /// Whether `m` moves a piece that there is, from a level from 0 to
    /// [`MAX_PULL`] to another such level.
    pub open spec fn admits(self, m: PlayerMovement) -> bool {
        &&& 0 <= m.piece_index < self.levels.len()
        &&& if m.pull_out {
            0 <= self.levels[m.piece_index as int] < MAX_PULL
        } else {
            0 < self.levels[m.piece_index as int] <= MAX_PULL
        }
    }

    /// The state after `m`: the player stands where `m` is made, and the
    /// piece is one step further out or in.
    pub open spec fn after(self, m: PlayerMovement) -> SearchState {
        let level = self.levels[m.piece_index as int];
        SearchState {
            player: m.player_position,
            levels: self.levels.update(
                m.piece_index as int,
                if m.pull_out {
                    (level + 1) as i8
                } else {
                    (level - 1) as i8
                },
            ),
        }
    }

    /// What takes `m` back once it has been made in this state.
    pub open spec fn undo_of(self, m: PlayerMovement) -> MoveUndo {
        MoveUndo { player_position: self.player, piece_index: m.piece_index, pull_out: m.pull_out }
    }

    /// Whether `undo` moves a piece that there is, from a level from 0 to
    /// [`MAX_PULL`] back to another such level.
    pub open spec fn admits_undo(self, undo: MoveUndo) -> bool {
        &&& 0 <= undo.piece_index < self.levels.len()
        &&& if undo.pull_out {
            0 < self.levels[undo.piece_index as int] <= MAX_PULL
        } else {
            0 <= self.levels[undo.piece_index as int] < MAX_PULL
        }
    }

    /// The state after `undo`: the player is back where the undone movement
    /// started from, and the piece is back where it was.
    pub open spec fn before(self, undo: MoveUndo) -> SearchState {
        let level = self.levels[undo.piece_index as int];
        SearchState {
            player: undo.player_position,
            levels: self.levels.update(
                undo.piece_index as int,
                if undo.pull_out {
                    (level - 1) as i8
                } else {
                    (level + 1) as i8
                },
            ),
        }
    }
}

/// Making a movement and at once taking it back leaves the state as it
/// was: the player in the same place and every piece at the same level.
pub proof fn lemma_undo_restores(state: SearchState, m: PlayerMovement)
    requires
        state.admits(m),
    ensures
        state.after(m).admits_undo(state.undo_of(m)),
        state.after(m).before(state.undo_of(m)) == state,
{
    assert(state.after(m).before(state.undo_of(m)).levels =~= state.levels);
}

} // verus!
