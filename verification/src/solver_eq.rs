//! When two solvers stand for the same situation.

use vstd::prelude::*;
use vstd::std_specs::cmp::PartialEqSpecImpl;
use crate::puzzle_solver::PuzzleSolver;

verus! {

/// Two solvers are equal if the player stands in the same place and every
/// piece is pulled out equally far in both. The bound and the counter of
/// the search play no part.
impl<'a> PartialEq for PuzzleSolver<'a> {
    fn eq(&self, other: &Self) -> (same: bool) {
        if self.player_position.x != other.player_position.x || self.player_position.y
            != other.player_position.y {
            return false;
        }
        if self.piece_pull_levels.len() != other.piece_pull_levels.len() {
            return false;
        }
        let mut i: usize = 0;
        while i < self.piece_pull_levels.len()
            invariant
                i <= self.piece_pull_levels.len(),
                self.piece_pull_levels.len() == other.piece_pull_levels.len(),
                self.player_position == other.player_position,
                forall|j: int| 0 <= j < i ==> self.piece_pull_levels@[j] == other.piece_pull_levels@[j],
            decreases self.piece_pull_levels.len() - i,
        {
            if self.piece_pull_levels[i] != other.piece_pull_levels[i] {
                return false;
            }
            i = i + 1;
        }
        assert(self.piece_pull_levels@ =~= other.piece_pull_levels@);
        true
    }
}

impl<'a> PartialEqSpecImpl for PuzzleSolver<'a> {
    open spec fn obeys_eq_spec() -> bool {
        true
    }

    open spec fn eq_spec(&self, other: &Self) -> bool {
        self@ == other@
    }
}

impl<'a> Eq for PuzzleSolver<'a> {

}

} // verus!
