//! Tests of what the solver asks of its callers, for callers that cannot
//! know: a puzzle or a solver that was put together by hand, a movement
//! that comes from elsewhere.

use vstd::prelude::*;
use crate::cell_position::{holds_cell, CellPosition};
use crate::physics::MAX_PULL;
use crate::player_movement::{MoveUndo, PlayerMovement};
use crate::puzzle_configuration::{
    cell, cell_lists, is_grid, owner_at, PuzzleConfiguration, MAX_CELLS, NO_PIECE,
};
use crate::puzzle_solver::PuzzleSolver;

verus! {

/// Whether every entry of `owners` that a reader meets before column `x0`
/// of row `y0` is a hole or the index of a list that holds the cell.
pub open spec fn entries_listed_before(
    lists: Seq<Seq<CellPosition>>,
    owners: Seq<Vec<i32>>,
    x0: int,
    y0: int,
) -> bool {
    forall|x: int, y: int|
        #![trigger owner_at(owners, x, y)]
        y < y0 || (y == y0 && x < x0) ==> {
            &&& NO_PIECE <= owner_at(owners, x, y) < lists.len()
            &&& owner_at(owners, x, y) >= 0 ==> lists[owner_at(owners, x, y)].contains(cell(x, y))
        }
}

/// Whether the first `i0` cells of list `k` are distinct and have `k` as
/// their entry in `owners`.
pub open spec fn list_owned_upto(
    lists: Seq<Seq<CellPosition>>,
    owners: Seq<Vec<i32>>,
    k: int,
    i0: int,
) -> bool {
    &&& forall|i: int|
        #![trigger lists[k][i]]
        0 <= i < i0 ==> owner_at(owners, lists[k][i].x as int, lists[k][i].y as int) == k
    &&& forall|i: int, j: int| 0 <= i < j < i0 ==> lists[k][i] != lists[k][j]
}

impl PuzzleConfiguration {
    /// Whether every entry of the lookup is a hole or names a piece that
    /// has the cell.
    fn entries_are_listed(&self) -> (ok: bool)
        requires
            self.height >= 1,
            self.width >= 0,
            is_grid(self.cell_to_piece_matrix@, self.width as int, self.height as int),
            self.pieces.len() <= i32::MAX,
        ensures
            ok == entries_listed_before(
                cell_lists(self.pieces@),
                self.cell_to_piece_matrix@,
                0,
                self.height as int,
            ),
    {
        let ghost lists = cell_lists(self.pieces@);
        let ghost owners = self.cell_to_piece_matrix@;
        let mut y: usize = 0;
        while y < self.cell_to_piece_matrix.len()
            invariant
                lists == cell_lists(self.pieces@),
                owners == self.cell_to_piece_matrix@,
                is_grid(owners, self.width as int, self.height as int),
                self.height >= 1,
                self.width >= 0,
                self.pieces.len() <= i32::MAX,
                y <= self.height,
                entries_listed_before(lists, owners, 0, y as int),
            decreases self.height - y,
        {
            let mut x: usize = 0;
            while x < self.cell_to_piece_matrix[y].len()
                invariant
                    lists == cell_lists(self.pieces@),
                    owners == self.cell_to_piece_matrix@,
                    is_grid(owners, self.width as int, self.height as int),
                    self.height >= 1,
                    self.width >= 0,
                    self.pieces.len() <= i32::MAX,
                    y < self.height,
                    x <= self.width,
                    entries_listed_before(lists, owners, x as int, y as int),
                decreases self.width - x,
            {
                let k: i32 = self.cell_to_piece_matrix[y][x];
                assert(owner_at(owners, x as int, y as int) == k);
                if k < NO_PIECE || (k >= 0 && k as usize >= self.pieces.len()) {
                    return false;
                }
                if k >= 0 {
                    let here = CellPosition { x: x as i32, y: y as i32 };
                    assert(lists[k as int] == self.pieces@[k as int].cells@);
                    if !holds_cell(&self.pieces[k as usize].cells, here) {
                        return false;
                    }
                }
                x = x + 1;
            }
            proof {
                assert forall|x2: int, y2: int|
                    #![trigger owner_at(owners, x2, y2)]
                    y2 < y + 1 || (y2 == y + 1 && x2 < 0) implies {
                    &&& NO_PIECE <= owner_at(owners, x2, y2) < lists.len()
                    &&& owner_at(owners, x2, y2) >= 0 ==> lists[owner_at(owners, x2, y2)].contains(
                        cell(x2, y2),
                    )
                } by {
                    if y2 == y && x2 >= x {
                        assert(owner_at(owners, x2, y2) == NO_PIECE);
                    }
                }
            }
            y = y + 1;
        }
        proof {
            assert forall|x2: int, y2: int|
                #![trigger owner_at(owners, x2, y2)]
                true implies {
                &&& NO_PIECE <= owner_at(owners, x2, y2) < lists.len()
                &&& owner_at(owners, x2, y2) >= 0 ==> lists[owner_at(owners, x2, y2)].contains(
                    cell(x2, y2),
                )
            } by {
                if y2 >= self.height {
                    assert(owner_at(owners, x2, y2) == NO_PIECE);
                }
            }
        }
        true
    }

    /// Whether piece `k` is not empty, names no cell twice, and is named by
    /// the lookup for each of its cells.
    #[verifier::loop_isolation(false)]
    fn piece_is_owned(&self, k: usize) -> (ok: bool)
        requires
            self.height >= 1,
            self.width >= 0,
            is_grid(self.cell_to_piece_matrix@, self.width as int, self.height as int),
            k < self.pieces.len() <= i32::MAX,
        ensures
            ok == (self.pieces@[k as int].cells@.len() > 0 && list_owned_upto(
                cell_lists(self.pieces@),
                self.cell_to_piece_matrix@,
                k as int,
                self.pieces@[k as int].cells@.len() as int,
            )),
    {
        let ghost lists = cell_lists(self.pieces@);
        let ghost owners = self.cell_to_piece_matrix@;
        let list = &self.pieces[k].cells;
        assert(lists[k as int] == list@);
        if list.len() == 0 {
            return false;
        }
        let mut i: usize = 0;
        while i < list.len()
            invariant
                lists == cell_lists(self.pieces@),
                owners == self.cell_to_piece_matrix@,
                is_grid(owners, self.width as int, self.height as int),
                self.height >= 1,
                self.width >= 0,
                k < self.pieces.len() <= i32::MAX,
                lists[k as int] == list@,
                i <= list.len(),
                list_owned_upto(lists, owners, k as int, i as int),
            decreases list.len() - i,
        {
            let c = list[i];
            if c.x < 0 || c.x >= self.width || c.y < 0 || c.y >= self.height {
                assert(owner_at(
                    owners,
                    lists[k as int][i as int].x as int,
                    lists[k as int][i as int].y as int,
                ) == NO_PIECE);
                return false;
            }
            if self.cell_to_piece_matrix[c.y as usize][c.x as usize] != k as i32 {
                assert(owner_at(
                    owners,
                    lists[k as int][i as int].x as int,
                    lists[k as int][i as int].y as int,
                ) != k);
                return false;
            }
            let mut j: usize = 0;
            while j < i
                invariant
                    lists[k as int] == list@,
                    j <= i < list.len(),
                    c == list@[i as int],
                    forall|t: int| 0 <= t < j ==> list@[t] != c,
                decreases i - j,
            {
                if list[j].x == c.x && list[j].y == c.y {
                    assert(lists[k as int][j as int] == lists[k as int][i as int]);
                    return false;
                }
                j = j + 1;
            }
            i = i + 1;
        }
        true
    }

    /// Whether this puzzle is well formed.
    pub fn is_well_formed(&self) -> (ok: bool)
        ensures
            ok == self.wf(),
    {
        if self.height < 1 || self.width < 0 {
            return false;
        }
        if self.cell_to_piece_matrix.len() != self.height as usize {
            return false;
        }
        let mut y: usize = 0;
        while y < self.cell_to_piece_matrix.len()
            invariant
                y <= self.cell_to_piece_matrix.len(),
                self.width >= 0,
                forall|t: int|
                    0 <= t < y ==> (#[trigger] self.cell_to_piece_matrix@[t]).len() == self.width,
            decreases self.cell_to_piece_matrix.len() - y,
        {
            if self.cell_to_piece_matrix[y].len() != self.width as usize {
                return false;
            }
            y = y + 1;
        }
        if self.pieces.len() > MAX_CELLS {
            return false;
        }
        if !self.entries_are_listed() {
            return false;
        }
        let ghost lists = cell_lists(self.pieces@);
        let ghost owners = self.cell_to_piece_matrix@;
        let mut k: usize = 0;
        while k < self.pieces.len()
            invariant
                lists == cell_lists(self.pieces@),
                owners == self.cell_to_piece_matrix@,
                is_grid(owners, self.width as int, self.height as int),
                self.height >= 1,
                self.width >= 0,
                self.pieces.len() <= i32::MAX,
                k <= self.pieces.len(),
                entries_listed_before(lists, owners, 0, self.height as int),
                forall|t: int|
                    0 <= t < k ==> (#[trigger] lists[t]).len() > 0 && list_owned_upto(
                        lists,
                        owners,
                        t,
                        lists[t].len() as int,
                    ),
            decreases self.pieces.len() - k,
        {
            assert(lists[k as int] == self.pieces@[k as int].cells@);
            if !self.piece_is_owned(k) {
                return false;
            }
            k = k + 1;
        }
        proof {
            assert forall|x: int, y: int|
                NO_PIECE <= #[trigger] owner_at(owners, x, y) < lists.len() by {
                if y >= self.height {
                    assert(owner_at(owners, x, y) == NO_PIECE);
                }
            }
            assert forall|x: int, y: int|
                #![trigger owner_at(owners, x, y)]
                owner_at(owners, x, y) >= 0 implies lists[owner_at(owners, x, y)].contains(
                cell(x, y),
            ) by {}
        }
        true
    }
}

impl<'a> PuzzleSolver<'a> {
    /// Whether this solver is well formed.
    pub fn is_well_formed(&self) -> (ok: bool)
        ensures
            ok == self.wf(),
    {
        if !self.config.is_well_formed() {
            return false;
        }
        if self.piece_pull_levels.len() != self.config.pieces.len() {
            return false;
        }
        let mut k: usize = 0;
        while k < self.piece_pull_levels.len()
            invariant
                k <= self.piece_pull_levels.len(),
                forall|t: int| 0 <= t < k ==> 0 <= #[trigger] self.piece_pull_levels@[t] <= MAX_PULL,
            decreases self.piece_pull_levels.len() - k,
        {
            if self.piece_pull_levels[k] < 0 || self.piece_pull_levels[k] > MAX_PULL {
                return false;
            }
            k = k + 1;
        }
        true
    }

    /// Whether the movement `m` can be made as things stand: it moves a
    /// piece that there is, and not beyond where a piece can go.
    pub fn admits_move(&self, m: &PlayerMovement) -> (ok: bool)
        ensures
            ok == self@.admits(*m),
    {
        if m.piece_index < 0 || m.piece_index as usize >= self.piece_pull_levels.len() {
            return false;
        }
        let level: i8 = self.piece_pull_levels[m.piece_index as usize];
        if m.pull_out {
            0 <= level && level < MAX_PULL
        } else {
            0 < level && level <= MAX_PULL
        }
    }

    /// Whether `undo` can be made as things stand.
    pub fn admits_undo(&self, undo: &MoveUndo) -> (ok: bool)
        ensures
            ok == self@.admits_undo(*undo),
    {
        if undo.piece_index < 0 || undo.piece_index as usize >= self.piece_pull_levels.len() {
            return false;
        }
        let level: i8 = self.piece_pull_levels[undo.piece_index as usize];
        if undo.pull_out {
            0 < level && level <= MAX_PULL
        } else {
            0 <= level && level < MAX_PULL
        }
    }
}

} // verus!
