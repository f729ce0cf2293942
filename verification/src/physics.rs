//! How far the cells stick out of the wall, and where the player can stand.
//!
//! Every piece is pulled out of the wall by 0 to [`MAX_PULL`] steps. The
//! ground in front of the wall, one row below the grid, counts as pulled out
//! by [`GROUND_LEVEL`]. The player can stand in front of a cell if the cell
//! below sticks out further than the cell itself, and anywhere on the bottom
//! row of the grid.

use vstd::prelude::*;
use crate::cell_position::CellPosition;
use crate::puzzle_configuration::{cell, PuzzleConfiguration, NO_PIECE};

verus! {

/// How far a piece can be pulled out.
pub const MAX_PULL: i8 = 3;

/// The pull level of the ground below the grid.
pub const GROUND_LEVEL: i8 = 4;

/// Whether `levels` gives each piece of `config` a pull level from 0 to
/// [`MAX_PULL`].
pub open spec fn levels_fit(config: &PuzzleConfiguration, levels: Seq<i8>) -> bool {
    &&& levels.len() == config.pieces.len()
    &&& forall|k: int| 0 <= k < levels.len() ==> 0 <= #[trigger] levels[k] <= MAX_PULL
}

/// How far the cell in column `x` of row `y` sticks out: [`GROUND_LEVEL`] on
/// the ground row just below the grid, 0 elsewhere outside the grid and for
/// a hole, and else the pull level of the piece that owns the cell.
pub open spec fn pull_level(config: &PuzzleConfiguration, levels: Seq<i8>, x: int, y: int) -> int {
    if y == config.height && 0 <= x < config.width {
        GROUND_LEVEL as int
    } else if !config.in_bounds(x, y) {
        0
    } else if config.piece_at(x, y) == NO_PIECE {
        0
    } else {
        levels[config.piece_at(x, y)] as int
    }
}

/// Whether the player can stand in front of column `x` of row `y`.
pub open spec fn has_foothold(config: &PuzzleConfiguration, levels: Seq<i8>, x: int, y: int) -> bool {
    if y == config.height - 1 && 0 <= x < config.width {
        true
    } else {
        pull_level(config, levels, x, y) < pull_level(config, levels, x, y + 1)
    }
}

/// The player can stand anywhere on the bottom row of the grid, however the
/// pieces are pulled.
pub proof fn lemma_bottom_row_has_foothold(config: &PuzzleConfiguration, levels: Seq<i8>, x: int)
    requires
        0 <= x < config.width,
    ensures
        has_foothold(config, levels, x, config.height - 1),
{
}

/// Above the grid and beside it nothing sticks out, and whether the player
/// can stand there is decided by the levels of the cell and the one below
/// alone.
pub proof fn lemma_outside_grid(config: &PuzzleConfiguration, levels: Seq<i8>, x: int, y: int)
    requires
        config.wf(),
        y < 0 || x < 0 || x >= config.width,
    ensures
        pull_level(config, levels, x, y) == 0,
        has_foothold(config, levels, x, y) == (pull_level(config, levels, x, y) < pull_level(
            config,
            levels,
            x,
            y + 1,
        )),
{
}

/// No level is below 0 or above [`GROUND_LEVEL`].
pub proof fn lemma_level_range(config: &PuzzleConfiguration, levels: Seq<i8>, x: int, y: int)
    requires
        config.wf(),
        levels_fit(config, levels),
    ensures
        0 <= pull_level(config, levels, x, y) <= GROUND_LEVEL,
{
}

/// The player finds a foothold only in front of the grid's columns, from
/// one row above the grid down to its bottom row.
pub proof fn lemma_footholds_near_grid(config: &PuzzleConfiguration, levels: Seq<i8>, x: int, y: int)
    requires
        config.wf(),
        levels_fit(config, levels),
        has_foothold(config, levels, x, y),
    ensures
        0 <= x < config.width,
        -1 <= y < config.height,
        cell(x, y).x == x,
        cell(x, y).y == y,
{
    lemma_level_range(config, levels, x, y);
}

/// Whether the player, standing at `a`, can get to `b` in one move: a step
/// to the left or right, or a climb straight up or up to one side, to a cell
/// with a foothold. Nothing else is asked: a ledge overhead does not stop a
/// climb.
pub open spec fn can_step(
    config: &PuzzleConfiguration,
    levels: Seq<i8>,
    a: CellPosition,
    b: CellPosition,
) -> bool {
    &&& has_foothold(config, levels, b.x as int, b.y as int)
    &&& {
        ||| (b.y == a.y && (b.x == a.x - 1 || b.x == a.x + 1))
        ||| (b.y == a.y - 1 && (b.x == a.x || b.x == a.x - 1 || b.x == a.x + 1))
    }
}

/// The cell in column `x` of row `y`, if the player can stand there.
pub open spec fn foothold_if(config: &PuzzleConfiguration, levels: Seq<i8>, x: int, y: int) -> Seq<
    CellPosition,
> {
    if has_foothold(config, levels, x, y) {
        seq![cell(x, y)]
    } else {
        Seq::empty()
    }
}

/// The cells that the player can get to from `pos` in one move, in the
/// order: left, right, up, up and left, up and right.
pub open spec fn footholds_around(
    config: &PuzzleConfiguration,
    levels: Seq<i8>,
    pos: CellPosition,
) -> Seq<CellPosition> {
    foothold_if(config, levels, pos.x - 1, pos.y as int) + foothold_if(
        config,
        levels,
        pos.x + 1,
        pos.y as int,
    ) + foothold_if(config, levels, pos.x as int, pos.y - 1) + foothold_if(
        config,
        levels,
        pos.x - 1,
        pos.y - 1,
    ) + foothold_if(config, levels, pos.x + 1, pos.y - 1)
}

/// The cells around `pos` are just those that the player can step to.
pub proof fn lemma_footholds_around(
    config: &PuzzleConfiguration,
    levels: Seq<i8>,
    pos: CellPosition,
    b: CellPosition,
)
    requires
        config.wf(),
        levels_fit(config, levels),
    ensures
        footholds_around(config, levels, pos).contains(b) <==> can_step(config, levels, pos, b),
{
    let x = pos.x as int;
    let y = pos.y as int;
    let s0 = foothold_if(config, levels, x - 1, y);
    let s1 = foothold_if(config, levels, x + 1, y);
    let s2 = foothold_if(config, levels, x, y - 1);
    let s3 = foothold_if(config, levels, x - 1, y - 1);
    let s4 = foothold_if(config, levels, x + 1, y - 1);
    let all = footholds_around(config, levels, pos);
    if has_foothold(config, levels, x - 1, y) {
        lemma_footholds_near_grid(config, levels, x - 1, y);
    }
    if has_foothold(config, levels, x + 1, y) {
        lemma_footholds_near_grid(config, levels, x + 1, y);
    }
    if has_foothold(config, levels, x, y - 1) {
        lemma_footholds_near_grid(config, levels, x, y - 1);
    }
    if has_foothold(config, levels, x - 1, y - 1) {
        lemma_footholds_near_grid(config, levels, x - 1, y - 1);
    }
    if has_foothold(config, levels, x + 1, y - 1) {
        lemma_footholds_near_grid(config, levels, x + 1, y - 1);
    }
    if all.contains(b) {
        let i = choose|i: int| 0 <= i < all.len() && all[i] == b;
        assert(can_step(config, levels, pos, b));
    }
    if can_step(config, levels, pos, b) {
        assert(cell(b.x as int, b.y as int) == b);
        if b.y == y && b.x == x - 1 {
            assert(s0[0] == b);
            assert(all[0] == b);
        } else if b.y == y && b.x == x + 1 {
            assert(s1[0] == b);
            assert(all[s0.len() as int] == b);
        } else if b.x == x {
            assert(s2[0] == b);
            assert(all[(s0.len() + s1.len()) as int] == b);
        } else if b.x == x - 1 {
            assert(s3[0] == b);
            assert(all[(s0.len() + s1.len() + s2.len()) as int] == b);
        } else {
            assert(s4[0] == b);
            assert(all[(s0.len() + s1.len() + s2.len() + s3.len()) as int] == b);
        }
    }
}

} // verus!
