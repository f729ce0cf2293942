//! Which pieces the player can pull, and how a pull is scored.
//!
//! Standing in front of a piece, the player can pull that piece out if the
//! ledge below is at least two steps further out. Standing in front of a
//! hole above such a ledge, the player can pull a piece to the right or to
//! the left that is already partly out. No movement pushes a piece back in.

use vstd::prelude::*;
use crate::cell_position::CellPosition;
use crate::physics::{levels_fit, pull_level, MAX_PULL};
use crate::player_movement::PlayerMovement;
use crate::puzzle_configuration::{PuzzleConfiguration, NO_PIECE};

verus! {

/// The movement that pulls out piece `piece` from `pos`, not yet scored.
pub open spec fn pull_of(pos: CellPosition, piece: int) -> PlayerMovement {
    PlayerMovement { player_position: pos, piece_index: piece as i32, pull_out: true, score: 0 }
}

/// The pull, from `pos`, of the piece in column `x` of the same row, if
/// there is a piece and it is out by more than 0 and less than [`MAX_PULL`].
pub open spec fn side_pull(
    config: &PuzzleConfiguration,
    levels: Seq<i8>,
    pos: CellPosition,
    x: int,
) -> Seq<PlayerMovement> {
    if config.piece_at(x, pos.y as int) != NO_PIECE && 0 < pull_level(
        config,
        levels,
        x,
        pos.y as int,
    ) < MAX_PULL {
        seq![pull_of(pos, config.piece_at(x, pos.y as int))]
    } else {
        Seq::empty()
    }
}

/// The movements that the player can make at `pos`, not yet scored: the
/// pull of the piece at `pos`, if there is one and the cell below is out by
/// at least two steps more; else, if the cell below is out by at least two
/// steps more, the side pulls to the right and to the left.
pub open spec fn moves_at(config: &PuzzleConfiguration, levels: Seq<i8>, pos: CellPosition) -> Seq<
    PlayerMovement,
> {
    let here = pull_level(config, levels, pos.x as int, pos.y as int);
    let under = pull_level(config, levels, pos.x as int, pos.y + 1);
    if config.piece_at(pos.x as int, pos.y as int) != NO_PIECE && here < under - 1 {
        seq![pull_of(pos, config.piece_at(pos.x as int, pos.y as int))]
    } else if under - here >= 2 {
        side_pull(config, levels, pos, pos.x + 1) + side_pull(config, levels, pos, pos.x - 1)
    } else {
        Seq::empty()
    }
}

/// The movements that the player can make at the cells of `cells`, cell by
/// cell.
pub open spec fn moves_from(
    config: &PuzzleConfiguration,
    levels: Seq<i8>,
    cells: Seq<CellPosition>,
) -> Seq<PlayerMovement>
    decreases cells.len(),
{
    if cells.len() == 0 {
        Seq::empty()
    } else {
        moves_from(config, levels, cells.drop_last()) + moves_at(config, levels, cells.last())
    }
}

/// The number of steps, sideways and up or down, between two cells.
pub open spec fn distance(a: CellPosition, b: CellPosition) -> int {
    (if a.x >= b.x {
        a.x - b.x
    } else {
        b.x - a.x
    }) + (if a.y >= b.y {
        a.y - b.y
    } else {
        b.y - a.y
    })
}

/// The score of a movement made at `pos`: the nearer to the goal, the
/// higher; 0 at the goal and negative elsewhere.
pub open spec fn score_of(config: &PuzzleConfiguration, pos: CellPosition) -> int {
    -distance(config.goal, pos)
}

/// The movement `m` with its score.
pub open spec fn scored(config: &PuzzleConfiguration, m: PlayerMovement) -> PlayerMovement {
    PlayerMovement {
        player_position: m.player_position,
        piece_index: m.piece_index,
        pull_out: m.pull_out,
        score: score_of(config, m.player_position) as i64,
    }
}

/// The movements of `moves`, each with its score.
pub open spec fn all_scored(config: &PuzzleConfiguration, moves: Seq<PlayerMovement>) -> Seq<
    PlayerMovement,
> {
    Seq::new(moves.len(), |i: int| scored(config, moves[i]))
}

/// Every movement that the player can make at `pos` is made at `pos`, has
/// no score yet, and pulls out a piece that is not yet out as far as it
/// goes.
pub proof fn lemma_moves_at(
    config: &PuzzleConfiguration,
    levels: Seq<i8>,
    pos: CellPosition,
    m: PlayerMovement,
)
    requires
        config.wf(),
        levels_fit(config, levels),
        moves_at(config, levels, pos).contains(m),
    ensures
        m.player_position == pos,
        m.pull_out,
        m.score == 0,
        0 <= m.piece_index < levels.len(),
        0 <= levels[m.piece_index as int] < MAX_PULL,
{
    let all = moves_at(config, levels, pos);
    let i = choose|i: int| 0 <= i < all.len() && all[i] == m;
    let x = pos.x as int;
    let y = pos.y as int;
    let here = pull_level(config, levels, x, y);
    let under = pull_level(config, levels, x, y + 1);
    assert(0 <= under <= 4);
    if config.piece_at(x, y) != NO_PIECE && here < under - 1 {
        assert(m == pull_of(pos, config.piece_at(x, y)));
    } else {
        let right = side_pull(config, levels, pos, x + 1);
        let left = side_pull(config, levels, pos, x - 1);
        if i < right.len() {
            assert(m == right[i]);
        } else {
            assert(m == left[i - right.len()]);
        }
    }
}

/// A movement is among those of a list of cells just if it is among those
/// of one of the cells.
pub proof fn lemma_moves_from(
    config: &PuzzleConfiguration,
    levels: Seq<i8>,
    cells: Seq<CellPosition>,
    m: PlayerMovement,
)
    ensures
        moves_from(config, levels, cells).contains(m) <==> exists|i: int|
            0 <= i < cells.len() && moves_at(config, levels, #[trigger] cells[i]).contains(m),
    decreases cells.len(),
{
    if cells.len() > 0 {
        let rest = cells.drop_last();
        let front = moves_from(config, levels, rest);
        let back = moves_at(config, levels, cells.last());
        let all = moves_from(config, levels, cells);
        lemma_moves_from(config, levels, rest, m);
        if all.contains(m) {
            let k = choose|k: int| 0 <= k < all.len() && all[k] == m;
            if k < front.len() {
                assert(front[k] == m);
                let i = choose|i: int|
                    0 <= i < rest.len() && moves_at(config, levels, #[trigger] rest[i]).contains(m);
                assert(cells[i] == rest[i]);
            } else {
                assert(back[k - front.len()] == m);
                assert(moves_at(config, levels, cells[cells.len() - 1]).contains(m));
            }
        }
        if exists|i: int|
            0 <= i < cells.len() && moves_at(config, levels, #[trigger] cells[i]).contains(m) {
            let i = choose|i: int|
                0 <= i < cells.len() && moves_at(config, levels, #[trigger] cells[i]).contains(m);
            if i < rest.len() {
                assert(rest[i] == cells[i]);
                let k = choose|k: int| 0 <= k < front.len() && front[k] == m;
                assert(all[k] == m);
            } else {
                let k = choose|k: int| 0 <= k < back.len() && back[k] == m;
                assert(all[front.len() + k] == m);
            }
        }
    }
}

} // verus!
