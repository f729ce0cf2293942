//! Where the player can walk without pulling anything.

use vstd::prelude::*;
use crate::cell_position::CellPosition;
use crate::cell_counting::{in_box, lemma_distinct_cells_fit};
use crate::cell_position::{add_new, lemma_add_new};
use crate::physics::{
    can_step, footholds_around, has_foothold, lemma_footholds_around, lemma_footholds_near_grid,
    levels_fit,
};
use crate::puzzle_configuration::PuzzleConfiguration;

verus! {

/// Whether `path` is a walk of the player: at least one cell, and from each
/// cell to the next one move.
pub open spec fn is_walk(config: &PuzzleConfiguration, levels: Seq<i8>, path: Seq<CellPosition>) -> bool
    decreases path.len(),
{
    if path.len() <= 1 {
        path.len() == 1
    } else {
        &&& is_walk(config, levels, path.drop_last())
        &&& can_step(config, levels, path[path.len() - 2], path.last())
    }
}

/// Whether the player can walk from `from` to `to`.
pub open spec fn reachable(
    config: &PuzzleConfiguration,
    levels: Seq<i8>,
    from: CellPosition,
    to: CellPosition,
) -> bool {
    exists|path: Seq<CellPosition>|
        #![trigger is_walk(config, levels, path)]
        is_walk(config, levels, path) && path[0] == from && path.last() == to
}

/// Whether `cells` holds every cell that the player can step to from its
/// first `settled` cells.
pub open spec fn steps_kept(
    config: &PuzzleConfiguration,
    levels: Seq<i8>,
    cells: Seq<CellPosition>,
    settled: int,
) -> bool {
    forall|i: int, b: CellPosition|
        #![trigger cells[i], can_step(config, levels, cells[i], b)]
        0 <= i < settled && can_step(config, levels, cells[i], b) ==> cells.contains(b)
}

/// The player is where the player is.
pub proof fn lemma_reachable_self(config: &PuzzleConfiguration, levels: Seq<i8>, pos: CellPosition)
    ensures
        reachable(config, levels, pos, pos),
{
    let path = seq![pos];
    assert(is_walk(config, levels, path));
    assert(path[0] == pos && path.last() == pos);
}

/// One more move from a cell in reach leads to a cell in reach.
pub proof fn lemma_reachable_step(
    config: &PuzzleConfiguration,
    levels: Seq<i8>,
    from: CellPosition,
    a: CellPosition,
    b: CellPosition,
)
    requires
        reachable(config, levels, from, a),
        can_step(config, levels, a, b),
    ensures
        reachable(config, levels, from, b),
{
    let path = choose|path: Seq<CellPosition>|
        #![trigger is_walk(config, levels, path)]
        is_walk(config, levels, path) && path[0] == from && path.last() == a;
    let longer = path.push(b);
    assert(longer.drop_last() == path);
    assert(is_walk(config, levels, longer));
    assert(longer[0] == from && longer.last() == b);
}

proof fn lemma_walks_join(
    config: &PuzzleConfiguration,
    levels: Seq<i8>,
    from: CellPosition,
    path: Seq<CellPosition>,
)
    requires
        is_walk(config, levels, path),
        reachable(config, levels, from, path[0]),
    ensures
        reachable(config, levels, from, path.last()),
    decreases path.len(),
{
    if path.len() > 1 {
        assert(path.drop_last()[0] == path[0]);
        lemma_walks_join(config, levels, from, path.drop_last());
        assert(path.drop_last().last() == path[path.len() - 2]);
        lemma_reachable_step(config, levels, from, path[path.len() - 2], path.last());
    }
}

/// What is in reach of a cell in reach is in reach: walking on from any
/// cell that the player can get to leads to no cell that the player could
/// not get to before.
pub proof fn lemma_reachable_transitive(
    config: &PuzzleConfiguration,
    levels: Seq<i8>,
    from: CellPosition,
    via: CellPosition,
    to: CellPosition,
)
    requires
        reachable(config, levels, from, via),
        reachable(config, levels, via, to),
    ensures
        reachable(config, levels, from, to),
{
    let path = choose|path: Seq<CellPosition>|
        #![trigger is_walk(config, levels, path)]
        is_walk(config, levels, path) && path[0] == via && path.last() == to;
    lemma_walks_join(config, levels, from, path);
}

proof fn lemma_walk_stays(
    config: &PuzzleConfiguration,
    levels: Seq<i8>,
    cells: Seq<CellPosition>,
    path: Seq<CellPosition>,
)
    requires
        steps_kept(config, levels, cells, cells.len() as int),
        is_walk(config, levels, path),
        cells.contains(path[0]),
    ensures
        cells.contains(path.last()),
    decreases path.len(),
{
    if path.len() > 1 {
        assert(path.drop_last()[0] == path[0]);
        lemma_walk_stays(config, levels, cells, path.drop_last());
        let a = path[path.len() - 2];
        assert(path.drop_last().last() == a);
        let i = choose|i: int| 0 <= i < cells.len() && cells[i] == a;
        assert(can_step(config, levels, cells[i], path.last()));
    }
}

/// A list of cells that holds `from` and every cell one move away from
/// each of its cells holds every cell in reach of `from`.
pub proof fn lemma_closed_list_holds_reach(
    config: &PuzzleConfiguration,
    levels: Seq<i8>,
    cells: Seq<CellPosition>,
    from: CellPosition,
    to: CellPosition,
)
    requires
        steps_kept(config, levels, cells, cells.len() as int),
        cells.contains(from),
        reachable(config, levels, from, to),
    ensures
        cells.contains(to),
{
    let path = choose|path: Seq<CellPosition>|
        #![trigger is_walk(config, levels, path)]
        is_walk(config, levels, path) && path[0] == from && path.last() == to;
    lemma_walk_stays(config, levels, cells, path);
}

/// The number of places in which the player can find a foothold at all:
/// the grid's columns, in the grid's rows and the row above.
pub open spec fn reach_room(config: &PuzzleConfiguration) -> int {
    config.width * (config.height + 1)
}

/// The list that a search arrives at which has found `cells` so far and
/// has yet to go on from cell `next` and those behind it: it goes on from
/// each in turn, adding behind the list the cells around it that are new.
pub open spec fn explore(
    config: &PuzzleConfiguration,
    levels: Seq<i8>,
    cells: Seq<CellPosition>,
    next: int,
) -> Seq<CellPosition>
    decreases reach_room(config) + 1 - next,
{
    if 0 <= next < cells.len() && next <= reach_room(config) {
        explore(
            config,
            levels,
            add_new(cells, footholds_around(config, levels, cells[next])),
            next + 1,
        )
    } else {
        cells
    }
}

/// The cells that the player can walk to from `pos`, in the order in which
/// a search finds them that starts with `pos` and goes on from the cells
/// found first.
pub open spec fn reach_order(
    config: &PuzzleConfiguration,
    levels: Seq<i8>,
    pos: CellPosition,
) -> Seq<CellPosition> {
    explore(config, levels, seq![pos], 0)
}

/// What holds of the list of a search from `pos` that has gone on from the
/// first `next` cells: it starts with `pos`, names no cell twice and only
/// cells in reach of `pos`, all but `pos` with a foothold, and it holds
/// every cell one move away from its first `next` cells.
pub open spec fn exploring(
    config: &PuzzleConfiguration,
    levels: Seq<i8>,
    pos: CellPosition,
    cells: Seq<CellPosition>,
    next: int,
) -> bool {
    &&& cells.len() >= 1
    &&& cells[0] == pos
    &&& cells.no_duplicates()
    &&& 0 <= next <= cells.len()
    &&& forall|i: int| 0 <= i < cells.len() ==> reachable(config, levels, pos, #[trigger] cells[i])
    &&& forall|i: int|
        #![trigger cells[i]]
        1 <= i < cells.len() ==> has_foothold(config, levels, cells[i].x as int, cells[i].y as int)
    &&& steps_kept(config, levels, cells, next)
}

/// A list of distinct cells of which all but the first have a foothold has
/// at most one cell more than there is room for footholds.
pub proof fn lemma_reach_list_bounded(
    config: &PuzzleConfiguration,
    levels: Seq<i8>,
    cells: Seq<CellPosition>,
)
    requires
        config.wf(),
        levels_fit(config, levels),
        cells.no_duplicates(),
        forall|i: int|
            #![trigger cells[i]]
            1 <= i < cells.len() ==> has_foothold(config, levels, cells[i].x as int, cells[i].y as int),
    ensures
        cells.len() <= reach_room(config) + 1,
{
    if cells.len() > 1 {
        let rest = cells.subrange(1, cells.len() as int);
        assert forall|i: int| 0 <= i < rest.len() implies in_box(
            #[trigger] rest[i],
            config.width as int,
            -1,
            config.height as int,
        ) by {
            assert(rest[i] == cells[i + 1]);
            lemma_footholds_near_grid(config, levels, rest[i].x as int, rest[i].y as int);
        }
        assert forall|a: int, b: int| 0 <= a < rest.len() && 0 <= b < rest.len() && a
            != b implies rest[a] != rest[b] by {
            assert(rest[a] == cells[a + 1]);
            assert(rest[b] == cells[b + 1]);
        }
        lemma_distinct_cells_fit(rest, config.width as int, -1, config.height as int);
    } else {
        assert(config.width * (config.height + 1) >= 0) by (nonlinear_arith)
            requires
                config.width >= 0,
                config.height >= 1,
        ;
    }
}

/// Going on from cell `next` of a search's list leaves a list of which the
/// same holds, for one cell more.
pub proof fn lemma_explore_step(
    config: &PuzzleConfiguration,
    levels: Seq<i8>,
    pos: CellPosition,
    cells: Seq<CellPosition>,
    next: int,
)
    requires
        config.wf(),
        levels_fit(config, levels),
        exploring(config, levels, pos, cells, next),
        next < cells.len(),
    ensures
        exploring(
            config,
            levels,
            pos,
            add_new(cells, footholds_around(config, levels, cells[next])),
            next + 1,
        ),
{
    let from = cells[next];
    let found = footholds_around(config, levels, from);
    let all = add_new(cells, found);
    lemma_add_new(cells, found);
    assert(all[0] == cells[0]);
    assert forall|i: int| 0 <= i < all.len() implies {
        &&& reachable(config, levels, pos, #[trigger] all[i])
        &&& i >= 1 ==> has_foothold(config, levels, all[i].x as int, all[i].y as int)
    } by {
        if i < cells.len() {
            assert(all[i] == cells[i]);
        } else {
            lemma_footholds_around(config, levels, from, all[i]);
            lemma_reachable_step(config, levels, pos, from, all[i]);
        }
    }
    assert forall|i: int, b: CellPosition|
        #![trigger all[i], can_step(config, levels, all[i], b)]
        0 <= i < next + 1 && can_step(config, levels, all[i], b) implies all.contains(b) by {
        assert(all[i] == cells[i]);
        if i == next {
            lemma_footholds_around(config, levels, from, b);
        } else {
            assert(cells.contains(b));
        }
    }
}

proof fn lemma_explore(
    config: &PuzzleConfiguration,
    levels: Seq<i8>,
    pos: CellPosition,
    cells: Seq<CellPosition>,
    next: int,
)
    requires
        config.wf(),
        levels_fit(config, levels),
        exploring(config, levels, pos, cells, next),
    ensures
        exploring(
            config,
            levels,
            pos,
            explore(config, levels, cells, next),
            explore(config, levels, cells, next).len() as int,
        ),
    decreases reach_room(config) + 1 - next,
{
    lemma_reach_list_bounded(config, levels, cells);
    if next < cells.len() {
        lemma_explore_step(config, levels, pos, cells, next);
        lemma_explore(
            config,
            levels,
            pos,
            add_new(cells, footholds_around(config, levels, cells[next])),
            next + 1,
        );
    }
}

/// The search from `pos` finds `pos` first, no cell twice, and just the
/// cells that the player can walk to from `pos`.
pub proof fn lemma_reach_order(config: &PuzzleConfiguration, levels: Seq<i8>, pos: CellPosition)
    requires
        config.wf(),
        levels_fit(config, levels),
    ensures
        reach_order(config, levels, pos).len() >= 1,
        reach_order(config, levels, pos)[0] == pos,
        reach_order(config, levels, pos).no_duplicates(),
        forall|c: CellPosition|
            #[trigger] reach_order(config, levels, pos).contains(c) <==> reachable(
                config,
                levels,
                pos,
                c,
            ),
{
    let start = seq![pos];
    lemma_reachable_self(config, levels, pos);
    assert(exploring(config, levels, pos, start, 0));
    lemma_explore(config, levels, pos, start, 0);
    let all = reach_order(config, levels, pos);
    assert forall|c: CellPosition| #[trigger] all.contains(c) <==> reachable(
        config,
        levels,
        pos,
        c,
    ) by {
        if all.contains(c) {
            let i = choose|i: int| 0 <= i < all.len() && all[i] == c;
            assert(reachable(config, levels, pos, all[i]));
        }
        if reachable(config, levels, pos, c) {
            lemma_closed_list_holds_reach(config, levels, all, pos, c);
        }
    }
}

/// Searching again from a cell that a search from `pos` has found finds no
/// cell that the first search did not find.
pub proof fn lemma_reach_order_closed(
    config: &PuzzleConfiguration,
    levels: Seq<i8>,
    pos: CellPosition,
    via: CellPosition,
    c: CellPosition,
)
    requires
        config.wf(),
        levels_fit(config, levels),
        reach_order(config, levels, pos).contains(via),
        reach_order(config, levels, via).contains(c),
    ensures
        reach_order(config, levels, pos).contains(c),
{
    lemma_reach_order(config, levels, pos);
    lemma_reach_order(config, levels, via);
    lemma_reachable_transitive(config, levels, pos, via, c);
}

} // verus!
