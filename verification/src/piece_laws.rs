//! What follows for the pieces of a puzzle that was read from a grid: the
//! pieces split the blocks of the grid among them, each piece hangs
//! together and has one colour, and pieces that touch differ in colour.

use vstd::prelude::*;
use crate::cell_position::CellPosition;
use crate::grid_text::{color_at, HOLE};
use crate::puzzle_configuration::{
    cell, cell_lists, grown_from_first, owner_at, side_by_side, touches_earlier,
    PuzzleConfiguration, NO_PIECE,
};

verus! {

/// Whether `path` leads through cells of `cells` only, from each to the
/// next across an edge.
pub open spec fn is_chain(cells: Seq<CellPosition>, path: Seq<CellPosition>) -> bool
    decreases path.len(),
{
    if path.len() == 0 {
        false
    } else if path.len() == 1 {
        cells.contains(path[0])
    } else {
        &&& is_chain(cells, path.drop_last())
        &&& cells.contains(path.last())
        &&& path[path.len() - 2].touches(path.last())
    }
}

/// Whether a chain of cells of `cells` leads from `a` to `b`.
pub open spec fn linked(cells: Seq<CellPosition>, a: CellPosition, b: CellPosition) -> bool {
    exists|path: Seq<CellPosition>|
        #![trigger is_chain(cells, path)]
        is_chain(cells, path) && path[0] == a && path.last() == b
}

/// A chain can go on to a cell that touches its end.
pub proof fn lemma_linked_step(
    cells: Seq<CellPosition>,
    a: CellPosition,
    b: CellPosition,
    c: CellPosition,
)
    requires
        linked(cells, a, b),
        b.touches(c),
        cells.contains(c),
    ensures
        linked(cells, a, c),
{
    let path = choose|path: Seq<CellPosition>|
        #![trigger is_chain(cells, path)]
        is_chain(cells, path) && path[0] == a && path.last() == b;
    let longer = path.push(c);
    assert(longer.drop_last() == path);
    assert(is_chain(cells, longer));
    assert(longer[0] == a && longer.last() == c);
}

proof fn lemma_chains_join(cells: Seq<CellPosition>, a: CellPosition, path: Seq<CellPosition>)
    requires
        is_chain(cells, path),
        linked(cells, a, path[0]),
    ensures
        linked(cells, a, path.last()),
    decreases path.len(),
{
    if path.len() > 1 {
        assert(path.drop_last()[0] == path[0]);
        assert(path.drop_last().last() == path[path.len() - 2]);
        lemma_chains_join(cells, a, path.drop_last());
        lemma_linked_step(cells, a, path[path.len() - 2], path.last());
    }
}

/// Two chains, one after the other, make a chain.
pub proof fn lemma_linked_transitive(
    cells: Seq<CellPosition>,
    a: CellPosition,
    b: CellPosition,
    c: CellPosition,
)
    requires
        linked(cells, a, b),
        linked(cells, b, c),
    ensures
        linked(cells, a, c),
{
    let path = choose|path: Seq<CellPosition>|
        #![trigger is_chain(cells, path)]
        is_chain(cells, path) && path[0] == b && path.last() == c;
    lemma_chains_join(cells, a, path);
}

proof fn lemma_chain_back(cells: Seq<CellPosition>, path: Seq<CellPosition>)
    requires
        is_chain(cells, path),
    ensures
        linked(cells, path.last(), path[0]),
        cells.contains(path[0]),
    decreases path.len(),
{
    if path.len() == 1 {
        assert(is_chain(cells, path));
    } else {
        let rest = path.drop_last();
        assert(rest[0] == path[0]);
        assert(rest.last() == path[path.len() - 2]);
        lemma_chain_back(cells, rest);
        let one = seq![path.last()];
        assert(is_chain(cells, one));
        assert(one[0] == path.last() && one.last() == path.last());
        lemma_linked_step(cells, path.last(), path.last(), rest.last());
        lemma_linked_transitive(cells, path.last(), rest.last(), path[0]);
    }
}

/// A chain can be walked the other way.
pub proof fn lemma_linked_symmetric(cells: Seq<CellPosition>, a: CellPosition, b: CellPosition)
    requires
        linked(cells, a, b),
    ensures
        linked(cells, b, a),
{
    let path = choose|path: Seq<CellPosition>|
        #![trigger is_chain(cells, path)]
        is_chain(cells, path) && path[0] == a && path.last() == b;
    lemma_chain_back(cells, path);
}

/// In a list in which every cell but the first touches an earlier one, a
/// chain leads from the first cell to every cell.
pub proof fn lemma_linked_to_first(list: Seq<CellPosition>, j: int)
    requires
        grown_from_first(list),
        0 <= j < list.len(),
    ensures
        linked(list, list[0], list[j]),
    decreases j,
{
    if j == 0 {
        let one = seq![list[0]];
        assert(list.contains(list[0]));
        assert(is_chain(list, one));
        assert(one[0] == list[0] && one.last() == list[0]);
    } else {
        assert(touches_earlier(list, j));
        let i = choose|i: int| 0 <= i < j && #[trigger] list[i].touches(list[j]);
        lemma_linked_to_first(list, i);
        assert(list.contains(list[j]));
        lemma_linked_step(list, list[0], list[i], list[j]);
    }
}

/// Every piece hangs together: from each of its cells a chain of its cells
/// leads to each other one.
pub proof fn lemma_piece_hangs_together(
    config: &PuzzleConfiguration,
    rows: Seq<Seq<i8>>,
    k: int,
    i: int,
    j: int,
)
    requires
        config.is_extraction_of(rows),
        0 <= k < config.pieces@.len(),
        0 <= i < config.pieces@[k].cells@.len(),
        0 <= j < config.pieces@[k].cells@.len(),
    ensures
        linked(config.pieces@[k].cells@, config.pieces@[k].cells@[i], config.pieces@[k].cells@[j]),
{
    let list = config.pieces@[k].cells@;
    assert(cell_lists(config.pieces@)[k] == list);
    lemma_linked_to_first(list, i);
    lemma_linked_to_first(list, j);
    lemma_linked_symmetric(list, list[0], list[i]);
    lemma_linked_transitive(list, list[i], list[0], list[j]);
}

/// No cell is in two pieces, or twice in one.
pub proof fn lemma_cell_in_one_piece(
    config: &PuzzleConfiguration,
    k1: int,
    i1: int,
    k2: int,
    i2: int,
)
    requires
        config.wf(),
        0 <= k1 < config.pieces@.len(),
        0 <= i1 < config.pieces@[k1].cells@.len(),
        0 <= k2 < config.pieces@.len(),
        0 <= i2 < config.pieces@[k2].cells@.len(),
        config.pieces@[k1].cells@[i1] == config.pieces@[k2].cells@[i2],
    ensures
        k1 == k2,
        i1 == i2,
{
    let lists = cell_lists(config.pieces@);
    assert(lists[k1][i1] == lists[k2][i2]);
    assert(lists[k1].no_duplicates());
}

/// Every block of the grid is a cell of a piece, and no hole is.
pub proof fn lemma_blocks_are_owned(
    config: &PuzzleConfiguration,
    rows: Seq<Seq<i8>>,
    x: int,
    y: int,
)
    requires
        config.wf(),
        config.is_extraction_of(rows),
    ensures
        color_at(rows, x, y) != HOLE <==> config.piece_at(x, y) != NO_PIECE,
        config.piece_at(x, y) != NO_PIECE ==> config.pieces@[config.piece_at(x, y)].cells@.contains(
            cell(x, y),
        ),
{
    let lists = cell_lists(config.pieces@);
    let owner = owner_at(config.cell_to_piece_matrix@, x, y);
    if owner != NO_PIECE {
        assert(lists[owner].contains(cell(x, y)));
    }
}

/// All cells of a piece have the colour of its first cell, and that is a
/// colour, not a hole.
pub proof fn lemma_piece_has_one_colour(
    config: &PuzzleConfiguration,
    rows: Seq<Seq<i8>>,
    k: int,
    i: int,
)
    requires
        config.wf(),
        config.is_extraction_of(rows),
        0 <= k < config.pieces@.len(),
        0 <= i < config.pieces@[k].cells@.len(),
    ensures
        color_at(
            rows,
            config.pieces@[k].cells@[i].x as int,
            config.pieces@[k].cells@[i].y as int,
        ) == color_at(
            rows,
            config.pieces@[k].cells@[0].x as int,
            config.pieces@[k].cells@[0].y as int,
        ),
        color_at(
            rows,
            config.pieces@[k].cells@[i].x as int,
            config.pieces@[k].cells@[i].y as int,
        ) != HOLE,
{
    let lists = cell_lists(config.pieces@);
    let c = lists[k][i];
    assert(lists[k][0] == config.pieces@[k].cells@[0]);
    assert(owner_at(config.cell_to_piece_matrix@, c.x as int, c.y as int) == k);
}

/// Two pieces that touch differ in colour: no piece could be larger.
pub proof fn lemma_touching_pieces_differ(
    config: &PuzzleConfiguration,
    rows: Seq<Seq<i8>>,
    k1: int,
    i1: int,
    k2: int,
    i2: int,
)
    requires
        config.wf(),
        config.is_extraction_of(rows),
        0 <= k1 < config.pieces@.len(),
        0 <= i1 < config.pieces@[k1].cells@.len(),
        0 <= k2 < config.pieces@.len(),
        0 <= i2 < config.pieces@[k2].cells@.len(),
        k1 != k2,
        config.pieces@[k1].cells@[i1].touches(config.pieces@[k2].cells@[i2]),
    ensures
        color_at(
            rows,
            config.pieces@[k1].cells@[i1].x as int,
            config.pieces@[k1].cells@[i1].y as int,
        ) != color_at(
            rows,
            config.pieces@[k2].cells@[i2].x as int,
            config.pieces@[k2].cells@[i2].y as int,
        ),
{
    let lists = cell_lists(config.pieces@);
    let owners = config.cell_to_piece_matrix@;
    let a = lists[k1][i1];
    let b = lists[k2][i2];
    assert(owner_at(owners, a.x as int, a.y as int) == k1);
    assert(owner_at(owners, b.x as int, b.y as int) == k2);
    assert(side_by_side(a.x as int, a.y as int, b.x as int, b.y as int));
}

} // verus!
