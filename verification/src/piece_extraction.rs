//! Splitting a coloured grid into pieces.
//!
//! The grid is read row by row. Each block that no piece owns yet starts a
//! new piece, which then takes in, cell by cell, every block of the same
//! colour that shares an edge with a cell it already has.

use vstd::prelude::*;
use crate::cell_counting::{in_box, lemma_distinct_cells_fit};
use crate::cell_position::{add_new, lemma_add_new, lemma_add_new_twice, CellPosition};
use crate::grid_text::{color_at, lemma_widest_bounds, rows_view, widest, HOLE};
use crate::puzzle_configuration::{
    blocks_owned_before, cell, cell_lists, closed_upto, grown_from_first, in_scan_order, is_grid,
    lists_match_owners, owned_are_blocks, owner_at, side_by_side, touches_earlier, Piece, NO_PIECE,
};

verus! {

/// Whether `rows` fits a grid of the given size.
pub open spec fn rows_fit(rows: Seq<Seq<i8>>, width: int, height: int) -> bool {
    &&& rows.len() == height
    &&& forall|y: int| 0 <= y < height ==> (#[trigger] rows[y]).len() <= width
}

/// What holds while the grid is being split: `lists` and `owners` agree on
/// who owns what, only blocks are owned, and every list is of one colour,
/// hangs together and stands in reading order.
pub open spec fn splitting(
    rows: Seq<Seq<i8>>,
    lists: Seq<Seq<CellPosition>>,
    owners: Seq<Vec<i32>>,
    width: int,
    height: int,
) -> bool {
    &&& 0 <= width <= i32::MAX
    &&& 0 <= height <= i32::MAX
    &&& rows_fit(rows, width, height)
    &&& is_grid(owners, width, height)
    &&& lists_match_owners(lists, owners)
    &&& owned_are_blocks(rows, lists, owners)
    &&& forall|k: int| 0 <= k < lists.len() ==> grown_from_first(#[trigger] lists[k])
    &&& in_scan_order(lists)
}

/// A lookup of the given size in which no cell is owned.
fn blank_owners(width: usize, height: usize) -> (owners: Vec<Vec<i32>>)
    ensures
        is_grid(owners@, width as int, height as int),
        forall|x: int, y: int| #[trigger] owner_at(owners@, x, y) == NO_PIECE,
{
    let mut owners: Vec<Vec<i32>> = Vec::new();
    let mut y: usize = 0;
    while y < height
        invariant
            y <= height,
            is_grid(owners@, width as int, y as int),
            forall|x: int, y: int| #[trigger] owner_at(owners@, x, y) == NO_PIECE,
        decreases height - y,
    {
        let mut row: Vec<i32> = Vec::new();
        let mut x: usize = 0;
        while x < width
            invariant
                x <= width,
                row.len() == x,
                forall|i: int| 0 <= i < x ==> row[i] == NO_PIECE,
            decreases width - x,
        {
            row.push(NO_PIECE);
            x = x + 1;
        }
        let ghost before = owners@;
        owners.push(row);
        proof {
            assert forall|x: int, y2: int| #[trigger] owner_at(owners@, x, y2) == NO_PIECE by {
                if 0 <= y2 < before.len() {
                    assert(owners@[y2] == before[y2]);
                    assert(owner_at(before, x, y2) == NO_PIECE);
                }
            }
        }
        y = y + 1;
    }
    owners
}

/// Whether `after` is `before` with the one entry for `p` set to `index`.
pub open spec fn owner_set(
    before: Seq<Vec<i32>>,
    after: Seq<Vec<i32>>,
    p: CellPosition,
    index: int,
) -> bool {
    forall|x: int, y: int|
        #![trigger owner_at(after, x, y)]
        owner_at(after, x, y) == if x == p.x && y == p.y {
            index
        } else {
            owner_at(before, x, y)
        }
}

/// Whether `p` is a block of `rows` that nobody owns yet.
pub open spec fn free_block(rows: Seq<Seq<i8>>, owners: Seq<Vec<i32>>, p: CellPosition) -> bool {
    &&& color_at(rows, p.x as int, p.y as int) != HOLE
    &&& owner_at(owners, p.x as int, p.y as int) == NO_PIECE
}

/// A free block may start a new list, if it comes after the first cells of
/// all lists so far.
proof fn lemma_start_piece(
    rows: Seq<Seq<i8>>,
    done: Seq<Seq<CellPosition>>,
    before: Seq<Vec<i32>>,
    after: Seq<Vec<i32>>,
    width: int,
    height: int,
    seed: CellPosition,
)
    requires
        splitting(rows, done, before, width, height),
        closed_upto(rows, before, done.len() as int),
        free_block(rows, before, seed),
        is_grid(after, width, height),
        owner_set(before, after, seed, done.len() as int),
        forall|k: int| 0 <= k < done.len() ==> (#[trigger] done[k])[0].scans_before(seed),
    ensures
        splitting(rows, done.push(seq![seed]), after, width, height),
        closed_upto(rows, after, done.len() as int),
{
    let lists = done.push(seq![seed]);
    let n = done.len() as int;
    assert(cell(seed.x as int, seed.y as int) == seed);
    assert(lists[n][0] == seed);
    assert forall|x: int, y: int|
        #![trigger owner_at(after, x, y)]
        owner_at(after, x, y) >= 0 implies lists[owner_at(after, x, y)].contains(cell(x, y)) by {
        if x == seed.x && y == seed.y {
        } else {
            let o = owner_at(before, x, y);
            let i = choose|i: int| 0 <= i < done[o].len() && done[o][i] == cell(x, y);
            assert(lists[o][i] == cell(x, y));
        }
    }
    assert forall|k: int, i: int|
        #![trigger lists[k][i]]
        0 <= k < lists.len() && 0 <= i < lists[k].len() implies owner_at(
        after,
        lists[k][i].x as int,
        lists[k][i].y as int,
    ) == k by {
        if k < n {
            assert(lists[k][i] == done[k][i]);
        }
    }
    assert forall|k: int| 0 <= k < lists.len() implies (#[trigger] lists[k]).len() > 0
        && lists[k].no_duplicates() by {
        if k < n {
            assert(lists[k] == done[k]);
        }
    }
    assert forall|k: int, i: int|
        #![trigger lists[k][i]]
        0 <= k < lists.len() && 0 <= i < lists[k].len() implies color_at(
        rows,
        lists[k][i].x as int,
        lists[k][i].y as int,
    ) == color_at(rows, lists[k][0].x as int, lists[k][0].y as int) by {
        if k < n {
            assert(lists[k][i] == done[k][i]);
            assert(lists[k][0] == done[k][0]);
        }
    }
    assert forall|k: int| 0 <= k < lists.len() implies grown_from_first(#[trigger] lists[k]) by {
        if k < n {
            assert(lists[k] == done[k]);
        }
    }
    assert forall|k: int, i: int|
        #![trigger lists[k][i]]
        0 <= k < lists.len() && 0 <= i < lists[k].len() implies !lists[k][i].scans_before(
        lists[k][0],
    ) by {
        if k < n {
            assert(lists[k][i] == done[k][i]);
            assert(lists[k][0] == done[k][0]);
        }
    }
    assert forall|k1: int, k2: int|
        #![trigger lists[k1], lists[k2]]
        0 <= k1 < k2 < lists.len() implies lists[k1][0].scans_before(lists[k2][0]) by {
        assert(lists[k1] == done[k1]);
        if k2 < n {
            assert(lists[k2] == done[k2]);
        }
    }
    assert forall|x: int, y: int, x2: int, y2: int|
        #![trigger owner_at(after, x, y), owner_at(after, x2, y2)]
        0 <= owner_at(after, x, y) < n && side_by_side(x, y, x2, y2) && color_at(rows, x2, y2)
            == color_at(rows, x, y) implies owner_at(after, x2, y2) == owner_at(after, x, y) by {
        assert(owner_at(before, x2, y2) == owner_at(before, x, y));
    }
}

/// A free block beside a cell of the last list, of that list's colour and
/// not before its first cell, may join that list.
proof fn lemma_grow_piece(
    rows: Seq<Seq<i8>>,
    done: Seq<Seq<CellPosition>>,
    cells: Seq<CellPosition>,
    before: Seq<Vec<i32>>,
    after: Seq<Vec<i32>>,
    width: int,
    height: int,
    p: CellPosition,
    from: int,
)
    requires
        splitting(rows, done.push(cells), before, width, height),
        closed_upto(rows, before, done.len() as int),
        free_block(rows, before, p),
        color_at(rows, p.x as int, p.y as int) == color_at(
            rows,
            cells[0].x as int,
            cells[0].y as int,
        ),
        0 <= from < cells.len(),
        cells[from].touches(p),
        !p.scans_before(cells[0]),
        is_grid(after, width, height),
        owner_set(before, after, p, done.len() as int),
    ensures
        splitting(rows, done.push(cells.push(p)), after, width, height),
        closed_upto(rows, after, done.len() as int),
{
    let old_lists = done.push(cells);
    let lists = done.push(cells.push(p));
    let n = done.len() as int;
    assert(cell(p.x as int, p.y as int) == p);
    assert(old_lists[n] == cells);
    assert(lists[n] == cells.push(p));
    assert(lists[n][cells.len() as int] == p);
    assert(cells.len() > 0);
    assert(old_lists[n][0] == cells[0]);
    assert(lists[n][0] == cells[0]);
    assert forall|x: int, y: int|
        #![trigger owner_at(after, x, y)]
        owner_at(after, x, y) >= 0 implies lists[owner_at(after, x, y)].contains(cell(x, y)) by {
        if x == p.x && y == p.y {
        } else {
            let o = owner_at(before, x, y);
            let i = choose|i: int| 0 <= i < old_lists[o].len() && old_lists[o][i] == cell(x, y);
            assert(lists[o][i] == cell(x, y));
        }
    }
    assert forall|k: int, i: int|
        #![trigger lists[k][i]]
        0 <= k < lists.len() && 0 <= i < lists[k].len() implies {
        &&& owner_at(after, lists[k][i].x as int, lists[k][i].y as int) == k
        &&& color_at(rows, lists[k][i].x as int, lists[k][i].y as int) == color_at(
            rows,
            lists[k][0].x as int,
            lists[k][0].y as int,
        )
        &&& !lists[k][i].scans_before(lists[k][0])
    } by {
        if k < n || i < cells.len() {
            assert(lists[k][i] == old_lists[k][i]);
            assert(lists[k][0] == old_lists[k][0]);
        }
    }
    assert forall|k: int| 0 <= k < lists.len() implies (#[trigger] lists[k]).len() > 0
        && lists[k].no_duplicates() && grown_from_first(lists[k]) by {
        if k < n {
            assert(lists[k] == old_lists[k]);
        } else {
            assert(old_lists[n].no_duplicates());
            assert(grown_from_first(old_lists[n]));
            assert forall|a: int, b: int|
                0 <= a < lists[n].len() && 0 <= b < lists[n].len() && a != b implies lists[n][a]
                != lists[n][b] by {
                if a < cells.len() {
                    assert(lists[n][a] == old_lists[n][a]);
                }
                if b < cells.len() {
                    assert(lists[n][b] == old_lists[n][b]);
                }
            }
            assert forall|j: int| 1 <= j < lists[n].len() implies #[trigger] touches_earlier(
                lists[n],
                j,
            ) by {
                if j < cells.len() {
                    assert(touches_earlier(cells, j));
                    let i = choose|i: int| 0 <= i < j && #[trigger] cells[i].touches(cells[j]);
                    assert(lists[n][i].touches(lists[n][j]));
                } else {
                    assert(lists[n][from].touches(lists[n][j]));
                }
            }
        }
    }
    assert forall|k1: int, k2: int|
        #![trigger lists[k1], lists[k2]]
        0 <= k1 < k2 < lists.len() implies lists[k1][0].scans_before(lists[k2][0]) by {
        assert(lists[k1] == old_lists[k1]);
        assert(lists[k2][0] == old_lists[k2][0]);
    }
    assert forall|x: int, y: int, x2: int, y2: int|
        #![trigger owner_at(after, x, y), owner_at(after, x2, y2)]
        0 <= owner_at(after, x, y) < n && side_by_side(x, y, x2, y2) && color_at(rows, x2, y2)
            == color_at(rows, x, y) implies owner_at(after, x2, y2) == owner_at(after, x, y) by {
        assert(owner_at(before, x2, y2) == owner_at(before, x, y));
    }
}

/// The cell in column `x` of row `y`, if it is a block of the given colour.
pub open spec fn block_if(rows: Seq<Seq<i8>>, x: int, y: int, color: int) -> Seq<CellPosition> {
    if color_at(rows, x, y) == color {
        seq![cell(x, y)]
    } else {
        Seq::empty()
    }
}

/// The blocks of the given colour around `c`, in the order: left, right,
/// above, below.
pub open spec fn blocks_around(rows: Seq<Seq<i8>>, c: CellPosition, color: int) -> Seq<
    CellPosition,
> {
    block_if(rows, c.x - 1, c.y as int, color) + block_if(rows, c.x + 1, c.y as int, color)
        + block_if(rows, c.x as int, c.y - 1, color) + block_if(rows, c.x as int, c.y + 1, color)
}

/// The number of cells of a grid as wide as the longest of `rows`.
pub open spec fn grid_area(rows: Seq<Seq<i8>>) -> int {
    widest(rows) as int * rows.len() as int
}

/// The list that a piece of the given colour arrives at which has taken in
/// `cells` so far and has yet to look around cell `next` and those behind
/// it: it looks around each in turn, adding behind the list the blocks of
/// its colour that are new.
pub open spec fn spread(rows: Seq<Seq<i8>>, color: int, cells: Seq<CellPosition>, next: int) -> Seq<
    CellPosition,
>
    decreases grid_area(rows) - next,
{
    if 0 <= next < cells.len() && next < grid_area(rows) {
        spread(rows, color, add_new(cells, blocks_around(rows, cells[next], color)), next + 1)
    } else {
        cells
    }
}

/// The cells of the piece that starts at `seed`, in the order in which the
/// piece takes them in.
pub open spec fn piece_from(rows: Seq<Seq<i8>>, seed: CellPosition) -> Seq<CellPosition> {
    spread(rows, color_at(rows, seed.x as int, seed.y as int), seq![seed], 0)
}

/// Whether one of `lists` holds `c`.
pub open spec fn listed(lists: Seq<Seq<CellPosition>>, c: CellPosition) -> bool {
    exists|k: int| 0 <= k < lists.len() && (#[trigger] lists[k]).contains(c)
}

/// The pieces that a reader has who came with the pieces `found` and has
/// read the first `n` cells of row `y`: each block that is in no piece yet
/// starts a new one.
pub open spec fn read_row(rows: Seq<Seq<i8>>, found: Seq<Seq<CellPosition>>, y: int, n: nat) -> Seq<
    Seq<CellPosition>,
>
    decreases n,
{
    if n == 0 {
        found
    } else {
        let so_far = read_row(rows, found, y, (n - 1) as nat);
        let c = cell(n - 1, y);
        if color_at(rows, n - 1, y) != HOLE && !listed(so_far, c) {
            so_far.push(piece_from(rows, c))
        } else {
            so_far
        }
    }
}

/// The pieces that a reader has who has read the first `m` rows.
pub open spec fn read_rows(rows: Seq<Seq<i8>>, m: nat) -> Seq<Seq<CellPosition>>
    decreases m,
{
    if m == 0 {
        Seq::empty()
    } else {
        read_row(rows, read_rows(rows, (m - 1) as nat), m - 1, rows[m - 1].len())
    }
}

/// The pieces of the coloured grid `rows`, numbered in reading order.
pub open spec fn pieces_of(rows: Seq<Seq<i8>>) -> Seq<Seq<CellPosition>> {
    read_rows(rows, rows.len())
}

/// Whether every block of the given colour beside one of the first `next`
/// of `cells` has an owner.
pub open spec fn settled_upto(
    rows: Seq<Seq<i8>>,
    owners: Seq<Vec<i32>>,
    cells: Seq<CellPosition>,
    next: int,
    color: int,
) -> bool {
    forall|i: int, x: int, y: int|
        #![trigger cells[i], owner_at(owners, x, y)]
        0 <= i < next && side_by_side(cells[i].x as int, cells[i].y as int, x, y) && color_at(
            rows,
            x,
            y,
        ) == color ==> owner_at(owners, x, y) != NO_PIECE
}

/// Once the blocks around every cell of the last list are settled, that
/// list is as large as it can be.
proof fn lemma_piece_complete(
    rows: Seq<Seq<i8>>,
    done: Seq<Seq<CellPosition>>,
    cells: Seq<CellPosition>,
    owners: Seq<Vec<i32>>,
    width: int,
    height: int,
)
    requires
        splitting(rows, done.push(cells), owners, width, height),
        closed_upto(rows, owners, done.len() as int),
        settled_upto(
            rows,
            owners,
            cells,
            cells.len() as int,
            color_at(rows, cells[0].x as int, cells[0].y as int),
        ),
    ensures
        closed_upto(rows, owners, done.len() as int + 1),
{
    let lists = done.push(cells);
    let n = done.len() as int;
    assert(lists[n] == cells);
    assert forall|x: int, y: int, x2: int, y2: int|
        #![trigger owner_at(owners, x, y), owner_at(owners, x2, y2)]
        0 <= owner_at(owners, x, y) < n + 1 && side_by_side(x, y, x2, y2) && color_at(rows, x2, y2)
            == color_at(rows, x, y) implies owner_at(owners, x2, y2) == owner_at(owners, x, y) by {
        if owner_at(owners, x, y) == n {
            let i = choose|i: int| 0 <= i < lists[n].len() && lists[n][i] == cell(x, y);
            assert(cells[i] == cell(x, y));
            assert(lists[n][i] == cells[i]);
            assert(lists[n][0] == cells[0]);
            assert(side_by_side(cells[i].x as int, cells[i].y as int, x2, y2));
            assert(owner_at(owners, x2, y2) != NO_PIECE);
            if owner_at(owners, x2, y2) < n {
                assert(side_by_side(x2, y2, x, y));
                assert(owner_at(owners, x, y) == owner_at(owners, x2, y2));
            }
        }
    }
}

/// Takes the cell in column `x` of row `y` into the piece `cells` if it is
/// a block of the piece's colour that nobody owns.
fn take_if_free(
    colors: &Vec<Vec<i8>>,
    owners: &mut Vec<Vec<i32>>,
    cells: &mut Vec<CellPosition>,
    index: i32,
    color: i8,
    x: i32,
    y: i32,
    Ghost(done): Ghost<Seq<Seq<CellPosition>>>,
    Ghost(width): Ghost<int>,
    Ghost(height): Ghost<int>,
    Ghost(from): Ghost<int>,
)
    requires
        splitting(rows_view(colors@), done.push(old(cells)@), old(owners)@, width, height),
        closed_upto(rows_view(colors@), old(owners)@, done.len() as int),
        old(cells)@.len() > 0,
        blocks_owned_before(
            rows_view(colors@),
            old(owners)@,
            old(cells)@[0].x + 1,
            old(cells)@[0].y as int,
        ),
        color as int == color_at(
            rows_view(colors@),
            old(cells)@[0].x as int,
            old(cells)@[0].y as int,
        ),
        color != HOLE,
        index == done.len(),
        0 <= from < old(cells)@.len(),
        side_by_side(old(cells)@[from].x as int, old(cells)@[from].y as int, x as int, y as int),
    ensures
        splitting(rows_view(colors@), done.push(final(cells)@), final(owners)@, width, height),
        closed_upto(rows_view(colors@), final(owners)@, done.len() as int),
        blocks_owned_before(
            rows_view(colors@),
            final(owners)@,
            old(cells)@[0].x + 1,
            old(cells)@[0].y as int,
        ),
        final(cells)@ == add_new(
            old(cells)@,
            block_if(rows_view(colors@), x as int, y as int, color as int),
        ),
        color_at(rows_view(colors@), x as int, y as int) == color ==> owner_at(
            final(owners)@,
            x as int,
            y as int,
        ) != NO_PIECE,
        owners_kept(old(owners)@, final(owners)@),
{
    let ghost rows = rows_view(colors@);
    let ghost before = owners@;
    let ghost cells_before = cells@;
    let ghost lists = done.push(cells@);
    let ghost seed = cells@[0];
    let ghost found = block_if(rows, x as int, y as int, color as int);
    proof {
        assert(lists[done.len() as int] == cells_before);
        assert(found.len() == 0 ==> add_new(cells_before, found) == cells_before);
        if found.len() > 0 {
            assert(found.drop_last().len() == 0);
            assert(add_new(cells_before, found.drop_last()) == cells_before);
        }
    }
    if y >= 0 && (y as usize) < colors.len() {
        if x >= 0 && (x as usize) < colors[y as usize].len() {
            assert(rows[y as int] == colors[y as int]@);
            if colors[y as usize][x as usize] == color {
                let pos = CellPosition { x, y };
                if owners[y as usize][x as usize] == NO_PIECE {
                    owners[y as usize][x as usize] = index;
                    cells.push(pos);
                    proof {
                        assert(is_grid(owners@, width, height)) by {
                            assert forall|y2: int| 0 <= y2 < height implies (
                            #[trigger] owners@[y2]).len() == width by {
                                assert(before[y2].len() == width);
                            }
                        }
                        assert(owner_set(before, owners@, pos, index as int));
                        assert(lists[done.len() as int][0] == seed);
                        assert(lists[done.len() as int][from] == cells_before[from]);
                        assert(cells_before[from].touches(pos));
                        assert(owner_at(before, pos.x as int, pos.y as int) == NO_PIECE);
                        assert(!pos.scans_before(seed));
                        lemma_grow_piece(
                            rows,
                            done,
                            cells_before,
                            before,
                            owners@,
                            width,
                            height,
                            pos,
                            from,
                        );
                        if cells_before.contains(pos) {
                            let i = choose|i: int|
                                0 <= i < cells_before.len() && cells_before[i] == pos;
                            assert(lists[done.len() as int][i] == pos);
                            assert(false);
                        }
                        assert(found == seq![pos]);
                        assert forall|x2: int, y2: int|
                            #![trigger owner_at(owners@, x2, y2)]
                            (y2 < seed.y || (y2 == seed.y && x2 < seed.x + 1)) && color_at(
                                rows,
                                x2,
                                y2,
                            ) != HOLE implies owner_at(owners@, x2, y2) != NO_PIECE by {
                            assert(owner_at(before, x2, y2) != NO_PIECE);
                        }
                    }
                } else {
                    proof {
                        let o = owner_at(before, x as int, y as int);
                        assert(found == seq![pos]);
                        if o < done.len() {
                            let a = cells_before[from];
                            assert(lists[done.len() as int][from] == a);
                            assert(lists[done.len() as int][0] == seed);
                            assert(owner_at(before, a.x as int, a.y as int) == done.len());
                            assert(side_by_side(x as int, y as int, a.x as int, a.y as int));
                            assert(false);
                        }
                        assert(lists[o].contains(cell(x as int, y as int)));
                        assert(cells_before.contains(pos));
                    }
                }
            }
        }
    }
}

/// Whether every entry of `before` that names an owner is the same in
/// `after`.
pub open spec fn owners_kept(before: Seq<Vec<i32>>, after: Seq<Vec<i32>>) -> bool {
    forall|x: int, y: int|
        #![trigger owner_at(after, x, y)]
        owner_at(before, x, y) != NO_PIECE ==> owner_at(after, x, y) == owner_at(before, x, y)
}

/// Whether every block of the given colour beside `c` has an owner.
pub open spec fn settled_around(
    rows: Seq<Seq<i8>>,
    owners: Seq<Vec<i32>>,
    c: CellPosition,
    color: int,
) -> bool {
    forall|x: int, y: int|
        #![trigger owner_at(owners, x, y)]
        side_by_side(c.x as int, c.y as int, x, y) && color_at(rows, x, y) == color ==> owner_at(
            owners,
            x,
            y,
        ) != NO_PIECE
}

/// Owners that are kept twice are kept.
proof fn lemma_owners_kept(a: Seq<Vec<i32>>, b: Seq<Vec<i32>>, c: Seq<Vec<i32>>)
    requires
        owners_kept(a, b),
        owners_kept(b, c),
    ensures
        owners_kept(a, c),
{
    assert forall|x: int, y: int|
        #![trigger owner_at(c, x, y)]
        owner_at(a, x, y) != NO_PIECE implies owner_at(c, x, y) == owner_at(a, x, y) by {
        assert(owner_at(b, x, y) == owner_at(a, x, y));
    }
}

/// What is settled stays settled while owners are kept and the list only
/// grows, and one more cell is settled once the blocks around it are.
proof fn lemma_settled_step(
    rows: Seq<Seq<i8>>,
    before: Seq<Vec<i32>>,
    after: Seq<Vec<i32>>,
    cells_before: Seq<CellPosition>,
    cells: Seq<CellPosition>,
    next: int,
    color: int,
)
    requires
        settled_upto(rows, before, cells_before, next, color),
        owners_kept(before, after),
        0 <= next < cells_before.len() <= cells.len(),
        forall|i: int| 0 <= i < cells_before.len() ==> #[trigger] cells[i] == cells_before[i],
        settled_around(rows, after, cells_before[next], color),
    ensures
        settled_upto(rows, after, cells, next + 1, color),
{
    assert forall|i: int, x: int, y: int|
        #![trigger cells[i], owner_at(after, x, y)]
        0 <= i < next + 1 && side_by_side(cells[i].x as int, cells[i].y as int, x, y) && color_at(
            rows,
            x,
            y,
        ) == color implies owner_at(after, x, y) != NO_PIECE by {
        assert(cells[i] == cells_before[i]);
        if i < next {
            assert(owner_at(before, x, y) != NO_PIECE);
        }
    }
}

/// Lets the piece `cells` take in the free blocks of its colour around
/// its cell `next`: left, right, above, below.
fn look_around(
    colors: &Vec<Vec<i8>>,
    owners: &mut Vec<Vec<i32>>,
    cells: &mut Vec<CellPosition>,
    index: i32,
    color: i8,
    next: usize,
    Ghost(done): Ghost<Seq<Seq<CellPosition>>>,
    Ghost(width): Ghost<int>,
    Ghost(height): Ghost<int>,
)
    requires
        splitting(rows_view(colors@), done.push(old(cells)@), old(owners)@, width, height),
        closed_upto(rows_view(colors@), old(owners)@, done.len() as int),
        next < old(cells)@.len(),
        blocks_owned_before(
            rows_view(colors@),
            old(owners)@,
            old(cells)@[0].x + 1,
            old(cells)@[0].y as int,
        ),
        color as int == color_at(
            rows_view(colors@),
            old(cells)@[0].x as int,
            old(cells)@[0].y as int,
        ),
        color != HOLE,
        index == done.len(),
    ensures
        splitting(rows_view(colors@), done.push(final(cells)@), final(owners)@, width, height),
        closed_upto(rows_view(colors@), final(owners)@, done.len() as int),
        blocks_owned_before(
            rows_view(colors@),
            final(owners)@,
            old(cells)@[0].x + 1,
            old(cells)@[0].y as int,
        ),
        final(cells)@ == add_new(
            old(cells)@,
            blocks_around(rows_view(colors@), old(cells)@[next as int], color as int),
        ),
        settled_around(rows_view(colors@), final(owners)@, old(cells)@[next as int], color as int),
        owners_kept(old(owners)@, final(owners)@),
{
    let ghost rows = rows_view(colors@);
    let ghost cells_0 = cells@;
    let ghost owners_0 = owners@;
    let ghost lists = done.push(cells@);
    proof {
        assert(lists[done.len() as int] == cells@);
        assert(lists[done.len() as int][next as int] == cells@[next as int]);
        assert(owner_at(owners@, cells@[next as int].x as int, cells@[next as int].y as int)
            == done.len());
    }
    let c = cells[next];
    let ghost b0 = block_if(rows, c.x - 1, c.y as int, color as int);
    let ghost b1 = block_if(rows, c.x + 1, c.y as int, color as int);
    let ghost b2 = block_if(rows, c.x as int, c.y - 1, color as int);
    let ghost b3 = block_if(rows, c.x as int, c.y + 1, color as int);
    take_if_free(
        colors,
        owners,
        cells,
        index,
        color,
        c.x - 1,
        c.y,
        Ghost(done),
        Ghost(width),
        Ghost(height),
        Ghost(next as int),
    );
    let ghost owners_1 = owners@;
    proof {
        lemma_add_new(cells_0, b0);
    }
    take_if_free(
        colors,
        owners,
        cells,
        index,
        color,
        c.x + 1,
        c.y,
        Ghost(done),
        Ghost(width),
        Ghost(height),
        Ghost(next as int),
    );
    let ghost owners_2 = owners@;
    proof {
        lemma_add_new(add_new(cells_0, b0), b1);
    }
    take_if_free(
        colors,
        owners,
        cells,
        index,
        color,
        c.x,
        c.y - 1,
        Ghost(done),
        Ghost(width),
        Ghost(height),
        Ghost(next as int),
    );
    let ghost owners_3 = owners@;
    proof {
        lemma_add_new(add_new(add_new(cells_0, b0), b1), b2);
    }
    take_if_free(
        colors,
        owners,
        cells,
        index,
        color,
        c.x,
        c.y + 1,
        Ghost(done),
        Ghost(width),
        Ghost(height),
        Ghost(next as int),
    );
    proof {
        lemma_add_new_twice(cells_0, b0, b1);
        lemma_add_new_twice(cells_0, b0 + b1, b2);
        lemma_add_new_twice(cells_0, b0 + b1 + b2, b3);
        assert(owners_kept(owners_0, owners_1));
        assert(owners_kept(owners_1, owners_2));
        assert(owners_kept(owners_2, owners_3));
        assert(owners_kept(owners_3, owners@));
        lemma_owners_kept(owners_2, owners_3, owners@);
        lemma_owners_kept(owners_1, owners_2, owners@);
        lemma_owners_kept(owners_0, owners_1, owners@);
        assert forall|x: int, y: int|
            #![trigger owner_at(owners@, x, y)]
            side_by_side(c.x as int, c.y as int, x, y) && color_at(rows, x, y)
                == color as int implies owner_at(owners@, x, y) != NO_PIECE by {
            if x == c.x - 1 {
                assert(owner_at(owners_1, x, y) != NO_PIECE);
            } else if x == c.x + 1 {
                assert(owner_at(owners_2, x, y) != NO_PIECE);
            } else if y == c.y - 1 {
                assert(owner_at(owners_3, x, y) != NO_PIECE);
            }
        }
    }
}

/// Starts a new piece at the free block `seed` and lets it take in every
/// block of its colour that hangs together with `seed`. Returns its cells.
fn fill_piece(
    colors: &Vec<Vec<i8>>,
    owners: &mut Vec<Vec<i32>>,
    index: i32,
    seed: CellPosition,
    Ghost(done): Ghost<Seq<Seq<CellPosition>>>,
    Ghost(width): Ghost<int>,
    Ghost(height): Ghost<int>,
) -> (cells: Vec<CellPosition>)
    requires
        splitting(rows_view(colors@), done, old(owners)@, width, height),
        closed_upto(rows_view(colors@), old(owners)@, done.len() as int),
        blocks_owned_before(rows_view(colors@), old(owners)@, seed.x as int, seed.y as int),
        free_block(rows_view(colors@), old(owners)@, seed),
        forall|k: int| 0 <= k < done.len() ==> (#[trigger] done[k])[0].scans_before(seed),
        index == done.len(),
    ensures
        splitting(rows_view(colors@), done.push(cells@), final(owners)@, width, height),
        closed_upto(rows_view(colors@), final(owners)@, done.len() as int + 1),
        blocks_owned_before(rows_view(colors@), final(owners)@, seed.x + 1, seed.y as int),
        cells@ == piece_from(rows_view(colors@), seed),
        cells@.len() > 0,
        cells@[0] == seed,
{
    let ghost rows = rows_view(colors@);
    let ghost at_entry = owners@;
    assert(rows[seed.y as int] == colors[seed.y as int]@);
    let color: i8 = colors[seed.y as usize][seed.x as usize];
    let mut cells: Vec<CellPosition> = Vec::new();
    owners[seed.y as usize][seed.x as usize] = index;
    cells.push(seed);
    proof {
        assert(is_grid(owners@, width, height)) by {
            assert forall|y: int| 0 <= y < height implies (#[trigger] owners@[y]).len()
                == width by {
                assert(at_entry[y].len() == width);
            }
        }
        assert(owner_set(at_entry, owners@, seed, index as int));
        lemma_start_piece(rows, done, at_entry, owners@, width, height, seed);
        assert(cells@ == seq![seed]);
    }
    let mut next: usize = 0;
    while next < cells.len()
        invariant
            rows == rows_view(colors@),
            splitting(rows, done.push(cells@), owners@, width, height),
            closed_upto(rows, owners@, done.len() as int),
            blocks_owned_before(rows, owners@, seed.x + 1, seed.y as int),
            settled_upto(rows, owners@, cells@, next as int, color as int),
            spread(rows, color as int, cells@, next as int) == piece_from(rows, seed),
            cells@.len() > 0,
            cells@[0] == seed,
            color as int == color_at(rows, seed.x as int, seed.y as int),
            color != HOLE,
            index == done.len(),
            next <= cells.len(),
        decreases grid_area(rows) - next,
    {
        let ghost cells_0 = cells@;
        let ghost owners_0 = owners@;
        proof {
            lemma_piece_fits(rows, done, cells@, owners@, width, height);
        }
        look_around(
            colors,
            owners,
            &mut cells,
            index,
            color,
            next,
            Ghost(done),
            Ghost(width),
            Ghost(height),
        );
        proof {
            lemma_add_new(cells_0, blocks_around(rows, cells_0[next as int], color as int));
            lemma_settled_step(
                rows,
                owners_0,
                owners@,
                cells_0,
                cells@,
                next as int,
                color as int,
            );
        }
        next = next + 1;
    }
    proof {
        assert(done.push(cells@)[done.len() as int] == cells@);
        lemma_piece_complete(rows, done, cells@, owners@, width, height);
    }
    cells
}

/// The last list has no more cells than the grid.
proof fn lemma_piece_fits(
    rows: Seq<Seq<i8>>,
    done: Seq<Seq<CellPosition>>,
    cells: Seq<CellPosition>,
    owners: Seq<Vec<i32>>,
    width: int,
    height: int,
)
    requires
        splitting(rows, done.push(cells), owners, width, height),
    ensures
        cells.len() <= grid_area(rows),
{
    let lists = done.push(cells);
    assert(lists[done.len() as int] == cells);
    lemma_widest_bounds(rows);
    assert forall|i: int| 0 <= i < cells.len() implies in_box(
        #[trigger] cells[i],
        widest(rows) as int,
        0,
        rows.len() as int,
    ) by {
        assert(lists[done.len() as int][i] == cells[i]);
        assert(owner_at(owners, cells[i].x as int, cells[i].y as int) == done.len());
        assert(color_at(rows, cells[i].x as int, cells[i].y as int) != HOLE);
    }
    lemma_distinct_cells_fit(cells, widest(rows) as int, 0, rows.len() as int);
}

/// The first cells of `lists`, list by list.
pub open spec fn first_cells(lists: Seq<Seq<CellPosition>>) -> Seq<CellPosition> {
    Seq::new(lists.len(), |k: int| lists[k][0])
}

/// While a block is still free, there are fewer lists than the grid has
/// cells.
proof fn lemma_room_for_piece(
    rows: Seq<Seq<i8>>,
    lists: Seq<Seq<CellPosition>>,
    owners: Seq<Vec<i32>>,
    width: int,
    height: int,
    seed: CellPosition,
)
    requires
        splitting(rows, lists, owners, width, height),
        free_block(rows, owners, seed),
    ensures
        lists.len() < width * height,
{
    let firsts = first_cells(lists).push(seed);
    assert(0 <= seed.y < height && 0 <= seed.x < rows[seed.y as int].len());
    assert forall|i: int| 0 <= i < firsts.len() implies in_box(
        #[trigger] firsts[i],
        width,
        0,
        height,
    ) by {
        if i < lists.len() {
            assert(firsts[i] == lists[i][0]);
            assert(owner_at(owners, lists[i][0].x as int, lists[i][0].y as int) == i);
        }
    }
    assert forall|a: int, b: int| 0 <= a < firsts.len() && 0 <= b < firsts.len() && a
        != b implies firsts[a] != firsts[b] by {
        if a < lists.len() {
            assert(firsts[a] == lists[a][0]);
            assert(owner_at(owners, lists[a][0].x as int, lists[a][0].y as int) == a);
        }
        if b < lists.len() {
            assert(firsts[b] == lists[b][0]);
            assert(owner_at(owners, lists[b][0].x as int, lists[b][0].y as int) == b);
        }
    }
    lemma_distinct_cells_fit(firsts, width, 0, height);
}

/// Whether the first cell of every list stands before column `x0` of row
/// `y0` in reading order.
pub open spec fn lists_start_before(lists: Seq<Seq<CellPosition>>, x0: int, y0: int) -> bool {
    forall|k: int|
        0 <= k < lists.len() ==> (#[trigger] lists[k])[0].y < y0 || (lists[k][0].y == y0
            && lists[k][0].x < x0)
}

/// Splits the coloured grid `colors` into its pieces, and returns them with
/// the lookup that tells for each cell which piece owns it.
pub fn extract_pieces(colors: &Vec<Vec<i8>>, width: i32, height: i32) -> (found: (
    Vec<Piece>,
    Vec<Vec<i32>>,
))
    requires
        rows_fit(rows_view(colors@), width as int, height as int),
        0 <= width,
        0 <= height,
        width * height <= i32::MAX,
    ensures
        splitting(
            rows_view(colors@),
            cell_lists(found.0@),
            found.1@,
            width as int,
            height as int,
        ),
        closed_upto(rows_view(colors@), found.1@, found.0@.len() as int),
        blocks_owned_before(rows_view(colors@), found.1@, 0, height as int),
        cell_lists(found.0@) == pieces_of(rows_view(colors@)),
        found.0@.len() <= i32::MAX,
{
    let ghost rows = rows_view(colors@);
    let mut pieces: Vec<Piece> = Vec::new();
    let mut owners: Vec<Vec<i32>> = blank_owners(width as usize, height as usize);
    let mut y: usize = 0;
    while y < colors.len()
        invariant
            rows == rows_view(colors@),
            colors.len() == height,
            y <= colors.len(),
            width * height <= i32::MAX,
            pieces@.len() <= i32::MAX,
            splitting(rows, cell_lists(pieces@), owners@, width as int, height as int),
            closed_upto(rows, owners@, pieces@.len() as int),
            blocks_owned_before(rows, owners@, 0, y as int),
            lists_start_before(cell_lists(pieces@), 0, y as int),
            cell_lists(pieces@) == read_rows(rows, y as nat),
        decreases colors.len() - y,
    {
        let mut x: usize = 0;
        assert(rows[y as int] == colors[y as int]@);
        while x < colors[y].len()
            invariant
                rows == rows_view(colors@),
                colors.len() == height,
                y < colors.len(),
                x <= colors[y as int].len(),
                width * height <= i32::MAX,
                pieces@.len() <= i32::MAX,
                splitting(rows, cell_lists(pieces@), owners@, width as int, height as int),
                closed_upto(rows, owners@, pieces@.len() as int),
                blocks_owned_before(rows, owners@, x as int, y as int),
                lists_start_before(cell_lists(pieces@), x as int, y as int),
                cell_lists(pieces@) == read_row(rows, read_rows(rows, y as nat), y as int, x as nat),
            decreases colors[y as int].len() - x,
        {
            assert(rows[y as int] == colors[y as int]@);
            let ghost owners_before = owners@;
            let ghost here = cell(x as int, y as int);
            proof {
                let lists = cell_lists(pieces@);
                if listed(lists, here) {
                    let k = choose|k: int| 0 <= k < lists.len() && (#[trigger] lists[k]).contains(here);
                    let i = choose|i: int| 0 <= i < lists[k].len() && lists[k][i] == here;
                    assert(owner_at(owners@, lists[k][i].x as int, lists[k][i].y as int) == k);
                }
                if owner_at(owners@, x as int, y as int) != NO_PIECE {
                    assert(lists[owner_at(owners@, x as int, y as int)].contains(here));
                }
            }
            if colors[y][x] != HOLE && owners[y][x] == NO_PIECE {
                let seed = CellPosition { x: x as i32, y: y as i32 };
                let ghost lists = cell_lists(pieces@);
                proof {
                    assert(width * height <= i32::MAX);
                    lemma_room_for_piece(rows, lists, owners@, width as int, height as int, seed);
                    assert forall|k: int| 0 <= k < lists.len() implies (#[trigger] lists[k])[0].scans_before(
                        seed,
                    ) by {}
                }
                let cells = fill_piece(
                    colors,
                    &mut owners,
                    pieces.len() as i32,
                    seed,
                    Ghost(lists),
                    Ghost(width as int),
                    Ghost(height as int),
                );
                let ghost taken = cells@;
                pieces.push(Piece { cells });
                proof {
                    assert(cell_lists(pieces@) =~= lists.push(taken));
                    assert forall|k: int| 0 <= k < lists.push(taken).len() implies (
                    #[trigger] lists.push(taken)[k])[0].y < y || (lists.push(taken)[k][0].y == y
                        && lists.push(taken)[k][0].x < x + 1) by {
                        if k < lists.len() {
                            assert(lists.push(taken)[k] == lists[k]);
                        }
                    }
                }
            } else {
                proof {
                    assert forall|x2: int, y2: int|
                        #![trigger owner_at(owners@, x2, y2)]
                        (y2 < y || (y2 == y && x2 < x + 1)) && color_at(rows, x2, y2)
                            != HOLE implies owner_at(owners@, x2, y2) != NO_PIECE by {
                        if y2 == y && x2 == x {
                        }
                    }
                }
            }
            x = x + 1;
        }
        proof {
            assert forall|x2: int, y2: int|
                #![trigger owner_at(owners@, x2, y2)]
                (y2 < y + 1 || (y2 == y + 1 && x2 < 0)) && color_at(rows, x2, y2)
                    != HOLE implies owner_at(owners@, x2, y2) != NO_PIECE by {
                if y2 == y {
                    assert(x2 < x);
                }
            }
        }
        y = y + 1;
    }
    (pieces, owners)
}

} // verus!
