//! Counting cells: a list of distinct cells that all lie in a box is no
//! longer than the box has cells.

use vstd::prelude::*;
use vstd::set_lib::{lemma_int_range, lemma_len_subset, set_int_range};
use crate::cell_position::CellPosition;

verus! {

/// Whether `c` lies in the box of columns `0..width` and rows `top..bottom`.
pub open spec fn in_box(c: CellPosition, width: int, top: int, bottom: int) -> bool {
    0 <= c.x < width && top <= c.y < bottom
}

/// The number of `c` when the cells of a box `width` columns wide, whose
/// first row is `top`, are numbered row by row.
pub open spec fn cell_number(c: CellPosition, width: int, top: int) -> int {
    (c.y - top) * width + c.x
}

/// The numbers of all of `cells`.
pub open spec fn cell_numbers(cells: Seq<CellPosition>, width: int, top: int) -> Set<int>
    decreases cells.len(),
{
    if cells.len() == 0 {
        Set::empty()
    } else {
        cell_numbers(cells.drop_last(), width, top).insert(cell_number(cells.last(), width, top))
    }
}

/// Two cells of one box with the same number are the same cell, and the
/// numbers of a box run from 0 to the number of its cells.
pub proof fn lemma_cell_number(a: CellPosition, b: CellPosition, width: int, top: int, bottom: int)
    requires
        in_box(a, width, top, bottom),
        in_box(b, width, top, bottom),
    ensures
        0 <= cell_number(a, width, top) < width * (bottom - top),
        cell_number(a, width, top) == cell_number(b, width, top) ==> a == b,
{
    let ra = a.y - top;
    let rb = b.y - top;
    let rows = bottom - top;
    assert(0 <= ra * width + a.x < width * rows) by (nonlinear_arith)
        requires
            0 <= ra < rows,
            0 <= a.x < width,
    ;
    assert(ra * width + a.x == rb * width + b.x ==> ra == rb) by (nonlinear_arith)
        requires
            0 <= a.x < width,
            0 <= b.x < width,
    ;
}

proof fn lemma_cell_numbers(cells: Seq<CellPosition>, width: int, top: int, bottom: int)
    requires
        cells.no_duplicates(),
        forall|i: int| 0 <= i < cells.len() ==> in_box(#[trigger] cells[i], width, top, bottom),
    ensures
        cell_numbers(cells, width, top).finite(),
        cell_numbers(cells, width, top).len() == cells.len(),
        cell_numbers(cells, width, top).subset_of(set_int_range(0, width * (bottom - top))),
        forall|n: int| #[trigger]
            cell_numbers(cells, width, top).contains(n) ==> exists|i: int|
                0 <= i < cells.len() && cell_number(#[trigger] cells[i], width, top) == n,
    decreases cells.len(),
{
    if cells.len() > 0 {
        let rest = cells.drop_last();
        let last = cells.last();
        lemma_cell_numbers(rest, width, top, bottom);
        lemma_cell_number(last, last, width, top, bottom);
        let n_last = cell_number(last, width, top);
        if cell_numbers(rest, width, top).contains(n_last) {
            let i = choose|i: int|
                0 <= i < rest.len() && cell_number(#[trigger] rest[i], width, top) == n_last;
            assert(rest[i] == cells[i]);
            lemma_cell_number(cells[i], last, width, top, bottom);
            assert(false);
        }
        assert forall|n: int| #[trigger]
            cell_numbers(cells, width, top).contains(n) implies exists|i: int|
            0 <= i < cells.len() && cell_number(#[trigger] cells[i], width, top) == n by {
            if n == n_last {
                assert(cell_number(cells[cells.len() - 1], width, top) == n);
            } else {
                let i = choose|i: int|
                    0 <= i < rest.len() && cell_number(#[trigger] rest[i], width, top) == n;
                assert(rest[i] == cells[i]);
            }
        }
    }
}

/// Distinct cells of a box are at most as many as the box has cells.
pub proof fn lemma_distinct_cells_fit(cells: Seq<CellPosition>, width: int, top: int, bottom: int)
    requires
        cells.no_duplicates(),
        forall|i: int| 0 <= i < cells.len() ==> in_box(#[trigger] cells[i], width, top, bottom),
    ensures
        cells.len() == 0 || cells.len() <= width * (bottom - top),
{
    if cells.len() > 0 {
        lemma_cell_numbers(cells, width, top, bottom);
        lemma_cell_number(cells[0], cells[0], width, top, bottom);
        lemma_int_range(0, width * (bottom - top));
        lemma_len_subset(
            cell_numbers(cells, width, top),
            set_int_range(0, width * (bottom - top)),
        );
    }
}

} // verus!
