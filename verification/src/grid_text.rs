//! The text form of a puzzle.
//!
//! Each line of the text is one row of the wall, top row first. In a line,
//! `A` to `Z` is a block of that colour and `.` is a hole; `*` marks the goal
//! and takes no place in the row; every other character is skipped. A newline
//! ends the row and opens the next one, so a text that ends in a newline has
//! an empty last row. Rows are kept as written: none is trimmed or padded.

use vstd::prelude::*;

verus! {

/// The colour code that stands for a hole.
pub const HOLE: i8 = -1;

/// Whether `c` is a block of some colour.
pub open spec fn is_block(c: char) -> bool {
    'A' <= c <= 'Z'
}

/// Whether `c` takes a place in its row.
pub open spec fn is_cell(c: char) -> bool {
    is_block(c) || c == '.'
}

/// The colour code of a cell character: 0 for `A` up to 25 for `Z`, and
/// [`HOLE`] for a hole.
pub open spec fn cell_code(c: char) -> i8 {
    if is_block(c) {
        (c as int - 'A' as int) as i8
    } else {
        HOLE
    }
}

/// The rows of colour codes that `text` describes. There is always at least
/// one row.
pub open spec fn grid_rows(text: Seq<char>) -> Seq<Seq<i8>>
    decreases text.len(),
{
    if text.len() == 0 {
        seq![Seq::empty()]
    } else {
        let before = grid_rows(text.drop_last());
        let c = text.last();
        if c == '\n' {
            before.push(Seq::empty())
        } else if is_cell(c) {
            before.update(before.len() - 1, before.last().push(cell_code(c)))
        } else {
            before
        }
    }
}

/// Where the last goal marker of `text` stands: the number of cells before
/// it in its row, and the index of that row. `None` if there is no marker.
pub open spec fn goal_marker(text: Seq<char>) -> Option<(nat, nat)>
    decreases text.len(),
{
    if text.len() == 0 {
        None
    } else if text.last() == '*' {
        let before = grid_rows(text.drop_last());
        Some((before.last().len(), (before.len() - 1) as nat))
    } else {
        goal_marker(text.drop_last())
    }
}

/// The length of the longest row.
pub open spec fn widest(rows: Seq<Seq<i8>>) -> nat
    decreases rows.len(),
{
    if rows.len() == 0 {
        0
    } else {
        let rest = widest(rows.drop_last());
        if rows.last().len() > rest {
            rows.last().len()
        } else {
            rest
        }
    }
}

/// The colour code at column `x` of row `y`; [`HOLE`] outside the rows.
pub open spec fn color_at(rows: Seq<Seq<i8>>, x: int, y: int) -> int {
    if 0 <= y < rows.len() && 0 <= x < rows[y].len() {
        rows[y][x] as int
    } else {
        HOLE as int
    }
}

/// What a vector of rows holds.
pub open spec fn rows_view(cells: Seq<Vec<i8>>) -> Seq<Seq<i8>> {
    Seq::new(cells.len(), |y: int| cells[y]@)
}

/// A text has at least one row, however short it is.
pub proof fn lemma_rows_nonempty(text: Seq<char>)
    ensures
        grid_rows(text).len() >= 1,
    decreases text.len(),
{
    if text.len() > 0 {
        lemma_rows_nonempty(text.drop_last());
    }
}

/// The goal marker stands in a row of the text, at most at that row's end.
pub proof fn lemma_marker_in_rows(text: Seq<char>)
    ensures
        goal_marker(text) matches Some((c, r)) ==> r < grid_rows(text).len() && c <= grid_rows(
            text,
        )[r as int].len(),
    decreases text.len(),
{
    if text.len() > 0 {
        lemma_marker_in_rows(text.drop_last());
        lemma_rows_nonempty(text.drop_last());
    }
}

/// No row is longer than the longest.
pub proof fn lemma_widest_bounds(rows: Seq<Seq<i8>>)
    ensures
        forall|y: int| 0 <= y < rows.len() ==> (#[trigger] rows[y]).len() <= widest(rows),
    decreases rows.len(),
{
    if rows.len() > 0 {
        lemma_widest_bounds(rows.drop_last());
        assert forall|y: int| 0 <= y < rows.len() implies (#[trigger] rows[y]).len() <= widest(
            rows,
        ) by {
            if y < rows.len() - 1 {
                assert(rows.drop_last()[y] == rows[y]);
            }
        }
    }
}

/// Reads the rows of `text` and the place of its last goal marker.
pub fn scan_rows(text: &str) -> (scanned: (Vec<Vec<i8>>, Option<(usize, usize)>))
    ensures
        rows_view(scanned.0@) == grid_rows(text@),
        match scanned.1 {
            Some((c, r)) => goal_marker(text@) == Some((c as nat, r as nat)),
            None => goal_marker(text@) is None,
        },
{
    let mut cells: Vec<Vec<i8>> = Vec::new();
    cells.push(Vec::new());
    let mut marker: Option<(usize, usize)> = None;
    assert(rows_view(cells@) =~~= grid_rows(text@.take(0)));
    for c in it: text.chars()
        invariant
            it.seq() == text@,
            cells.len() >= 1,
            rows_view(cells@) == grid_rows(text@.take(it.index() as int)),
            match marker {
                Some((mc, mr)) => goal_marker(text@.take(it.index() as int)) == Some(
                    (mc as nat, mr as nat),
                ),
                None => goal_marker(text@.take(it.index() as int)) is None,
            },
    {
        let ghost seen = text@.take(it.index() as int);
        let ghost next = text@.take(it.index() + 1);
        let ghost before = rows_view(cells@);
        proof {
            assert(next.drop_last() == seen);
            assert(next.last() == c);
            assert(before.last() == cells[cells.len() - 1]@);
        }
        let last: usize = cells.len() - 1;
        if c >= 'A' && c <= 'Z' {
            let code: i8 = (c as u8 - 'A' as u8) as i8;
            cells[last].push(code);
            assert(rows_view(cells@) =~~= before.update(last as int, before.last().push(code)));
        } else if c == '.' {
            cells[last].push(HOLE);
            assert(rows_view(cells@) =~~= before.update(last as int, before.last().push(HOLE)));
        } else if c == '*' {
            marker = Some((cells[last].len(), last));
        } else if c == '\n' {
            cells.push(Vec::new());
            assert(rows_view(cells@) =~~= before.push(Seq::empty()));
        }
    }
    proof {
        assert(text@.take(text@.len() as int) == text@);
    }
    (cells, marker)
}

/// The length of the longest of `cells`.
pub fn longest_row(cells: &Vec<Vec<i8>>) -> (width: usize)
    ensures
        width == widest(rows_view(cells@)),
{
    let mut width: usize = 0;
    let mut y: usize = 0;
    while y < cells.len()
        invariant
            y <= cells.len(),
            width == widest(rows_view(cells@).take(y as int)),
        decreases cells.len() - y,
    {
        proof {
            let rows = rows_view(cells@);
            assert(rows.take(y + 1).drop_last() == rows.take(y as int));
            assert(rows.take(y + 1).last() == cells[y as int]@);
        }
        if cells[y].len() > width {
            width = cells[y].len();
        }
        y = y + 1;
    }
    proof {
        let rows = rows_view(cells@);
        assert(rows.take(rows.len() as int) == rows);
    }
    width
}

} // verus!
