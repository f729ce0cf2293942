use vstd::prelude::*;

verus! {

/// A cell of the grid, by column `x` and row `y`. Rows are counted downwards:
/// row 0 is the top row of the wall.
#[derive(PartialEq, Eq, Structural, Clone, Copy, Hash, Debug)]
pub struct CellPosition {
    pub x: i32,
    pub y: i32,
}

impl CellPosition {
    /// Whether the two cells share an edge.
    pub open spec fn touches(self, other: CellPosition) -> bool {
        ||| (self.y == other.y && (self.x - other.x == 1 || other.x - self.x == 1))
        ||| (self.x == other.x && (self.y - other.y == 1 || other.y - self.y == 1))
    }

    /// Whether this cell comes strictly before `other` when the grid is read
    /// row by row, each row from left to right.
    pub open spec fn scans_before(self, other: CellPosition) -> bool {
        self.y < other.y || (self.y == other.y && self.x < other.x)
    }

    /// The cell `x` columns to the right of and `y` rows below this one.
    pub fn add(&self, x: i32, y: i32) -> (moved: CellPosition)
        requires
            i32::MIN <= self.x + x <= i32::MAX,
            i32::MIN <= self.y + y <= i32::MAX,
        ensures
            moved.x == self.x + x,
            moved.y == self.y + y,
    {
        CellPosition { x: self.x + x, y: self.y + y }
    }
}

/// `cells`, followed by those of `found` that it does not hold yet, in
/// their order and each once.
pub open spec fn add_new(cells: Seq<CellPosition>, found: Seq<CellPosition>) -> Seq<CellPosition>
    decreases found.len(),
{
    if found.len() == 0 {
        cells
    } else {
        let so_far = add_new(cells, found.drop_last());
        if so_far.contains(found.last()) {
            so_far
        } else {
            so_far.push(found.last())
        }
    }
}

/// Adding the new cells of `found` keeps `cells` as the front of the list,
/// names no cell twice, and adds the cells of `found` and no others.
pub proof fn lemma_add_new(cells: Seq<CellPosition>, found: Seq<CellPosition>)
    ensures
        add_new(cells, found).len() >= cells.len(),
        forall|i: int| 0 <= i < cells.len() ==> #[trigger] add_new(cells, found)[i] == cells[i],
        forall|i: int|
            cells.len() <= i < add_new(cells, found).len() ==> found.contains(
                #[trigger] add_new(cells, found)[i],
            ),
        forall|c: CellPosition|
            #[trigger] add_new(cells, found).contains(c) <==> cells.contains(c) || found.contains(c),
        cells.no_duplicates() ==> add_new(cells, found).no_duplicates(),
    decreases found.len(),
{
    let all = add_new(cells, found);
    if found.len() > 0 {
        let shorter = found.drop_last();
        let so_far = add_new(cells, shorter);
        let last = found.last();
        lemma_add_new(cells, shorter);
        assert(found[found.len() - 1] == last);
        assert forall|c: CellPosition| shorter.contains(c) implies found.contains(c) by {
            let k = choose|k: int| 0 <= k < shorter.len() && shorter[k] == c;
            assert(found[k] == c);
        }
        assert forall|c: CellPosition| found.contains(c) implies shorter.contains(c) || c
            == last by {
            let k = choose|k: int| 0 <= k < found.len() && found[k] == c;
            if k < found.len() - 1 {
                assert(shorter[k] == c);
            }
        }
        assert forall|i: int| cells.len() <= i < all.len() implies found.contains(
            #[trigger] all[i],
        ) by {
            if i < so_far.len() {
                assert(all[i] == so_far[i]);
                assert(shorter.contains(so_far[i]));
            }
        }
        assert forall|c: CellPosition| #[trigger] all.contains(c) <==> cells.contains(c)
            || found.contains(c) by {
            if all.contains(c) {
                let k = choose|k: int| 0 <= k < all.len() && all[k] == c;
                if k < so_far.len() {
                    assert(so_far[k] == c);
                    assert(so_far.contains(c));
                }
            }
            if cells.contains(c) || found.contains(c) {
                if so_far.contains(c) {
                    let k = choose|k: int| 0 <= k < so_far.len() && so_far[k] == c;
                    assert(all[k] == c);
                } else {
                    assert(c == last);
                    assert(all[all.len() - 1] == c);
                }
            }
        }
    } else {
        assert forall|c: CellPosition| !found.contains(c) by {}
    }
}

/// Adding the new cells of two lists, one after the other, is adding the
/// new cells of the two lists joined.
pub proof fn lemma_add_new_twice(
    cells: Seq<CellPosition>,
    first: Seq<CellPosition>,
    second: Seq<CellPosition>,
)
    ensures
        add_new(add_new(cells, first), second) == add_new(cells, first + second),
    decreases second.len(),
{
    if second.len() == 0 {
        assert(first + second == first);
    } else {
        assert((first + second).drop_last() == first + second.drop_last());
        assert((first + second).last() == second.last());
        lemma_add_new_twice(cells, first, second.drop_last());
    }
}

/// Whether `cells` holds `c`.
pub fn holds_cell(cells: &Vec<CellPosition>, c: CellPosition) -> (found: bool)
    ensures
        found == cells@.contains(c),
{
    let mut i: usize = 0;
    while i < cells.len()
        invariant
            i <= cells.len(),
            forall|j: int| 0 <= j < i ==> cells@[j] != c,
        decreases cells.len() - i,
    {
        if cells[i].x == c.x && cells[i].y == c.y {
            return true;
        }
        i = i + 1;
    }
    false
}

} // verus!
