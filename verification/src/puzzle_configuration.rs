use vstd::prelude::*;
use crate::cell_position::CellPosition;
use crate::grid_text::{
    color_at, goal_marker, grid_rows, lemma_marker_in_rows, lemma_rows_nonempty,
    lemma_widest_bounds, longest_row, scan_rows, widest, HOLE,
};
use crate::piece_extraction::{extract_pieces, pieces_of};

verus! {

/// The entry of the piece lookup for a cell that belongs to no piece.
pub const NO_PIECE: i32 = -1;

/// The most cells a grid can have: pieces are numbered by `i32`, and there
/// can be as many pieces as cells.
pub const MAX_CELLS: usize = 0x7fff_ffff;

/// One block of the wall: a largest group of cells of one colour that hang
/// together edge to edge. The player pulls a piece as a whole.
#[derive(Debug, Clone)]
pub struct Piece {
    pub cells: Vec<CellPosition>,
}

/// A puzzle as it stands before any piece is pulled.
///
/// `cell_to_piece_matrix[y][x]` is the index in `pieces` of the piece that
/// owns the cell in column `x` of row `y`, or [`NO_PIECE`] for a hole. The
/// bottom row, `height - 1`, is the ground the player starts from.
pub struct PuzzleConfiguration {
    pub width: i32,
    pub height: i32,
    pub pieces: Vec<Piece>,
    pub cell_to_piece_matrix: Vec<Vec<i32>>,
    pub goal: CellPosition,
}

/// The cell in column `x` of row `y`.
pub open spec fn cell(x: int, y: int) -> CellPosition {
    CellPosition { x: x as i32, y: y as i32 }
}

/// Whether the two cells share an edge.
pub open spec fn side_by_side(x: int, y: int, x2: int, y2: int) -> bool {
    ||| (y == y2 && (x - x2 == 1 || x2 - x == 1))
    ||| (x == x2 && (y - y2 == 1 || y2 - y == 1))
}

/// Whether `owners` has `height` rows of `width` entries each.
pub open spec fn is_grid(owners: Seq<Vec<i32>>, width: int, height: int) -> bool {
    &&& owners.len() == height
    &&& forall|y: int| 0 <= y < height ==> (#[trigger] owners[y]).len() == width
}

/// The entry of `owners` for column `x` of row `y`; [`NO_PIECE`] outside it.
pub open spec fn owner_at(owners: Seq<Vec<i32>>, x: int, y: int) -> int {
    if 0 <= y < owners.len() && 0 <= x < owners[y].len() {
        owners[y][x] as int
    } else {
        NO_PIECE as int
    }
}

/// The cell lists of `pieces`, piece by piece.
pub open spec fn cell_lists(pieces: Seq<Piece>) -> Seq<Seq<CellPosition>> {
    Seq::new(pieces.len(), |k: int| pieces[k].cells@)
}

/// Whether the lookup `owners` and the cell lists `lists` say the same: every
/// entry is a hole or the index of a list that holds the cell, every listed
/// cell has its list's index as entry, and no list is empty or names a cell
/// twice.
pub open spec fn lists_match_owners(lists: Seq<Seq<CellPosition>>, owners: Seq<Vec<i32>>) -> bool {
    &&& forall|x: int, y: int| NO_PIECE <= #[trigger] owner_at(owners, x, y) < lists.len()
    &&& forall|x: int, y: int|
        #![trigger owner_at(owners, x, y)]
        owner_at(owners, x, y) >= 0 ==> lists[owner_at(owners, x, y)].contains(cell(x, y))
    &&& forall|k: int, i: int|
        #![trigger lists[k][i]]
        0 <= k < lists.len() && 0 <= i < lists[k].len() ==> owner_at(
            owners,
            lists[k][i].x as int,
            lists[k][i].y as int,
        ) == k
    &&& forall|k: int|
        0 <= k < lists.len() ==> (#[trigger] lists[k]).len() > 0 && lists[k].no_duplicates()
}

/// Whether cell `j` of `list` shares an edge with a cell earlier in the list.
pub open spec fn touches_earlier(list: Seq<CellPosition>, j: int) -> bool {
    exists|i: int| 0 <= i < j && #[trigger] list[i].touches(list[j])
}

/// Whether every cell of `list` but the first shares an edge with an earlier
/// one, so that the cells hang together.
pub open spec fn grown_from_first(list: Seq<CellPosition>) -> bool {
    forall|j: int| 1 <= j < list.len() ==> #[trigger] touches_earlier(list, j)
}

/// Whether only blocks are owned, and all cells of one list have one colour.
pub open spec fn owned_are_blocks(
    rows: Seq<Seq<i8>>,
    lists: Seq<Seq<CellPosition>>,
    owners: Seq<Vec<i32>>,
) -> bool {
    &&& forall|x: int, y: int|
        #![trigger owner_at(owners, x, y)]
        owner_at(owners, x, y) != NO_PIECE ==> color_at(rows, x, y) != HOLE
    &&& forall|k: int, i: int|
        #![trigger lists[k][i]]
        0 <= k < lists.len() && 0 <= i < lists[k].len() ==> color_at(
            rows,
            lists[k][i].x as int,
            lists[k][i].y as int,
        ) == color_at(rows, lists[k][0].x as int, lists[k][0].y as int)
}

/// Whether each of the first `complete` lists is as large as it can be: a
/// block beside one of its cells, of the same colour, is its cell too.
pub open spec fn closed_upto(rows: Seq<Seq<i8>>, owners: Seq<Vec<i32>>, complete: int) -> bool {
    forall|x: int, y: int, x2: int, y2: int|
        #![trigger owner_at(owners, x, y), owner_at(owners, x2, y2)]
        0 <= owner_at(owners, x, y) < complete && side_by_side(x, y, x2, y2) && color_at(
            rows,
            x2,
            y2,
        ) == color_at(rows, x, y) ==> owner_at(owners, x2, y2) == owner_at(owners, x, y)
}

/// Whether the lists stand in the order in which a reader of the grid, row
/// by row and left to right, first meets them, each starting with the cell
/// met first.
pub open spec fn in_scan_order(lists: Seq<Seq<CellPosition>>) -> bool {
    &&& forall|k: int, i: int|
        #![trigger lists[k][i]]
        0 <= k < lists.len() && 0 <= i < lists[k].len() ==> !lists[k][i].scans_before(lists[k][0])
    &&& forall|k1: int, k2: int|
        #![trigger lists[k1], lists[k2]]
        0 <= k1 < k2 < lists.len() ==> lists[k1][0].scans_before(lists[k2][0])
}

/// Whether every block that a reader has met before coming to column `x0`
/// of row `y0` is owned.
pub open spec fn blocks_owned_before(
    rows: Seq<Seq<i8>>,
    owners: Seq<Vec<i32>>,
    x0: int,
    y0: int,
) -> bool {
    forall|x: int, y: int|
        #![trigger owner_at(owners, x, y)]
        (y < y0 || (y == y0 && x < x0)) && color_at(rows, x, y) != HOLE ==> owner_at(owners, x, y)
            != NO_PIECE
}

/// Why a text does not describe a puzzle.
#[derive(PartialEq, Eq, Structural, Clone, Copy, Debug)]
pub enum ParseFailure {
    /// The text marks no goal.
    NoGoal,
    /// No row of the text has a cell.
    NoCells,
    /// The grid would have more than [`MAX_CELLS`] cells.
    TooLarge,
}

/// Why `text` does not describe a puzzle, if it does not: it must mark a
/// goal, at least one of its rows must have a cell, and the grid may have
/// no more than [`MAX_CELLS`] cells. The first of these that fails is the
/// reason.
pub open spec fn parse_failure(text: Seq<char>) -> Option<ParseFailure> {
    let rows = grid_rows(text);
    if goal_marker(text) is None {
        Some(ParseFailure::NoGoal)
    } else if widest(rows) == 0 {
        Some(ParseFailure::NoCells)
    } else if widest(rows) * rows.len() > MAX_CELLS {
        Some(ParseFailure::TooLarge)
    } else {
        None
    }
}

/// Whether `text` describes a puzzle.
pub open spec fn readable(text: Seq<char>) -> bool {
    parse_failure(text) is None
}

/// The goal that `text` marks: the marker is drawn over the line between
/// two rows, so the goal lies one row above the row in which the marker is
/// written, in the column of the cell written just before it.
pub open spec fn goal_of(text: Seq<char>) -> CellPosition
    recommends
        goal_marker(text) is Some,
{
    let (c, r) = goal_marker(text)->0;
    cell(c - 1, r - 1)
}

impl PuzzleConfiguration {
    /// Whether this is the puzzle that `text` describes: as wide as the
    /// longest row, as high as there are rows, with the marked goal and the
    /// pieces of the coloured grid.
    pub open spec fn describes(&self, text: Seq<char>) -> bool {
        let rows = grid_rows(text);
        &&& self.width == widest(rows)
        &&& self.height == rows.len()
        &&& self.goal == goal_of(text)
        &&& cell_lists(self.pieces@) == pieces_of(rows)
        &&& self.is_extraction_of(rows)
    }

    /// Reads a puzzle from its text form, or says why the text does not
    /// describe one.
    pub fn parse(puzzle_str: &str) -> (parsed: Result<PuzzleConfiguration, ParseFailure>)
        ensures
            match parsed {
                Ok(config) => {
                    &&& parse_failure(puzzle_str@) is None
                    &&& config.wf()
                    &&& config.describes(puzzle_str@)
                },
                Err(failure) => parse_failure(puzzle_str@) == Some(failure),
            },
    {
        let (colors, marker) = scan_rows(puzzle_str);
        let width: usize = longest_row(&colors);
        let height: usize = colors.len();
        let ghost rows = grid_rows(puzzle_str@);
        proof {
            lemma_rows_nonempty(puzzle_str@);
            lemma_marker_in_rows(puzzle_str@);
            lemma_widest_bounds(rows);
        }
        match marker {
            None => Err(ParseFailure::NoGoal),
            Some((c, r)) => {
                if width == 0 {
                    return Err(ParseFailure::NoCells);
                }
                if width > MAX_CELLS || height > MAX_CELLS {
                    proof {
                        assert(width * height > MAX_CELLS) by (nonlinear_arith)
                            requires
                                width > MAX_CELLS || height > MAX_CELLS,
                                width >= 1,
                                height >= 1,
                        ;
                    }
                    return Err(ParseFailure::TooLarge);
                }
                assert(width * height <= 0x7fff_ffff * 0x7fff_ffff) by (nonlinear_arith)
                    requires
                        0 <= width <= 0x7fff_ffff,
                        0 <= height <= 0x7fff_ffff,
                ;
                if (width as u64) * (height as u64) > 0x7fff_ffff {
                    return Err(ParseFailure::TooLarge);
                }
                let (pieces, owners) = extract_pieces(&colors, width as i32, height as i32);
                assert(c <= rows[r as int].len() <= width);
                Ok(
                    PuzzleConfiguration {
                        width: width as i32,
                        height: height as i32,
                        pieces,
                        cell_to_piece_matrix: owners,
                        goal: CellPosition { x: c as i32 - 1, y: r as i32 - 1 },
                    },
                )
            },
        }
    }

    /// Reads a puzzle from its text form. Returns `None` if the text does
    /// not describe a puzzle.
    pub fn new_from_string(puzzle_str: &str) -> (parsed: Option<PuzzleConfiguration>)
        ensures
            parsed is Some <==> readable(puzzle_str@),
            parsed matches Some(config) ==> config.wf() && config.describes(puzzle_str@),
    {
        match PuzzleConfiguration::parse(puzzle_str) {
            Ok(config) => Some(config),
            Err(_) => None,
        }
    }

    /// Whether column `x` of row `y` lies in the grid.
    pub open spec fn in_bounds(&self, x: int, y: int) -> bool {
        0 <= x < self.width && 0 <= y < self.height
    }

    /// The index of the piece that owns the cell, or [`NO_PIECE`] for a hole
    /// and for a cell outside the grid.
    pub open spec fn piece_at(&self, x: int, y: int) -> int {
        owner_at(self.cell_to_piece_matrix@, x, y)
    }

    /// What holds of every puzzle: it has a ground row, the lookup has the
    /// puzzle's size, and lookup and pieces say the same.
    pub open spec fn wf(&self) -> bool {
        &&& self.height >= 1
        &&& self.width >= 0
        &&& is_grid(self.cell_to_piece_matrix@, self.width as int, self.height as int)
        &&& self.pieces.len() <= i32::MAX
        &&& lists_match_owners(cell_lists(self.pieces@), self.cell_to_piece_matrix@)
    }

    /// Whether the pieces are those of the coloured grid `rows`: every
    /// block of the grid, and no other cell, is owned by a piece; each
    /// piece has one colour and hangs together; no piece could be larger;
    /// and the pieces are numbered in reading order.
    pub open spec fn is_extraction_of(&self, rows: Seq<Seq<i8>>) -> bool {
        let lists = cell_lists(self.pieces@);
        let owners = self.cell_to_piece_matrix@;
        &&& forall|x: int, y: int|
            #![trigger owner_at(owners, x, y)]
            color_at(rows, x, y) != HOLE ==> owner_at(owners, x, y) != NO_PIECE
        &&& owned_are_blocks(rows, lists, owners)
        &&& closed_upto(rows, owners, lists.len() as int)
        &&& forall|k: int| 0 <= k < lists.len() ==> grown_from_first(#[trigger] lists[k])
        &&& in_scan_order(lists)
    }
}

} // verus!
