use pullblock::cell_position::CellPosition;
use pullblock::grid_text::{longest_row, scan_rows};
use pullblock::piece_extraction::extract_pieces;
use pullblock::puzzle_configuration::{ParseFailure, PuzzleConfiguration};

fn at(x: i32, y: i32) -> CellPosition {
    CellPosition { x, y }
}

fn cells_of(config: &PuzzleConfiguration, piece: usize) -> Vec<CellPosition> {
    config.pieces[piece].cells.clone()
}

#[test]
fn two_rows_parse_to_two_pieces() {
    let config = PuzzleConfiguration::new_from_string("AA*\nBB").unwrap();
    assert_eq!(config.width, 2);
    assert_eq!(config.height, 2);
    assert_eq!(config.pieces.len(), 2);
    assert_eq!(cells_of(&config, 0), vec![at(0, 0), at(1, 0)]);
    assert_eq!(cells_of(&config, 1), vec![at(0, 1), at(1, 1)]);
    assert_eq!(config.cell_to_piece_matrix, vec![vec![0, 0], vec![1, 1]]);
    assert_eq!(config.goal, at(1, -1));
}

#[test]
fn text_without_goal_is_refused() {
    assert!(PuzzleConfiguration::new_from_string("AA\nBB").is_none());
}

#[test]
fn empty_text_is_refused() {
    assert!(PuzzleConfiguration::new_from_string("").is_none());
}

#[test]
fn text_without_cells_is_refused() {
    assert!(PuzzleConfiguration::new_from_string("*").is_none());
    assert!(PuzzleConfiguration::new_from_string("\n*\n\n").is_none());
    assert!(PuzzleConfiguration::new_from_string("ab *\n").is_none());
}

#[test]
fn single_hole_with_goal_is_a_puzzle() {
    let config = PuzzleConfiguration::new_from_string(".*").unwrap();
    assert_eq!(config.width, 1);
    assert_eq!(config.height, 1);
    assert_eq!(config.pieces.len(), 0);
    assert_eq!(config.cell_to_piece_matrix, vec![vec![-1]]);
    assert_eq!(config.goal, at(0, -1));
}

#[test]
fn goal_before_first_cell_lies_left_of_the_grid() {
    let config = PuzzleConfiguration::new_from_string("*A").unwrap();
    assert_eq!(config.goal, at(-1, -1));
    assert_eq!(config.width, 1);
    assert_eq!(config.pieces.len(), 1);
}

#[test]
fn goal_in_a_lower_row_lies_one_row_up() {
    let config = PuzzleConfiguration::new_from_string("AAB\nABB*\n.C.").unwrap();
    assert_eq!(config.goal, at(2, 0));
}

#[test]
fn last_goal_marker_counts() {
    let config = PuzzleConfiguration::new_from_string("A*\nB*").unwrap();
    assert_eq!(config.goal, at(0, 0));
}

#[test]
fn other_characters_are_skipped() {
    let config = PuzzleConfiguration::new_from_string("a b\r\nA*x").unwrap();
    assert_eq!(config.width, 1);
    assert_eq!(config.height, 2);
    assert_eq!(config.cell_to_piece_matrix, vec![vec![-1], vec![0]]);
    assert_eq!(cells_of(&config, 0), vec![at(0, 1)]);
    assert_eq!(config.goal, at(0, 0));
}

#[test]
fn trailing_newline_opens_an_empty_row() {
    let config = PuzzleConfiguration::new_from_string("AA*\nBB\n").unwrap();
    assert_eq!(config.width, 2);
    assert_eq!(config.height, 3);
    assert_eq!(config.cell_to_piece_matrix, vec![vec![0, 0], vec![1, 1], vec![-1, -1]]);
}

#[test]
fn width_is_that_of_the_longest_row() {
    let config = PuzzleConfiguration::new_from_string("A\nBBB*").unwrap();
    assert_eq!(config.width, 3);
    assert_eq!(config.height, 2);
    assert_eq!(config.cell_to_piece_matrix, vec![vec![0, -1, -1], vec![1, 1, 1]]);
    assert_eq!(cells_of(&config, 1), vec![at(0, 1), at(1, 1), at(2, 1)]);
}

#[test]
fn pieces_are_numbered_in_reading_order() {
    let config = PuzzleConfiguration::new_from_string("AAB\nABB*\n.C.").unwrap();
    assert_eq!(config.pieces.len(), 3);
    assert_eq!(cells_of(&config, 0), vec![at(0, 0), at(1, 0), at(0, 1)]);
    assert_eq!(cells_of(&config, 1), vec![at(2, 0), at(2, 1), at(1, 1)]);
    assert_eq!(cells_of(&config, 2), vec![at(1, 2)]);
    assert_eq!(
        config.cell_to_piece_matrix,
        vec![vec![0, 0, 1], vec![0, 1, 1], vec![-1, 2, -1]]
    );
}

#[test]
fn blocks_of_one_colour_apart_are_two_pieces() {
    let config = PuzzleConfiguration::new_from_string("A.A*").unwrap();
    assert_eq!(config.pieces.len(), 2);
    assert_eq!(cells_of(&config, 0), vec![at(0, 0)]);
    assert_eq!(cells_of(&config, 1), vec![at(2, 0)]);
    assert_eq!(config.cell_to_piece_matrix, vec![vec![0, -1, 1]]);
}

#[test]
fn blocks_touching_at_a_corner_are_two_pieces() {
    let config = PuzzleConfiguration::new_from_string("AB\nBA*").unwrap();
    assert_eq!(config.pieces.len(), 4);
    assert_eq!(config.cell_to_piece_matrix, vec![vec![0, 1], vec![2, 3]]);
}

#[test]
fn a_piece_reaches_round_a_corner() {
    let config = PuzzleConfiguration::new_from_string("ABA\nAAA*").unwrap();
    assert_eq!(config.pieces.len(), 2);
    assert_eq!(
        cells_of(&config, 0),
        vec![at(0, 0), at(0, 1), at(1, 1), at(2, 1), at(2, 0)]
    );
    assert_eq!(cells_of(&config, 1), vec![at(1, 0)]);
    assert_eq!(config.cell_to_piece_matrix, vec![vec![0, 1, 0], vec![0, 0, 0]]);
}

#[test]
fn every_block_is_in_exactly_one_piece() {
    let text = "AABBC\nABBCC\n.AB.C*\nZZZZZ";
    let config = PuzzleConfiguration::new_from_string(text).unwrap();
    let mut seen: Vec<CellPosition> = Vec::new();
    for (index, piece) in config.pieces.iter().enumerate() {
        for c in piece.cells.iter() {
            assert!(!seen.contains(c));
            seen.push(*c);
            assert_eq!(config.cell_to_piece_matrix[c.y as usize][c.x as usize], index as i32);
        }
    }
    let blocks = text.chars().filter(|c| c.is_ascii_uppercase()).count();
    assert_eq!(seen.len(), blocks);
}

#[test]
fn scan_rows_reads_codes_and_marker() {
    let (rows, marker) = scan_rows("AZ.\n*B");
    assert_eq!(rows, vec![vec![0i8, 25, -1], vec![1]]);
    assert_eq!(marker, Some((0, 1)));
    assert_eq!(longest_row(&rows), 3);
    let (rows, marker) = scan_rows("");
    assert_eq!(rows, vec![Vec::<i8>::new()]);
    assert_eq!(marker, None);
    assert_eq!(longest_row(&rows), 0);
}

#[test]
fn extract_pieces_fills_the_lookup() {
    let colors: Vec<Vec<i8>> = vec![vec![3, 3], vec![-1, 3], vec![5]];
    let (pieces, owners) = extract_pieces(&colors, 2, 3);
    assert_eq!(pieces.len(), 2);
    assert_eq!(pieces[0].cells, vec![at(0, 0), at(1, 0), at(1, 1)]);
    assert_eq!(pieces[1].cells, vec![at(0, 2)]);
    assert_eq!(owners, vec![vec![0, 0], vec![-1, 0], vec![1, -1]]);
}

#[test]
fn grid_with_too_many_cells_is_refused() {
    let mut text = "A".repeat(32768);
    text.push('*');
    text.push_str(&"\n".repeat(65536));
    assert!(PuzzleConfiguration::new_from_string(&text).is_none());
    let mut wide = "A".repeat(40000);
    wide.push('*');
    let config = PuzzleConfiguration::new_from_string(&wide).unwrap();
    assert_eq!(config.width, 40000);
    assert_eq!(config.height, 1);
    assert_eq!(config.pieces.len(), 1);
    assert_eq!(config.pieces[0].cells.len(), 40000);
    assert_eq!(config.goal, at(39999, -1));
}

#[test]
fn pieces_hang_together_and_cannot_grow() {
    let lines = ["AABBC", "ABBCC", ".AB.C*", "ZZAZZ", "A.A.A"];
    let text = lines.join("\n");
    let config = PuzzleConfiguration::new_from_string(&text).unwrap();
    let color = |c: &CellPosition| lines[c.y as usize].as_bytes()[c.x as usize];
    for piece in config.pieces.iter() {
        let first = piece.cells[0];
        for (j, c) in piece.cells.iter().enumerate() {
            assert_eq!(color(c), color(&first));
            assert!(c.y > first.y || (c.y == first.y && c.x >= first.x));
            if j > 0 {
                assert!(piece.cells[..j]
                    .iter()
                    .any(|e| (e.x - c.x).abs() + (e.y - c.y).abs() == 1));
            }
        }
    }
    for y in 0..config.height {
        for x in 0..config.width {
            let here = config.cell_to_piece_matrix[y as usize][x as usize];
            let letter = lines[y as usize].as_bytes().get(x as usize).copied().unwrap_or(b'.');
            assert_eq!(here == -1, letter == b'.');
            for (dx, dy) in [(1, 0), (0, 1)] {
                let (x2, y2) = (x + dx, y + dy);
                if x2 < config.width && y2 < config.height {
                    let there = config.cell_to_piece_matrix[y2 as usize][x2 as usize];
                    let other =
                        lines[y2 as usize].as_bytes().get(x2 as usize).copied().unwrap_or(b'.');
                    if letter != b'.' && letter == other {
                        assert_eq!(here, there);
                    }
                    if here != -1 && here == there {
                        assert_eq!(letter, other);
                    }
                }
            }
        }
    }
    let firsts: Vec<CellPosition> = config.pieces.iter().map(|p| p.cells[0]).collect();
    for pair in firsts.windows(2) {
        assert!((pair[0].y, pair[0].x) < (pair[1].y, pair[1].x));
    }
    assert_eq!(config.pieces.len(), 9);
}

#[test]
fn parse_tells_why_it_fails() {
    assert_eq!(PuzzleConfiguration::parse("AA\nBB").err(), Some(ParseFailure::NoGoal));
    assert_eq!(PuzzleConfiguration::parse("").err(), Some(ParseFailure::NoGoal));
    assert_eq!(PuzzleConfiguration::parse("*").err(), Some(ParseFailure::NoCells));
    assert_eq!(PuzzleConfiguration::parse("x\n*\n y").err(), Some(ParseFailure::NoCells));
    let mut text = "A".repeat(32768);
    text.push_str(&"\n".repeat(65536));
    assert_eq!(PuzzleConfiguration::parse(&text).err(), Some(ParseFailure::NoGoal));
    text.push('*');
    assert_eq!(PuzzleConfiguration::parse(&text).err(), Some(ParseFailure::TooLarge));
    let config = PuzzleConfiguration::parse("AA*\nBB").unwrap();
    assert_eq!(config.width, 2);
    assert_eq!(config.height, 2);
    assert_eq!(config.goal, at(1, -1));
    assert_eq!(config.cell_to_piece_matrix, vec![vec![0, 0], vec![1, 1]]);
}
