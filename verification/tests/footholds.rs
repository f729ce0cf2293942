use pullblock::cell_position::CellPosition;
use pullblock::player_movement::{MoveUndo, PlayerMovement};
use pullblock::puzzle_configuration::PuzzleConfiguration;
use pullblock::puzzle_solver::PuzzleSolver;

fn at(x: i32, y: i32) -> CellPosition {
    CellPosition { x, y }
}

fn pull(x: i32, y: i32, piece: i32, score: i64) -> PlayerMovement {
    PlayerMovement { player_position: at(x, y), piece_index: piece, pull_out: true, score }
}

#[test]
fn test_has_foothold() {
    let puzzle_config = PuzzleConfiguration::new_from_string("AA*\nBB").unwrap();
    let puzzle_solver = PuzzleSolver::new(&puzzle_config);

    assert_eq!(puzzle_solver.position_has_foothold(CellPosition { x: 0, y: 1 }), true);
    assert_eq!(puzzle_solver.position_has_foothold(CellPosition { x: 1, y: 1 }), true);
    assert_eq!(puzzle_solver.position_has_foothold(CellPosition { x: 0, y: 0 }), false);
    assert_eq!(puzzle_solver.position_has_foothold(CellPosition { x: 1, y: 0 }), false);
}

#[test]
fn test_get_pull_level_at() {
    let puzzle_config = PuzzleConfiguration::new_from_string("AA*\nBB").unwrap();
    let puzzle_solver = PuzzleSolver::new(&puzzle_config);

    assert_eq!(puzzle_solver.get_pull_level_at(CellPosition { x: 0, y: 1 }), 0);
    assert_eq!(puzzle_solver.get_pull_level_at(CellPosition { x: 1, y: 1 }), 0);
    assert_eq!(puzzle_solver.get_pull_level_at(CellPosition { x: 0, y: 0 }), 0);
    assert_eq!(puzzle_solver.get_pull_level_at(CellPosition { x: 1, y: 0 }), 0);
}

#[test]
fn add_moves_by_offsets() {
    assert_eq!(at(3, -4).add(-5, 6), at(-2, 2));
    assert_eq!(at(0, 0).add(0, 0), at(0, 0));
    assert_eq!(at(i32::MAX - 1, i32::MIN + 1).add(1, -1), at(i32::MAX, i32::MIN));
}

#[test]
fn new_solver_starts_at_bottom_left() {
    let config = PuzzleConfiguration::new_from_string("AAB\nABB*\n.C.").unwrap();
    let solver = PuzzleSolver::new(&config);
    assert_eq!(solver.player_position, at(0, 2));
    assert_eq!(solver.piece_pull_levels, vec![0i8, 0, 0]);
    assert_eq!(solver.solve_max_depth, 15);
    assert_eq!(solver.solve_movement_tests, 0);
}

#[test]
fn ground_below_the_grid_has_level_four() {
    let config = PuzzleConfiguration::new_from_string("AA*\nBB").unwrap();
    let solver = PuzzleSolver::new(&config);
    assert_eq!(solver.get_pull_level_at(at(0, 2)), 4);
    assert_eq!(solver.get_pull_level_at(at(1, 2)), 4);
    assert_eq!(solver.get_pull_level_at(at(-1, 2)), 0);
    assert_eq!(solver.get_pull_level_at(at(2, 2)), 0);
    assert_eq!(solver.get_pull_level_at(at(0, 3)), 0);
}

#[test]
fn outside_the_grid_nothing_sticks_out() {
    let config = PuzzleConfiguration::new_from_string("AA*\nBB").unwrap();
    let mut solver = PuzzleSolver::new(&config);
    solver.piece_pull_levels = vec![3, 2];
    for p in [at(0, -1), at(1, -7), at(-1, 0), at(2, 1), at(-3, -3), at(i32::MIN, i32::MIN)] {
        assert_eq!(solver.get_pull_level_at(p), 0);
        assert_eq!(solver.get_piece_at(p), -1);
    }
    assert_eq!(solver.position_has_foothold(at(0, -1)), true);
    assert_eq!(solver.position_has_foothold(at(1, -1)), true);
    assert_eq!(solver.position_has_foothold(at(0, -2)), false);
    assert_eq!(solver.position_has_foothold(at(-1, 1)), false);
    assert_eq!(solver.position_has_foothold(at(2, 1)), false);
    assert_eq!(solver.position_has_foothold(at(-1, 0)), false);
    assert_eq!(solver.position_has_foothold(at(0, i32::MAX)), false);
    assert_eq!(solver.position_has_foothold(at(i32::MAX, i32::MAX)), false);
}

#[test]
fn bottom_row_always_has_foothold() {
    let config = PuzzleConfiguration::new_from_string("AB*\nC.\nDE").unwrap();
    let mut solver = PuzzleSolver::new(&config);
    for levels in [vec![0i8, 0, 0, 0, 0], vec![3, 3, 3, 3, 3], vec![1, 0, 2, 3, 0]] {
        solver.piece_pull_levels = levels;
        assert!(solver.position_has_foothold(at(0, 2)));
        assert!(solver.position_has_foothold(at(1, 2)));
        assert!(!solver.position_has_foothold(at(2, 2)));
        assert!(!solver.position_has_foothold(at(-1, 2)));
    }
}

#[test]
fn piece_lookup_follows_the_grid() {
    let config = PuzzleConfiguration::new_from_string("A.\nBB*").unwrap();
    let solver = PuzzleSolver::new(&config);
    assert_eq!(solver.get_piece_at(at(0, 0)), 0);
    assert_eq!(solver.get_piece_at(at(1, 0)), -1);
    assert_eq!(solver.get_piece_at(at(0, 1)), 1);
    assert_eq!(solver.get_piece_at(at(1, 1)), 1);
    assert_eq!(solver.get_piece_at(at(0, 2)), -1);
    assert_eq!(solver.get_piece_at(at(2, 0)), -1);
}

#[test]
fn pull_level_follows_the_piece() {
    let config = PuzzleConfiguration::new_from_string("AA*\nBB").unwrap();
    let mut solver = PuzzleSolver::new(&config);
    solver.apply_move(&pull(1, 1, 1, 0));
    solver.apply_move(&pull(0, 1, 1, 0));
    assert_eq!(solver.get_pull_level_at(at(0, 1)), 2);
    assert_eq!(solver.get_pull_level_at(at(1, 1)), 2);
    assert_eq!(solver.get_pull_level_at(at(0, 0)), 0);
    assert!(solver.position_has_foothold(at(0, 0)));
    assert!(solver.position_has_foothold(at(1, 0)));
    assert!(!solver.position_has_foothold(at(0, -1)));
}

#[test]
fn apply_move_moves_player_and_piece() {
    let config = PuzzleConfiguration::new_from_string("AA*\nBB").unwrap();
    let mut solver = PuzzleSolver::new(&config);
    let undo = solver.apply_move(&pull(1, 1, 1, -2));
    assert_eq!(solver.player_position, at(1, 1));
    assert_eq!(solver.piece_pull_levels, vec![0i8, 1]);
    assert_eq!(undo, MoveUndo { player_position: at(0, 1), piece_index: 1, pull_out: true });
    assert_eq!(solver.solve_movement_tests, 0);
    assert_eq!(solver.solve_max_depth, 15);
}

#[test]
fn undo_restores_the_state() {
    let config = PuzzleConfiguration::new_from_string("AA*\nBB").unwrap();
    let mut solver = PuzzleSolver::new(&config);
    solver.apply_move(&pull(0, 1, 1, 0));
    let player = solver.player_position;
    let levels = solver.piece_pull_levels.clone();
    let reference = PuzzleSolver {
        config: &config,
        player_position: player,
        piece_pull_levels: levels.clone(),
        solve_max_depth: 15,
        solve_movement_tests: 0,
    };
    let undo = solver.apply_move(&pull(1, 0, 0, 0));
    assert!(solver != reference);
    solver.undo_move(&undo);
    assert_eq!(solver.player_position, player);
    assert_eq!(solver.piece_pull_levels, levels);
    assert!(solver == reference);
}

#[test]
fn pushing_back_is_undone_by_pulling() {
    let config = PuzzleConfiguration::new_from_string("AA*\nBB").unwrap();
    let mut solver = PuzzleSolver::new(&config);
    solver.piece_pull_levels = vec![2, 3];
    let push = PlayerMovement { player_position: at(1, 0), piece_index: 1, pull_out: false, score: 0 };
    let undo = solver.apply_move(&push);
    assert_eq!(solver.piece_pull_levels, vec![2i8, 2]);
    assert_eq!(solver.player_position, at(1, 0));
    assert_eq!(undo, MoveUndo { player_position: at(0, 1), piece_index: 1, pull_out: false });
    solver.undo_move(&undo);
    assert_eq!(solver.piece_pull_levels, vec![2i8, 3]);
    assert_eq!(solver.player_position, at(0, 1));
}

#[test]
fn solvers_compare_by_player_and_levels() {
    let config = PuzzleConfiguration::new_from_string("AA*\nBB").unwrap();
    let a = PuzzleSolver::new(&config);
    let mut b = PuzzleSolver::new(&config);
    assert!(a == b);
    b.solve_movement_tests = 9;
    b.solve_max_depth = 2;
    assert!(a == b);
    b.player_position = at(1, 1);
    assert!(a != b);
    b.player_position = at(0, 1);
    b.piece_pull_levels = vec![0, 1];
    assert!(a != b);
    b.piece_pull_levels = vec![0, 0, 0];
    assert!(a != b);
    b.piece_pull_levels = vec![0];
    assert!(a != b);
}

#[test]
fn parsed_puzzles_are_well_formed() {
    for text in ["AA*\nBB", ".*", "AAB\nABB*\n.C.", "ABA\nAAA*", "A\nBBB*\n"] {
        let config = PuzzleConfiguration::new_from_string(text).unwrap();
        assert!(config.is_well_formed());
        assert!(PuzzleSolver::new(&config).is_well_formed());
    }
}

#[test]
fn broken_puzzles_are_told_apart() {
    let good = PuzzleConfiguration::new_from_string("AA*\nBB").unwrap();
    let rebuilt = |change: &dyn Fn(&mut PuzzleConfiguration)| {
        let mut c = PuzzleConfiguration {
            width: good.width,
            height: good.height,
            pieces: good.pieces.clone(),
            cell_to_piece_matrix: good.cell_to_piece_matrix.clone(),
            goal: good.goal,
        };
        change(&mut c);
        c.is_well_formed()
    };
    assert!(rebuilt(&|_| {}));
    assert!(!rebuilt(&|c| c.height = 0));
    assert!(!rebuilt(&|c| c.height = 3));
    assert!(!rebuilt(&|c| c.width = 3));
    assert!(!rebuilt(&|c| c.width = -1));
    assert!(!rebuilt(&|c| c.cell_to_piece_matrix[0][1] = 1));
    assert!(!rebuilt(&|c| c.cell_to_piece_matrix[0][1] = -1));
    assert!(!rebuilt(&|c| c.cell_to_piece_matrix[0][1] = 2));
    assert!(!rebuilt(&|c| c.cell_to_piece_matrix[0][1] = -2));
    assert!(!rebuilt(&|c| c.cell_to_piece_matrix[1].push(-1)));
    assert!(!rebuilt(&|c| c.pieces[0].cells.push(at(0, 0))));
    assert!(!rebuilt(&|c| c.pieces[0].cells.push(at(5, 0))));
    assert!(!rebuilt(&|c| c.pieces[0].cells.clear()));
    assert!(!rebuilt(&|c| {
        c.pieces.pop();
    }));
    assert!(rebuilt(&|c| c.goal = at(40, 40)));
}

#[test]
fn broken_solvers_are_told_apart() {
    let config = PuzzleConfiguration::new_from_string("AA*\nBB").unwrap();
    let mut solver = PuzzleSolver::new(&config);
    solver.piece_pull_levels = vec![3, 0];
    assert!(solver.is_well_formed());
    solver.piece_pull_levels = vec![4, 0];
    assert!(!solver.is_well_formed());
    solver.piece_pull_levels = vec![0, -1];
    assert!(!solver.is_well_formed());
    solver.piece_pull_levels = vec![0];
    assert!(!solver.is_well_formed());
    solver.piece_pull_levels = vec![0, 0, 0];
    assert!(!solver.is_well_formed());
}

#[test]
fn movements_are_admitted_within_the_levels() {
    let config = PuzzleConfiguration::new_from_string("AA*\nBB").unwrap();
    let mut solver = PuzzleSolver::new(&config);
    solver.piece_pull_levels = vec![0, 3];
    let push = |piece: i32| PlayerMovement {
        player_position: at(0, 1),
        piece_index: piece,
        pull_out: false,
        score: 0,
    };
    assert!(solver.admits_move(&pull(0, 1, 0, 0)));
    assert!(!solver.admits_move(&pull(0, 1, 1, 0)));
    assert!(!solver.admits_move(&pull(0, 1, 2, 0)));
    assert!(!solver.admits_move(&pull(0, 1, -1, 0)));
    assert!(!solver.admits_move(&push(0)));
    assert!(solver.admits_move(&push(1)));
    let undo = |piece: i32, pull_out: bool| MoveUndo {
        player_position: at(0, 1),
        piece_index: piece,
        pull_out,
    };
    assert!(!solver.admits_undo(&undo(0, true)));
    assert!(solver.admits_undo(&undo(1, true)));
    assert!(solver.admits_undo(&undo(0, false)));
    assert!(!solver.admits_undo(&undo(1, false)));
    assert!(!solver.admits_undo(&undo(2, true)));
    assert!(!solver.admits_undo(&undo(-1, false)));
}

#[test]
fn piece_lookup_does_not_read_the_levels() {
    let config = PuzzleConfiguration::new_from_string("A.\nBB*").unwrap();
    let mut solver = PuzzleSolver::new(&config);
    solver.piece_pull_levels = Vec::new();
    assert!(!solver.is_well_formed());
    assert_eq!(solver.get_piece_at(at(0, 0)), 0);
    assert_eq!(solver.get_piece_at(at(1, 0)), -1);
    assert_eq!(solver.get_piece_at(at(1, 1)), 1);
    assert_eq!(solver.get_piece_at(at(0, -1)), -1);
    solver.piece_pull_levels = vec![9, -9];
    assert_eq!(solver.get_piece_at(at(0, 1)), 1);
}
