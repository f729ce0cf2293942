use pullblock::cell_position::CellPosition;
use pullblock::player_movement::PlayerMovement;
use pullblock::puzzle_configuration::PuzzleConfiguration;
use pullblock::puzzle_solver::PuzzleSolver;

fn at(x: i32, y: i32) -> CellPosition {
    CellPosition { x, y }
}

fn pull(x: i32, y: i32, piece: i32, score: i64) -> PlayerMovement {
    PlayerMovement { player_position: at(x, y), piece_index: piece, pull_out: true, score }
}

#[test]
fn three_by_three_with_one_piece_is_solved() {
    let config = PuzzleConfiguration::new_from_string("...\n...\nAA*A").unwrap();
    assert_eq!(config.width, 3);
    assert_eq!(config.height, 3);
    assert_eq!(config.pieces.len(), 1);
    assert_eq!(config.goal, at(1, 1));
    let mut solver = PuzzleSolver::new(&config);
    let plan = solver.solve().unwrap();
    assert_eq!(plan, vec![pull(1, 2, 0, -1)]);
    assert!(solver.solve_movement_tests > 0);
    assert_eq!(solver.solve_movement_tests, 1);
    assert_eq!(solver.player_position, at(0, 2));
    assert_eq!(solver.piece_pull_levels, vec![0i8]);
    for m in plan.iter() {
        solver.apply_move(m);
    }
    assert!(solver.get_reachable_recursive(solver.player_position).contains(&config.goal));
}

#[test]
fn two_rows_need_three_pulls() {
    let config = PuzzleConfiguration::new_from_string("AA*\nBB").unwrap();
    let mut solver = PuzzleSolver::new(&config);
    let plan = solver.solve().unwrap();
    assert_eq!(plan, vec![pull(1, 1, 1, -2), pull(1, 1, 1, -2), pull(1, 0, 0, -1)]);
    assert_eq!(solver.solve_movement_tests, 3);
    assert_eq!(solver.player_position, at(0, 1));
    assert_eq!(solver.piece_pull_levels, vec![0i8, 0]);
    for m in plan.iter() {
        assert!(!solver.get_reachable_recursive(solver.player_position).contains(&config.goal));
        assert!(solver.get_reachable_recursive(solver.player_position).contains(&m.player_position));
        solver.apply_move(m);
    }
    assert_eq!(solver.piece_pull_levels, vec![1i8, 2]);
    assert!(solver.get_reachable_recursive(solver.player_position).contains(&config.goal));
}

#[test]
fn three_rows_need_six_pulls() {
    let config = PuzzleConfiguration::new_from_string("AAA*\nBBB\nCCC").unwrap();
    let mut solver = PuzzleSolver::new(&config);
    let plan = solver.solve().unwrap();
    assert_eq!(
        plan,
        vec![
            pull(2, 2, 2, -3),
            pull(2, 2, 2, -3),
            pull(2, 2, 2, -3),
            pull(2, 1, 1, -2),
            pull(2, 1, 1, -2),
            pull(2, 0, 0, -1),
        ]
    );
    assert_eq!(solver.solve_movement_tests, 7);
}

#[test]
fn goal_in_reach_needs_no_pull() {
    let config = PuzzleConfiguration::new_from_string("A\nBB*").unwrap();
    assert_eq!(config.goal, at(1, 0));
    let mut solver = PuzzleSolver::new(&config);
    solver.piece_pull_levels = vec![0, 1];
    let plan = solver.solve().unwrap();
    assert_eq!(plan, Vec::<PlayerMovement>::new());
    assert_eq!(solver.solve_movement_tests, 0);
}

#[test]
fn sealed_goal_has_no_solution() {
    let config = PuzzleConfiguration::new_from_string(".*\nA").unwrap();
    let mut solver = PuzzleSolver::new(&config);
    assert_eq!(solver.solve_max_depth, 15);
    assert_eq!(solver.solve(), None);
    assert_eq!(solver.solve_movement_tests, 3);
    assert_eq!(solver.player_position, at(0, 1));
    assert_eq!(solver.piece_pull_levels, vec![0i8]);
}

#[test]
fn sealed_goal_exhausts_every_level() {
    let config = PuzzleConfiguration::new_from_string(".A*\nB.\nCC").unwrap();
    let mut solver = PuzzleSolver::new(&config);
    assert_eq!(solver.solve(), None);
    assert_eq!(solver.solve_movement_tests, 66);
    assert_eq!(solver.player_position, at(0, 2));
    assert_eq!(solver.piece_pull_levels, vec![0i8, 0, 0]);
    let config = PuzzleConfiguration::new_from_string("AB*\nAB\nCC").unwrap();
    let mut solver = PuzzleSolver::new(&config);
    assert_eq!(solver.solve(), None);
    assert_eq!(solver.solve_movement_tests, 174);
}

#[test]
fn pieces_pulled_all_the_way_cannot_be_pulled() {
    let config = PuzzleConfiguration::new_from_string(".*\nA").unwrap();
    let mut solver = PuzzleSolver::new(&config);
    solver.piece_pull_levels = vec![3];
    assert_eq!(solver.solve(), None);
    assert_eq!(solver.solve_movement_tests, 0);
}

#[test]
fn search_stops_at_the_depth_bound() {
    let config = PuzzleConfiguration::new_from_string("AA*\nBB").unwrap();
    let mut solver = PuzzleSolver::new(&config);
    solver.solve_max_depth = 3;
    assert_eq!(solver.solve(), None);
    assert_eq!(solver.solve_movement_tests, 22);
    assert_eq!(solver.piece_pull_levels, vec![0i8, 0]);
    let mut solver = PuzzleSolver::new(&config);
    solver.solve_max_depth = 4;
    assert_eq!(
        solver.solve(),
        Some(vec![pull(1, 1, 1, -2), pull(1, 1, 1, -2), pull(1, 0, 0, -1)])
    );
    assert_eq!(solver.solve_movement_tests, 3);
    let mut solver = PuzzleSolver::new(&config);
    solver.solve_max_depth = 1;
    assert_eq!(solver.solve(), None);
    assert_eq!(solver.solve_movement_tests, 2);
    let mut solver = PuzzleSolver::new(&config);
    solver.solve_max_depth = 0;
    assert_eq!(solver.solve(), None);
    assert_eq!(solver.solve_movement_tests, 0);
    let mut solver = PuzzleSolver::new(&config);
    solver.solve_max_depth = -4;
    assert_eq!(solver.solve(), None);
    assert_eq!(solver.solve_movement_tests, 0);
}

#[test]
fn counter_goes_on_from_where_it_stood() {
    let config = PuzzleConfiguration::new_from_string("AA*\nBB").unwrap();
    let mut solver = PuzzleSolver::new(&config);
    solver.solve_movement_tests = 40;
    assert!(solver.solve().is_some());
    assert_eq!(solver.solve_movement_tests, 43);
    solver.solve_movement_tests = i32::MAX - 1;
    assert!(solver.solve().is_some());
    assert_eq!(solver.solve_movement_tests, i32::MAX);
}

#[test]
fn empty_bottom_row_is_the_ground() {
    let config = PuzzleConfiguration::new_from_string("A*\nB\n").unwrap();
    let mut solver = PuzzleSolver::new(&config);
    assert_eq!(solver.player_position, at(0, 2));
    assert_eq!(solver.solve(), None);
    assert_eq!(solver.solve_movement_tests, 0);
}
