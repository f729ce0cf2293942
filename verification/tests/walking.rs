use pullblock::cell_position::CellPosition;
use pullblock::move_order::sort_by_score;
use pullblock::player_movement::PlayerMovement;
use pullblock::puzzle_configuration::PuzzleConfiguration;
use pullblock::puzzle_solver::PuzzleSolver;

fn at(x: i32, y: i32) -> CellPosition {
    CellPosition { x, y }
}

fn pull(x: i32, y: i32, piece: i32, score: i64) -> PlayerMovement {
    PlayerMovement { player_position: at(x, y), piece_index: piece, pull_out: true, score }
}

#[test]
fn reachable_at_lists_left_right_and_up() {
    let config = PuzzleConfiguration::new_from_string("AA*\nBB").unwrap();
    let mut solver = PuzzleSolver::new(&config);
    solver.piece_pull_levels = vec![1, 2];
    let mut out = vec![at(9, 9)];
    solver.get_reachable_at(&mut out, at(0, 1));
    assert_eq!(out, vec![at(9, 9), at(1, 1), at(0, 0), at(1, 0)]);
    let mut out = Vec::new();
    solver.get_reachable_at(&mut out, at(1, 0));
    assert_eq!(out, vec![at(0, 0), at(1, -1), at(0, -1)]);
    let mut out = Vec::new();
    solver.get_reachable_at(&mut out, at(i32::MIN, i32::MIN));
    assert_eq!(out, Vec::<CellPosition>::new());
    let mut out = Vec::new();
    solver.get_reachable_at(&mut out, at(i32::MAX, i32::MAX));
    assert_eq!(out, Vec::<CellPosition>::new());
}

#[test]
fn reachable_set_starts_with_the_start() {
    let config = PuzzleConfiguration::new_from_string("AA*\nBB").unwrap();
    let mut solver = PuzzleSolver::new(&config);
    assert_eq!(solver.get_reachable_recursive(at(0, 1)), vec![at(0, 1), at(1, 1)]);
    assert_eq!(solver.get_reachable_recursive(at(5, 5)), vec![at(5, 5)]);
    assert_eq!(solver.get_reachable_recursive(at(0, 0)), vec![at(0, 0)]);
    solver.piece_pull_levels = vec![0, 2];
    assert_eq!(
        solver.get_reachable_recursive(at(0, 1)),
        vec![at(0, 1), at(1, 1), at(0, 0), at(1, 0)]
    );
    solver.piece_pull_levels = vec![1, 2];
    assert_eq!(
        solver.get_reachable_recursive(at(0, 1)),
        vec![at(0, 1), at(1, 1), at(0, 0), at(1, 0), at(0, -1), at(1, -1)]
    );
}

#[test]
fn reachable_set_is_closed() {
    let config = PuzzleConfiguration::new_from_string("AB*\nC.\nDE").unwrap();
    let mut solver = PuzzleSolver::new(&config);
    solver.piece_pull_levels = vec![1, 0, 2, 3, 1];
    let start = at(0, 2);
    let all = solver.get_reachable_recursive(start);
    assert_eq!(all[0], start);
    for (i, c) in all.iter().enumerate() {
        assert!(!all[..i].contains(c));
        let again = solver.get_reachable_recursive(*c);
        assert_eq!(again[0], *c);
        for d in again.iter() {
            assert!(all.contains(d));
        }
    }
}

#[test]
fn player_pulls_the_piece_in_front() {
    let config = PuzzleConfiguration::new_from_string("AA*\nBB").unwrap();
    let mut solver = PuzzleSolver::new(&config);
    let mut out = Vec::new();
    solver.get_potential_moves_at(&mut out, at(0, 1));
    assert_eq!(out, vec![pull(0, 1, 1, 0)]);
    solver.get_potential_moves_at(&mut out, at(0, 0));
    assert_eq!(out, vec![pull(0, 1, 1, 0)]);
    solver.piece_pull_levels = vec![0, 1];
    solver.get_potential_moves_at(&mut out, at(1, 0));
    assert_eq!(out, vec![pull(0, 1, 1, 0)]);
    solver.piece_pull_levels = vec![0, 2];
    solver.get_potential_moves_at(&mut out, at(1, 0));
    assert_eq!(out, vec![pull(0, 1, 1, 0), pull(1, 0, 0, 0)]);
    solver.piece_pull_levels = vec![0, 3];
    let mut out = Vec::new();
    solver.get_potential_moves_at(&mut out, at(1, 1));
    assert_eq!(out, Vec::<PlayerMovement>::new());
    solver.get_potential_moves_at(&mut out, at(1, -1));
    assert_eq!(out, Vec::<PlayerMovement>::new());
    solver.get_potential_moves_at(&mut out, at(i32::MAX, i32::MAX));
    assert_eq!(out, Vec::<PlayerMovement>::new());
}

#[test]
fn player_pulls_sideways_from_a_hole() {
    let config = PuzzleConfiguration::new_from_string("A.B*\nCCC").unwrap();
    let mut solver = PuzzleSolver::new(&config);
    solver.piece_pull_levels = vec![1, 2, 3];
    let mut out = Vec::new();
    solver.get_potential_moves_at(&mut out, at(1, 0));
    assert_eq!(out, vec![pull(1, 0, 1, 0), pull(1, 0, 0, 0)]);
    solver.piece_pull_levels = vec![1, 3, 2];
    let mut out = Vec::new();
    solver.get_potential_moves_at(&mut out, at(1, 0));
    assert_eq!(out, vec![pull(1, 0, 0, 0)]);
    solver.piece_pull_levels = vec![0, 2, 2];
    let mut out = Vec::new();
    solver.get_potential_moves_at(&mut out, at(1, 0));
    assert_eq!(out, vec![pull(1, 0, 1, 0)]);
    solver.piece_pull_levels = vec![1, 2, 1];
    let mut out = Vec::new();
    solver.get_potential_moves_at(&mut out, at(1, 0));
    assert_eq!(out, Vec::<PlayerMovement>::new());
}

#[test]
fn front_pull_leaves_no_side_pull() {
    let config = PuzzleConfiguration::new_from_string("ABC*\nDDD").unwrap();
    let mut solver = PuzzleSolver::new(&config);
    solver.piece_pull_levels = vec![1, 0, 2, 3];
    let mut out = Vec::new();
    solver.get_potential_moves_at(&mut out, at(1, 0));
    assert_eq!(out, vec![pull(1, 0, 1, 0)]);
}

#[test]
fn one_piece_on_both_sides_is_pulled_twice() {
    let config = PuzzleConfiguration::new_from_string("A.A*\nAAA").unwrap();
    let mut solver = PuzzleSolver::new(&config);
    solver.piece_pull_levels = vec![2];
    let mut out = Vec::new();
    solver.get_potential_moves_at(&mut out, at(1, 0));
    assert_eq!(out, vec![pull(1, 0, 0, 0), pull(1, 0, 0, 0)]);
}

#[test]
fn score_is_minus_the_distance_to_the_goal() {
    let config = PuzzleConfiguration::new_from_string("AA*\nBB").unwrap();
    let solver = PuzzleSolver::new(&config);
    assert_eq!(solver.rate_after_move(&pull(1, -1, 0, 0)), 0);
    assert_eq!(solver.rate_after_move(&pull(0, 1, 1, 7)), -3);
    assert_eq!(solver.rate_after_move(&pull(1, 1, 1, 0)), -2);
    assert_eq!(solver.rate_after_move(&pull(4, -5, 0, 0)), -7);
    assert_eq!(
        solver.rate_after_move(&pull(i32::MIN, i32::MAX, 0, 0)),
        -(1i64 + 2147483648 + 2147483647 + 1)
    );
}

#[test]
fn sorting_puts_best_first_and_keeps_ties_in_order() {
    let mut moves = vec![
        pull(0, 0, 0, -3),
        pull(1, 0, 1, -1),
        pull(2, 0, 2, -3),
        pull(3, 0, 3, 0),
        pull(4, 0, 4, -1),
        pull(5, 0, 5, -3),
    ];
    sort_by_score(&mut moves);
    assert_eq!(
        moves,
        vec![
            pull(3, 0, 3, 0),
            pull(1, 0, 1, -1),
            pull(4, 0, 4, -1),
            pull(0, 0, 0, -3),
            pull(2, 0, 2, -3),
            pull(5, 0, 5, -3),
        ]
    );
    let mut none: Vec<PlayerMovement> = Vec::new();
    sort_by_score(&mut none);
    assert_eq!(none, Vec::<PlayerMovement>::new());
    let mut rising = vec![pull(0, 0, 0, 1), pull(0, 0, 1, 2), pull(0, 0, 2, 3)];
    sort_by_score(&mut rising);
    assert_eq!(rising, vec![pull(0, 0, 2, 3), pull(0, 0, 1, 2), pull(0, 0, 0, 1)]);
}
