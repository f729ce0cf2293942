use vstd::prelude::*;
use crate::cell_position::{add_new, holds_cell, CellPosition};
use crate::physics::{
    foothold_if, footholds_around, has_foothold, lemma_footholds_near_grid, levels_fit,
    pull_level, GROUND_LEVEL, MAX_PULL,
};
use crate::player_movement::{MoveUndo, PlayerMovement};
use crate::puzzle_configuration::{PuzzleConfiguration, NO_PIECE};
use crate::reachability::{
    explore, exploring, lemma_explore_step, lemma_reach_list_bounded, lemma_reach_order,
    lemma_reachable_self, reach_order, reach_room, reachable,
};
use crate::move_order::sort_by_score;
use crate::moves::{all_scored, moves_at, moves_from, score_of, scored, side_pull};
use crate::search::{
    budget_at, candidates, goal_in_reach, lemma_after_fits, lemma_candidates,
    lemma_legal_is_admitted, lemma_search_finds, lemma_search_sound, search, solves,
    takes_first_chance, tally, try_each,
};
use crate::search_state::{lemma_undo_restores, SearchState};

verus! {

/// How deep the search goes unless told otherwise.
pub const DEFAULT_MAX_DEPTH: i32 = 15;

/// A puzzle being solved: the puzzle, where the player stands, and how far
/// each piece is pulled out.
///
/// `solve_max_depth` bounds the search: a solution has fewer movements than
/// that. `solve_movement_tests` counts the movements that searches have
/// tried so far.
pub struct PuzzleSolver<'a> {
    pub config: &'a PuzzleConfiguration,
    pub player_position: CellPosition,
    pub piece_pull_levels: Vec<i8>,
    pub solve_max_depth: i32,
    pub solve_movement_tests: i32,
}

/// A solver is viewed as the state that a search changes and restores:
/// the player's place and the pull levels. The puzzle, the depth bound and
/// the counter are no part of the view; contracts speak of each by name.
impl<'a> View for PuzzleSolver<'a> {
    type V = SearchState;

    open spec fn view(&self) -> SearchState {
        SearchState { player: self.player_position, levels: self.piece_pull_levels@ }
    }
}

impl<'a> PuzzleSolver<'a> {
    /// What holds of every solver: its puzzle is well formed, and every
    /// piece of the puzzle has a pull level from 0 to 3.
    pub open spec fn wf(&self) -> bool {
        &&& self.config.wf()
        &&& levels_fit(self.config, self.piece_pull_levels@)
    }

    /// A solver for `config` at the start of the puzzle: no piece is pulled
    /// out and the player stands at the left end of the bottom row.
    pub fn new(config: &'a PuzzleConfiguration) -> (solver: PuzzleSolver<'a>)
        requires
            config.wf(),
        ensures
            solver.wf(),
            solver.config == config,
            solver.player_position == (CellPosition { x: 0, y: (config.height - 1) as i32 }),
            solver.piece_pull_levels@ == Seq::new(config.pieces@.len(), |k: int| 0i8),
            solver.solve_max_depth == DEFAULT_MAX_DEPTH,
            solver.solve_movement_tests == 0,
    {
        let mut levels: Vec<i8> = Vec::new();
        let mut k: usize = 0;
        while k < config.pieces.len()
            invariant
                k <= config.pieces.len(),
                levels@ == Seq::new(k as nat, |k: int| 0i8),
            decreases config.pieces.len() - k,
        {
            levels.push(0);
            k = k + 1;
        }
        PuzzleSolver {
            config,
            player_position: CellPosition { x: 0, y: config.height - 1 },
            piece_pull_levels: levels,
            solve_max_depth: DEFAULT_MAX_DEPTH,
            solve_movement_tests: 0,
        }
    }

    /// Makes the movement `m`: the player goes to where `m` is made, and the
    /// piece moves one step. Returns what takes the movement back.
    pub fn apply_move(&mut self, m: &PlayerMovement) -> (undo: MoveUndo)
        requires
            old(self).wf(),
            old(self)@.admits(*m),
        ensures
            final(self)@ == old(self)@.after(*m),
            undo == old(self)@.undo_of(*m),
            final(self).wf(),
            final(self).config == old(self).config,
            final(self).solve_max_depth == old(self).solve_max_depth,
            final(self).solve_movement_tests == old(self).solve_movement_tests,
    {
        let undo = MoveUndo {
            player_position: self.player_position,
            piece_index: m.piece_index,
            pull_out: m.pull_out,
        };
        self.player_position = m.player_position;
        let k: usize = m.piece_index as usize;
        let level: i8 = self.piece_pull_levels[k];
        self.piece_pull_levels[k] = if m.pull_out {
            level + 1
        } else {
            level - 1
        };
        undo
    }

    /// Takes back the movement that `undo` came from.
    pub fn undo_move(&mut self, undo: &MoveUndo)
        requires
            old(self).wf(),
            old(self)@.admits_undo(*undo),
        ensures
            final(self)@ == old(self)@.before(*undo),
            final(self).wf(),
            final(self).config == old(self).config,
            final(self).solve_max_depth == old(self).solve_max_depth,
            final(self).solve_movement_tests == old(self).solve_movement_tests,
    {
        self.player_position = undo.player_position;
        let k: usize = undo.piece_index as usize;
        let level: i8 = self.piece_pull_levels[k];
        self.piece_pull_levels[k] = if undo.pull_out {
            level - 1
        } else {
            level + 1
        };
    }

    /// The pull level in column `x` of row `y`.
    fn level_at(&self, x: i64, y: i64) -> (level: i8)
        requires
            self.wf(),
        ensures
            level == pull_level(self.config, self.piece_pull_levels@, x as int, y as int),
    {
        let width: i64 = self.config.width as i64;
        let height: i64 = self.config.height as i64;
        if y == height && x >= 0 && x < width {
            GROUND_LEVEL
        } else if x < 0 || x >= width || y < 0 || y >= height {
            0
        } else {
            let piece: i32 = self.config.cell_to_piece_matrix[y as usize][x as usize];
            if piece == NO_PIECE {
                0
            } else {
                assert(piece == self.config.piece_at(x as int, y as int));
                self.piece_pull_levels[piece as usize]
            }
        }
    }

    /// Whether the player can stand in column `x` of row `y`.
    fn foothold_at(&self, x: i64, y: i64) -> (stands: bool)
        requires
            self.wf(),
            y < i64::MAX,
        ensures
            stands == has_foothold(self.config, self.piece_pull_levels@, x as int, y as int),
    {
        if y == self.config.height as i64 - 1 && x >= 0 && x < self.config.width as i64 {
            true
        } else {
            self.level_at(x, y) < self.level_at(x, y + 1)
        }
    }

    /// Whether the player can stand at `pos`.
    pub fn position_has_foothold(&self, pos: CellPosition) -> (stands: bool)
        requires
            self.wf(),
        ensures
            stands == has_foothold(
                self.config,
                self.piece_pull_levels@,
                pos.x as int,
                pos.y as int,
            ),
    {
        self.foothold_at(pos.x as i64, pos.y as i64)
    }

    /// The index of the piece that owns column `x` of row `y`.
    fn piece_in(&self, x: i64, y: i64) -> (piece: i32)
        requires
            self.config.wf(),
        ensures
            piece == self.config.piece_at(x as int, y as int),
    {
        if x < 0 || x >= self.config.width as i64 || y < 0 || y >= self.config.height as i64 {
            NO_PIECE
        } else {
            self.config.cell_to_piece_matrix[y as usize][x as usize]
        }
    }

    /// The index of the piece that owns `pos`; [`NO_PIECE`] for a hole and
    /// outside the grid. Which piece owns a cell is a matter of the puzzle
    /// alone: how far the pieces are pulled plays no part.
    pub fn get_piece_at(&self, pos: CellPosition) -> (piece: i32)
        requires
            self.config.wf(),
        ensures
            piece == self.config.piece_at(pos.x as int, pos.y as int),
    {
        self.piece_in(pos.x as i64, pos.y as i64)
    }

    /// How far the cell at `pos` sticks out of the wall.
    pub fn get_pull_level_at(&self, pos: CellPosition) -> (level: i8)
        requires
            self.wf(),
        ensures
            level == pull_level(self.config, self.piece_pull_levels@, pos.x as int, pos.y as int),
    {
        self.level_at(pos.x as i64, pos.y as i64)
    }

    /// Appends to `outvec` the cell in column `x` of row `y` if the player
    /// can stand there.
    fn push_if_foothold(&self, outvec: &mut Vec<CellPosition>, x: i64, y: i64)
        requires
            self.wf(),
            i32::MIN - 1 <= x <= i32::MAX + 1,
            i32::MIN - 1 <= y <= i32::MAX + 1,
        ensures
            final(outvec)@ == old(outvec)@ + foothold_if(
                self.config,
                self.piece_pull_levels@,
                x as int,
                y as int,
            ),
    {
        if self.foothold_at(x, y) {
            proof {
                lemma_footholds_near_grid(self.config, self.piece_pull_levels@, x as int, y as int);
            }
            outvec.push(CellPosition { x: x as i32, y: y as i32 });
        }
    }

    /// Appends to `outvec` the cells that the player can get to from `pos`
    /// in one move: a step left, a step right, a climb straight up, up and
    /// left, up and right, in this order, each if it has a foothold.
    pub fn get_reachable_at(&self, outvec: &mut Vec<CellPosition>, pos: CellPosition)
        requires
            self.wf(),
        ensures
            final(outvec)@ == old(outvec)@ + footholds_around(
                self.config,
                self.piece_pull_levels@,
                pos,
            ),
    {
        let x: i64 = pos.x as i64;
        let y: i64 = pos.y as i64;
        self.push_if_foothold(outvec, x - 1, y);
        self.push_if_foothold(outvec, x + 1, y);
        self.push_if_foothold(outvec, x, y - 1);
        self.push_if_foothold(outvec, x - 1, y - 1);
        self.push_if_foothold(outvec, x + 1, y - 1);
    }

    /// All cells that the player can walk to from `pos` without pulling a
    /// piece: `pos` first, then the cells found by going on from each cell
    /// of the list in turn, each cell once.
    pub fn get_reachable_recursive(&self, pos: CellPosition) -> (reach: Vec<CellPosition>)
        requires
            self.wf(),
        ensures
            reach@ == reach_order(self.config, self.piece_pull_levels@, pos),
            reach@.len() >= 1,
            reach@[0] == pos,
            reach@.no_duplicates(),
            forall|c: CellPosition|
                reach@.contains(c) <==> reachable(self.config, self.piece_pull_levels@, pos, c),
    {
        let ghost config = self.config;
        let ghost levels = self.piece_pull_levels@;
        let mut to_check: Vec<CellPosition> = Vec::new();
        to_check.push(pos);
        let mut found: Vec<CellPosition> = Vec::new();
        let mut check_index: usize = 0;
        proof {
            lemma_reachable_self(config, levels, pos);
            lemma_reach_order(config, levels, pos);
            assert(to_check@ == seq![pos]);
        }
        while check_index < to_check.len()
            invariant
                self.wf(),
                config == self.config,
                levels == self.piece_pull_levels@,
                found@.len() == 0,
                exploring(config, levels, pos, to_check@, check_index as int),
                explore(config, levels, to_check@, check_index as int) == reach_order(
                    config,
                    levels,
                    pos,
                ),
            decreases reach_room(config) + 1 - check_index,
        {
            let from = to_check[check_index];
            let ghost before = to_check@;
            proof {
                lemma_reach_list_bounded(config, levels, before);
            }
            self.get_reachable_at(&mut found, from);
            assert(found@ == footholds_around(config, levels, from));
            let mut j: usize = 0;
            while j < found.len()
                invariant
                    j <= found.len(),
                    to_check@ == add_new(before, found@.take(j as int)),
                decreases found.len() - j,
            {
                let r = found[j];
                proof {
                    assert(found@.take(j + 1).drop_last() == found@.take(j as int));
                    assert(found@.take(j + 1).last() == r);
                }
                if !holds_cell(&to_check, r) {
                    to_check.push(r);
                }
                j = j + 1;
            }
            proof {
                assert(found@.take(found@.len() as int) == found@);
                lemma_explore_step(config, levels, pos, before, check_index as int);
            }
            found.clear();
            check_index = check_index + 1;
        }
        to_check
    }

    /// Appends to `outvec` the pull, from `pos`, of the piece in column `x`
    /// of the same row, if that piece is partly out.
    fn push_side_pull(&self, outvec: &mut Vec<PlayerMovement>, pos: CellPosition, x: i64)
        requires
            self.wf(),
        ensures
            final(outvec)@ == old(outvec)@ + side_pull(
                self.config,
                self.piece_pull_levels@,
                pos,
                x as int,
            ),
    {
        let piece: i32 = self.piece_in(x, pos.y as i64);
        if piece != NO_PIECE {
            let level: i8 = self.level_at(x, pos.y as i64);
            if level > 0 && level < MAX_PULL {
                outvec.push(
                    PlayerMovement { player_position: pos, piece_index: piece, pull_out: true, score: 0 },
                );
            }
        }
    }

    /// Appends to `outvec` the movements that the player can make at `pos`,
    /// each with score 0.
    pub fn get_potential_moves_at(&self, outvec: &mut Vec<PlayerMovement>, pos: CellPosition)
        requires
            self.wf(),
        ensures
            final(outvec)@ == old(outvec)@ + moves_at(self.config, self.piece_pull_levels@, pos),
    {
        let x: i64 = pos.x as i64;
        let y: i64 = pos.y as i64;
        let here: i8 = self.level_at(x, y);
        let under: i8 = self.level_at(x, y + 1);
        let piece: i32 = self.piece_in(x, y);
        if piece != NO_PIECE && here < under - 1 {
            outvec.push(
                PlayerMovement { player_position: pos, piece_index: piece, pull_out: true, score: 0 },
            );
        } else if under - here >= 2 {
            self.push_side_pull(outvec, pos, x + 1);
            self.push_side_pull(outvec, pos, x - 1);
        }
    }

    /// The score of `m`: minus the number of steps, sideways and up or
    /// down, from where it is made to the goal.
    pub fn rate_after_move(&self, m: &PlayerMovement) -> (score: i64)
        ensures
            score == score_of(self.config, m.player_position),
    {
        let dx: i64 = self.config.goal.x as i64 - m.player_position.x as i64;
        let dy: i64 = self.config.goal.y as i64 - m.player_position.y as i64;
        let across: i64 = if dx < 0 {
            -dx
        } else {
            dx
        };
        let along: i64 = if dy < 0 {
            -dy
        } else {
            dy
        };
        -(across + along)
    }

    /// Looks for a plan that brings the goal within the player's reach, in
    /// fewer than `solve_max_depth` movements, and returns the first that
    /// the search comes upon; `None` if there is no such plan. Leaves the
    /// player and the pieces as they were, and adds the number of movements
    /// tried to `solve_movement_tests`.
    pub fn solve(&mut self) -> (found: Option<Vec<PlayerMovement>>)
        requires
            old(self).wf(),
        ensures
            final(self).wf(),
            final(self)@ == old(self)@,
            final(self).config == old(self).config,
            final(self).solve_max_depth == old(self).solve_max_depth,
            plan_of(found) == search(
                old(self).config,
                old(self)@,
                budget_at(old(self).solve_max_depth as int, 0),
            ).0,
            final(self).solve_movement_tests == tally(
                old(self).solve_movement_tests as int,
                search(
                    old(self).config,
                    old(self)@,
                    budget_at(old(self).solve_max_depth as int, 0),
                ).1,
            ),
            found matches Some(plan) ==> {
                &&& plan@.len() < old(self).solve_max_depth
                &&& solves(old(self).config, old(self)@, plan@)
                &&& takes_first_chance(old(self).config, old(self)@, plan@)
            },
            found is None ==> forall|plan: Seq<PlayerMovement>|
                plan.len() < old(self).solve_max_depth ==> !#[trigger] solves(
                    old(self).config,
                    old(self)@,
                    plan,
                ),
    {
        proof {
            let budget = budget_at(self.solve_max_depth as int, 0);
            lemma_search_sound(self.config, self@, budget);
            lemma_search_finds(self.config, self@, budget);
        }
        let mut moves_temp: Vec<Vec<PlayerMovement>> = Vec::new();
        self.solve_search(0, &mut moves_temp)
    }

    /// The search at `depth`. `moves_temp` holds one list of candidates for
    /// each depth; the lists of the depths above are left as they are. At
    /// the depth bound the search gives up at once: it finds nothing and
    /// touches neither the solver nor `moves_temp`.
    #[verifier::loop_isolation(false)]
    fn solve_search(&mut self, depth: i32, moves_temp: &mut Vec<Vec<PlayerMovement>>) -> (found:
        Option<Vec<PlayerMovement>>)
        requires
            old(self).wf(),
            0 <= depth <= old(moves_temp).len(),
        ensures
            final(self).wf(),
            final(self)@ == old(self)@,
            final(self).config == old(self).config,
            final(self).solve_max_depth == old(self).solve_max_depth,
            plan_of(found) == search(
                old(self).config,
                old(self)@,
                budget_at(old(self).solve_max_depth as int, depth as int),
            ).0,
            final(self).solve_movement_tests == tally(
                old(self).solve_movement_tests as int,
                search(
                    old(self).config,
                    old(self)@,
                    budget_at(old(self).solve_max_depth as int, depth as int),
                ).1,
            ),
            final(moves_temp).len() >= old(moves_temp).len(),
            forall|k: int| 0 <= k < depth ==> final(moves_temp)[k] == old(moves_temp)[k],
            depth >= old(self).solve_max_depth ==> final(moves_temp)@ == old(moves_temp)@,
        decreases old(self).solve_max_depth - depth,
    {
        let ghost config = self.config;
        let ghost start = self@;
        let ghost budget = budget_at(self.solve_max_depth as int, depth as int);
        let ghost tests_before = self.solve_movement_tests as int;
        let ghost lists_before = moves_temp@;
        if depth >= self.solve_max_depth {
            return None;
        }
        if depth as usize >= moves_temp.len() {
            moves_temp.push(Vec::new());
        }
        let d: usize = depth as usize;
        let reach = self.get_reachable_recursive(self.player_position);
        moves_temp[d].clear();
        let mut i: usize = 0;
        while i < reach.len()
            invariant
                self.wf(),
                self.config == config,
                self@ == start,
                self.solve_movement_tests == tests_before,
                self.solve_max_depth == old(self).solve_max_depth,
                d == depth,
                i <= reach.len(),
                d < moves_temp.len(),
                moves_temp.len() >= lists_before.len(),
                forall|k: int| 0 <= k < depth ==> moves_temp[k] == lists_before[k],
                moves_temp[d as int]@ == moves_from(config, start.levels, reach@.take(i as int)),
                forall|t: int| 0 <= t < i ==> reach@[t] != config.goal,
            decreases reach.len() - i,
        {
            let r = reach[i];
            if r.x == self.config.goal.x && r.y == self.config.goal.y {
                proof {
                    assert(reach@.contains(config.goal));
                }
                return Some(Vec::new());
            }
            proof {
                assert(reach@.take(i + 1).drop_last() == reach@.take(i as int));
            }
            self.get_potential_moves_at(&mut moves_temp[d], r);
            i = i + 1;
        }
        let ghost gathered = moves_temp[d as int]@;
        proof {
            assert(reach@.take(reach@.len() as int) == reach@);
            if reach@.contains(config.goal) {
                let t = choose|t: int| 0 <= t < reach@.len() && reach@[t] == config.goal;
                assert(false);
            }
            assert(!goal_in_reach(config, start));
        }
        let mut j: usize = 0;
        while j < moves_temp[d].len()
            invariant
                self.wf(),
                self@ == start,
                self.solve_movement_tests == tests_before,
                self.solve_max_depth == old(self).solve_max_depth,
                d == depth,
                d < moves_temp.len(),
                moves_temp.len() >= lists_before.len(),
                forall|k: int| 0 <= k < depth ==> moves_temp[k] == lists_before[k],
                j <= moves_temp[d as int]@.len(),
                moves_temp[d as int]@.len() == gathered.len(),
                self.config == config,
                forall|t: int| 0 <= t < j ==> moves_temp[d as int]@[t] == scored(config, gathered[t]),
                forall|t: int| j <= t < gathered.len() ==> moves_temp[d as int]@[t] == gathered[t],
            decreases gathered.len() - j,
        {
            let mut m = moves_temp[d][j];
            m.score = self.rate_after_move(&m);
            moves_temp[d][j] = m;
            j = j + 1;
        }
        assert(moves_temp[d as int]@ == all_scored(config, gathered));
        sort_by_score(&mut moves_temp[d]);
        let ghost moves = moves_temp[d as int]@;
        assert(moves == candidates(config, start));
        let ghost mut tried: nat = 0;
        let mut m_index: usize = 0;
        assert(moves.skip(0) == moves);
        while m_index < moves_temp[d].len()
            invariant
                self.wf(),
                self.config == config,
                self@ == start,
                self.solve_max_depth == old(self).solve_max_depth,
                depth < self.solve_max_depth,
                d == depth,
                budget == budget_at(self.solve_max_depth as int, depth as int),
                d < moves_temp.len(),
                moves_temp.len() >= lists_before.len(),
                forall|k: int| 0 <= k < depth ==> moves_temp[k] == lists_before[k],
                moves_temp[d as int]@ == moves,
                m_index <= moves.len(),
                moves == candidates(config, start),
                !goal_in_reach(config, start),
                self.solve_movement_tests == tally(tests_before, tried),
                search(config, start, budget).0 == try_each(
                    config,
                    start,
                    moves.skip(m_index as int),
                    budget,
                ).0,
                search(config, start, budget).1 == tried + try_each(
                    config,
                    start,
                    moves.skip(m_index as int),
                    budget,
                ).1,
            decreases moves.len() - m_index,
        {
            if self.solve_movement_tests < i32::MAX {
                self.solve_movement_tests = self.solve_movement_tests + 1;
            }
            let m = moves_temp[d][m_index];
            let ghost rest = moves.skip(m_index as int);
            let ghost below = search(config, start.after(m), (budget - 1) as nat);
            proof {
                assert(rest[0] == m);
                assert(rest.drop_first() == moves.skip(m_index + 1));
                assert(moves.contains(m));
                lemma_candidates(config, start, m);
                lemma_legal_is_admitted(config, start, m);
                lemma_after_fits(config, start, m);
                lemma_undo_restores(start, m);
            }
            let undo = self.apply_move(&m);
            let solution = self.solve_search(depth + 1, moves_temp);
            self.undo_move(&undo);
            match solution {
                Some(mut solution_vec) => {
                    let ghost plan = solution_vec@;
                    solution_vec.insert(0, m);
                    proof {
                        assert(solution_vec@ == seq![m] + plan);
                    }
                    return Some(solution_vec);
                },
                None => {},
            }
            proof {
                tried = tried + below.1 + 1;
            }
            m_index = m_index + 1;
        }
        None
    }
}

/// The plan that a search hands back, as a sequence of movements.
pub open spec fn plan_of(found: Option<Vec<PlayerMovement>>) -> Option<Seq<PlayerMovement>> {
    match found {
        Some(plan) => Some(plan@),
        None => None,
    }
}

} // verus!
