//! What the solver looks for, and how it looks.
//!
//! A plan solves a puzzle if the player can make its movements one after
//! the other and can then walk to the goal. The search tries, best score
//! first, every movement that the player can make, and after each looks on
//! in the same way, to a bounded depth; the first plan that it comes upon
//! is its answer. So the answer need not be the shortest plan, but if the
//! search finds none then none exists within the bound.

use vstd::prelude::*;
use crate::move_order::{lemma_ranking, ranking};
use crate::moves::{
    all_scored, lemma_moves_at, lemma_moves_from, moves_at, moves_from, score_of, scored,
};
use crate::physics::levels_fit;
use crate::player_movement::PlayerMovement;
use crate::puzzle_configuration::PuzzleConfiguration;
use crate::reachability::{lemma_reach_order, reach_order, reachable};
use crate::search_state::SearchState;

verus! {

/// Whether the player can walk to the goal as things stand.
pub open spec fn goal_in_reach(config: &PuzzleConfiguration, state: SearchState) -> bool {
    reachable(config, state.levels, state.player, config.goal)
}

/// The movement `m` without its score.
pub open spec fn unscored(m: PlayerMovement) -> PlayerMovement {
    PlayerMovement {
        player_position: m.player_position,
        piece_index: m.piece_index,
        pull_out: m.pull_out,
        score: 0,
    }
}

/// Whether the player can make the movement `m` in `state`: the player can
/// walk to where `m` is made and can there pull the piece that `m` pulls,
/// and `m` has the score of that place.
pub open spec fn legal_move(
    config: &PuzzleConfiguration,
    state: SearchState,
    m: PlayerMovement,
) -> bool {
    &&& reachable(config, state.levels, state.player, m.player_position)
    &&& moves_at(config, state.levels, m.player_position).contains(unscored(m))
    &&& m.score == score_of(config, m.player_position)
}

/// Whether `plan` solves the puzzle from `state`: its movements can be made
/// one after the other, and then the player can walk to the goal.
pub open spec fn solves(
    config: &PuzzleConfiguration,
    state: SearchState,
    plan: Seq<PlayerMovement>,
) -> bool
    decreases plan.len(),
{
    if plan.len() == 0 {
        goal_in_reach(config, state)
    } else {
        &&& legal_move(config, state, plan[0])
        &&& solves(config, state.after(plan[0]), plan.drop_first())
    }
}

/// Whether `plan` pulls nothing once the goal is in reach: before each of
/// its movements the player cannot yet walk to the goal.
pub open spec fn takes_first_chance(
    config: &PuzzleConfiguration,
    state: SearchState,
    plan: Seq<PlayerMovement>,
) -> bool
    decreases plan.len(),
{
    plan.len() == 0 || {
        &&& !goal_in_reach(config, state)
        &&& takes_first_chance(config, state.after(plan[0]), plan.drop_first())
    }
}

/// The movements that a search step tries in `state`, in the order in which
/// it tries them: all that the player can make at the cells in reach, each
/// with its score, best score first, and among those of one score first
/// those of the cell that is found first.
pub open spec fn candidates(config: &PuzzleConfiguration, state: SearchState) -> Seq<
    PlayerMovement,
> {
    ranking(
        all_scored(
            config,
            moves_from(config, state.levels, reach_order(config, state.levels, state.player)),
        ),
    )
}

/// What a search from `state` finds that may go `budget` steps deep, and
/// how many movements it tries on the way. A search that may go no step
/// finds nothing. One that has the goal in reach answers with the empty
/// plan. Any other tries its candidates in turn.
pub open spec fn search(config: &PuzzleConfiguration, state: SearchState, budget: nat) -> (
    Option<Seq<PlayerMovement>>,
    nat,
)
    decreases budget, 1nat, 0nat,
{
    if budget == 0 {
        (None, 0)
    } else if goal_in_reach(config, state) {
        (Some(Seq::empty()), 0)
    } else {
        try_each(config, state, candidates(config, state), budget)
    }
}

/// What a search step finds that tries the movements `moves` in turn: each
/// is made, and a search that may go one step less deep goes on from there;
/// the first plan found this way, behind the movement that led to it, is
/// the answer, and the movements after it are not tried.
pub open spec fn try_each(
    config: &PuzzleConfiguration,
    state: SearchState,
    moves: Seq<PlayerMovement>,
    budget: nat,
) -> (Option<Seq<PlayerMovement>>, nat)
    decreases budget, 0nat, moves.len(),
{
    if budget == 0 || moves.len() == 0 {
        (None, 0)
    } else {
        let below = search(config, state.after(moves[0]), (budget - 1) as nat);
        match below.0 {
            Some(plan) => (Some(seq![moves[0]] + plan), below.1 + 1),
            None => {
                let rest = try_each(config, state, moves.drop_first(), budget);
                (rest.0, below.1 + 1 + rest.1)
            },
        }
    }
}

/// How deep a search may still go at `depth` of `max_depth`.
pub open spec fn budget_at(max_depth: int, depth: int) -> nat {
    if max_depth > depth {
        (max_depth - depth) as nat
    } else {
        0
    }
}

/// The counter `start` after `tries` more tries: it stops at the largest
/// number that it can hold.
pub open spec fn tally(start: int, tries: nat) -> int {
    if start + tries > i32::MAX {
        i32::MAX as int
    } else {
        start + tries
    }
}

/// A movement that the state admits leaves every piece at a level that
/// fits.
pub proof fn lemma_after_fits(config: &PuzzleConfiguration, state: SearchState, m: PlayerMovement)
    requires
        levels_fit(config, state.levels),
        state.admits(m),
    ensures
        levels_fit(config, state.after(m).levels),
{
}

/// A movement that the player can make is one that the state admits.
pub proof fn lemma_legal_is_admitted(
    config: &PuzzleConfiguration,
    state: SearchState,
    m: PlayerMovement,
)
    requires
        config.wf(),
        levels_fit(config, state.levels),
        legal_move(config, state, m),
    ensures
        state.admits(m),
        m.pull_out,
{
    lemma_moves_at(config, state.levels, m.player_position, unscored(m));
}

/// The candidates of a search step are just the movements that the player
/// can make.
pub proof fn lemma_candidates(config: &PuzzleConfiguration, state: SearchState, m: PlayerMovement)
    requires
        config.wf(),
        levels_fit(config, state.levels),
    ensures
        candidates(config, state).contains(m) <==> legal_move(config, state, m),
{
    let reach = reach_order(config, state.levels, state.player);
    let found = moves_from(config, state.levels, reach);
    let rated = all_scored(config, found);
    lemma_ranking(rated);
    lemma_reach_order(config, state.levels, state.player);
    assert(candidates(config, state).contains(m) <==> rated.contains(m));
    if rated.contains(m) {
        let k = choose|k: int| 0 <= k < rated.len() && rated[k] == m;
        let u = found[k];
        assert(scored(config, u) == m);
        lemma_moves_from(config, state.levels, reach, u);
        let i = choose|i: int|
            0 <= i < reach.len() && moves_at(config, state.levels, #[trigger] reach[i]).contains(u);
        lemma_moves_at(config, state.levels, reach[i], u);
        assert(u == unscored(m));
        assert(reach.contains(reach[i]));
        assert(legal_move(config, state, m));
    }
    if legal_move(config, state, m) {
        let u = unscored(m);
        assert(reach.contains(m.player_position));
        let i = choose|i: int| 0 <= i < reach.len() && reach[i] == m.player_position;
        assert(moves_at(config, state.levels, reach[i]).contains(u));
        lemma_moves_from(config, state.levels, reach, u);
        let k = choose|k: int| 0 <= k < found.len() && found[k] == u;
        assert(rated[k] == scored(config, u));
        assert(scored(config, u) == m);
        assert(rated.contains(m));
    }
}

/// A plan that a search step finds among `moves`, if the player can make
/// each of them and cannot yet walk to the goal, solves the puzzle, is
/// shorter than the search's budget, pulls nothing once the goal is in
/// reach, and has no more movements than were tried.
pub proof fn lemma_try_each_sound(
    config: &PuzzleConfiguration,
    state: SearchState,
    moves: Seq<PlayerMovement>,
    budget: nat,
)
    requires
        config.wf(),
        levels_fit(config, state.levels),
        !goal_in_reach(config, state),
        forall|i: int| 0 <= i < moves.len() ==> legal_move(config, state, #[trigger] moves[i]),
    ensures
        try_each(config, state, moves, budget).0 matches Some(plan) ==> {
            &&& plan.len() < budget
            &&& plan.len() >= 1
            &&& solves(config, state, plan)
            &&& takes_first_chance(config, state, plan)
            &&& plan.len() <= try_each(config, state, moves, budget).1
        },
    decreases budget, 0nat, moves.len(),
{
    if budget > 0 && moves.len() > 0 {
        let m = moves[0];
        let next = state.after(m);
        let below = search(config, next, (budget - 1) as nat);
        lemma_legal_is_admitted(config, state, m);
        lemma_after_fits(config, state, m);
        match below.0 {
            Some(rest) => {
                lemma_search_sound(config, next, (budget - 1) as nat);
                let plan = seq![m] + rest;
                assert(plan[0] == m);
                assert(plan.drop_first() == rest);
            },
            None => {
                assert forall|i: int| 0 <= i < moves.drop_first().len() implies legal_move(
                    config,
                    state,
                    #[trigger] moves.drop_first()[i],
                ) by {
                    assert(moves.drop_first()[i] == moves[i + 1]);
                }
                lemma_try_each_sound(config, state, moves.drop_first(), budget);
            },
        }
    }
}

/// A plan that a search finds solves the puzzle, is shorter than the
/// search's budget, pulls nothing once the goal is in reach, and has no
/// more movements than the search tried.
pub proof fn lemma_search_sound(config: &PuzzleConfiguration, state: SearchState, budget: nat)
    requires
        config.wf(),
        levels_fit(config, state.levels),
    ensures
        search(config, state, budget).0 matches Some(plan) ==> {
            &&& plan.len() < budget
            &&& solves(config, state, plan)
            &&& takes_first_chance(config, state, plan)
            &&& plan.len() <= search(config, state, budget).1
        },
    decreases budget, 1nat, 0nat,
{
    if budget > 0 && !goal_in_reach(config, state) {
        let moves = candidates(config, state);
        assert forall|i: int| 0 <= i < moves.len() implies legal_move(
            config,
            state,
            #[trigger] moves[i],
        ) by {
            assert(moves.contains(moves[i]));
            lemma_candidates(config, state, moves[i]);
        }
        lemma_try_each_sound(config, state, moves, budget);
    }
}

/// Where a search step finds no plan among `moves`, the search that went
/// on from each of them found none.
pub proof fn lemma_try_each_none(
    config: &PuzzleConfiguration,
    state: SearchState,
    moves: Seq<PlayerMovement>,
    budget: nat,
    i: int,
)
    requires
        budget > 0,
        try_each(config, state, moves, budget).0 is None,
        0 <= i < moves.len(),
    ensures
        search(config, state.after(moves[i]), (budget - 1) as nat).0 is None,
    decreases moves.len(),
{
    if i > 0 {
        assert(moves.drop_first()[i - 1] == moves[i]);
        lemma_try_each_none(config, state, moves.drop_first(), budget, i - 1);
    }
}

/// Where a search finds no plan, no plan shorter than its budget solves
/// the puzzle.
pub proof fn lemma_search_complete(
    config: &PuzzleConfiguration,
    state: SearchState,
    budget: nat,
    plan: Seq<PlayerMovement>,
)
    requires
        config.wf(),
        levels_fit(config, state.levels),
        search(config, state, budget).0 is None,
        plan.len() < budget,
    ensures
        !solves(config, state, plan),
    decreases budget,
{
    if solves(config, state, plan) {
        let m = plan[0];
        let moves = candidates(config, state);
        lemma_candidates(config, state, m);
        let i = choose|i: int| 0 <= i < moves.len() && moves[i] == m;
        lemma_try_each_none(config, state, moves, budget, i);
        lemma_legal_is_admitted(config, state, m);
        lemma_after_fits(config, state, m);
        lemma_search_complete(config, state.after(m), (budget - 1) as nat, plan.drop_first());
    }
}

/// A search finds a plan just if some plan shorter than its budget solves
/// the puzzle.
pub proof fn lemma_search_finds(config: &PuzzleConfiguration, state: SearchState, budget: nat)
    requires
        config.wf(),
        levels_fit(config, state.levels),
    ensures
        search(config, state, budget).0 is Some <==> exists|plan: Seq<PlayerMovement>|
            plan.len() < budget && #[trigger] solves(config, state, plan),
{
    lemma_search_sound(config, state, budget);
    if search(config, state, budget).0 is None {
        assert forall|plan: Seq<PlayerMovement>| plan.len() < budget implies !#[trigger] solves(
            config,
            state,
            plan,
        ) by {
            lemma_search_complete(config, state, budget, plan);
        }
    }
}

} // verus!
