//! The order in which a search step tries its movements: best score first,
//! and among movements of one score the one first that was found first.

use vstd::prelude::*;
use crate::player_movement::PlayerMovement;

verus! {

/// Whether no movement stands before one that scores higher.
pub open spec fn scores_descend(moves: Seq<PlayerMovement>) -> bool {
    forall|i: int, j: int| 0 <= i < j < moves.len() ==> moves[i].score >= moves[j].score
}

/// The movements of `moves` that score `score`, in their order.
pub open spec fn with_score(moves: Seq<PlayerMovement>, score: i64) -> Seq<PlayerMovement>
    decreases moves.len(),
{
    if moves.len() == 0 {
        Seq::empty()
    } else {
        let rest = with_score(moves.drop_last(), score);
        if moves.last().score == score {
            rest.push(moves.last())
        } else {
            rest
        }
    }
}

/// Whether `ranked` is `moves` put in order: the scores descend, and the
/// movements of each score are those of `moves`, in the order that they
/// have there.
pub open spec fn is_ranking_of(ranked: Seq<PlayerMovement>, moves: Seq<PlayerMovement>) -> bool {
    &&& scores_descend(ranked)
    &&& forall|score: i64| #[trigger] with_score(ranked, score) == with_score(moves, score)
}

/// Where a movement that scores `score` goes into `ranked`: behind every
/// movement that scores at least as high.
pub open spec fn place_for(ranked: Seq<PlayerMovement>, score: i64) -> int
    decreases ranked.len(),
{
    if ranked.len() == 0 || ranked.last().score >= score {
        ranked.len() as int
    } else {
        place_for(ranked.drop_last(), score)
    }
}

/// `moves` put in order, by putting one movement after the other in its
/// place among those before it.
pub open spec fn ranking(moves: Seq<PlayerMovement>) -> Seq<PlayerMovement>
    decreases moves.len(),
{
    if moves.len() == 0 {
        Seq::empty()
    } else {
        let ranked = ranking(moves.drop_last());
        ranked.insert(place_for(ranked, moves.last().score), moves.last())
    }
}

/// The movements of one score in two lists, one after the other, are those
/// of the first list followed by those of the second.
pub proof fn lemma_with_score_add(a: Seq<PlayerMovement>, b: Seq<PlayerMovement>, score: i64)
    ensures
        with_score(a + b, score) == with_score(a, score) + with_score(b, score),
    decreases b.len(),
{
    if b.len() == 0 {
        assert(a + b == a);
    } else {
        assert((a + b).drop_last() == a + b.drop_last());
        lemma_with_score_add(a, b.drop_last(), score);
    }
}

/// A list in which every movement scores less than `score` has none that
/// scores `score`.
pub proof fn lemma_with_score_none(moves: Seq<PlayerMovement>, score: i64)
    requires
        forall|i: int| 0 <= i < moves.len() ==> (#[trigger] moves[i]).score < score,
    ensures
        with_score(moves, score).len() == 0,
    decreases moves.len(),
{
    if moves.len() > 0 {
        assert forall|i: int| 0 <= i < moves.drop_last().len() implies (
        #[trigger] moves.drop_last()[i]).score < score by {
            assert(moves.drop_last()[i] == moves[i]);
        }
        lemma_with_score_none(moves.drop_last(), score);
    }
}

/// A movement is in a list just if it is among the list's movements of its
/// score.
pub proof fn lemma_with_score_contains(moves: Seq<PlayerMovement>, m: PlayerMovement)
    ensures
        moves.contains(m) <==> with_score(moves, m.score).contains(m),
    decreases moves.len(),
{
    if moves.len() > 0 {
        let rest = moves.drop_last();
        let picked = with_score(moves, m.score);
        let picked_rest = with_score(rest, m.score);
        lemma_with_score_contains(rest, m);
        if moves.contains(m) {
            let i = choose|i: int| 0 <= i < moves.len() && moves[i] == m;
            if i < rest.len() {
                assert(rest[i] == m);
                let k = choose|k: int| 0 <= k < picked_rest.len() && picked_rest[k] == m;
                assert(picked[k] == m);
            } else {
                assert(picked[picked.len() - 1] == m);
            }
        }
        if picked.contains(m) {
            let k = choose|k: int| 0 <= k < picked.len() && picked[k] == m;
            if k < picked_rest.len() {
                assert(picked_rest[k] == m);
                let i = choose|i: int| 0 <= i < rest.len() && rest[i] == m;
                assert(moves[i] == m);
            } else {
                assert(moves[moves.len() - 1] == m);
            }
        }
    }
}

/// The place for a score lies in the list; all before it score at least as
/// high in a list whose scores descend, and all from it on score less.
pub proof fn lemma_place_for(ranked: Seq<PlayerMovement>, score: i64)
    requires
        scores_descend(ranked),
    ensures
        0 <= place_for(ranked, score) <= ranked.len(),
        forall|i: int| 0 <= i < place_for(ranked, score) ==> (#[trigger] ranked[i]).score >= score,
        forall|i: int|
            place_for(ranked, score) <= i < ranked.len() ==> (#[trigger] ranked[i]).score < score,
    decreases ranked.len(),
{
    if ranked.len() > 0 && ranked.last().score < score {
        let rest = ranked.drop_last();
        assert forall|i: int, j: int| 0 <= i < j < rest.len() implies rest[i].score
            >= rest[j].score by {
            assert(rest[i] == ranked[i]);
            assert(rest[j] == ranked[j]);
        }
        lemma_place_for(rest, score);
        assert forall|i: int| 0 <= i < place_for(ranked, score) implies (
        #[trigger] ranked[i]).score >= score by {
            assert(rest[i] == ranked[i]);
        }
        assert forall|i: int| place_for(ranked, score) <= i < ranked.len() implies (
        #[trigger] ranked[i]).score < score by {
            if i < rest.len() {
                assert(rest[i] == ranked[i]);
            }
        }
    }
}

/// Putting one more movement in its place keeps a ranking a ranking.
pub proof fn lemma_insert_ranked(
    ranked: Seq<PlayerMovement>,
    moves: Seq<PlayerMovement>,
    m: PlayerMovement,
)
    requires
        is_ranking_of(ranked, moves),
    ensures
        is_ranking_of(ranked.insert(place_for(ranked, m.score), m), moves.push(m)),
{
    let p = place_for(ranked, m.score);
    let longer = ranked.insert(p, m);
    lemma_place_for(ranked, m.score);
    let front = ranked.subrange(0, p);
    let back = ranked.subrange(p, ranked.len() as int);
    let one = seq![m];
    assert(ranked == front + back);
    assert(longer == (front + one) + back);
    assert(moves.push(m) == moves + one);
    assert forall|i: int, j: int| 0 <= i < j < longer.len() implies longer[i].score
        >= longer[j].score by {
        if i < p {
            assert(longer[i] == ranked[i]);
        } else if i > p {
            assert(longer[i] == ranked[i - 1]);
        }
        if j < p {
            assert(longer[j] == ranked[j]);
        } else if j > p {
            assert(longer[j] == ranked[j - 1]);
        }
    }
    assert forall|score: i64| #[trigger] with_score(longer, score) == with_score(
        moves.push(m),
        score,
    ) by {
        lemma_with_score_add(front, back, score);
        lemma_with_score_add(front, one, score);
        lemma_with_score_add(front + one, back, score);
        lemma_with_score_add(moves, one, score);
        assert(with_score(ranked, score) == with_score(moves, score));
        assert(one.drop_last() == Seq::<PlayerMovement>::empty());
        assert(with_score(one.drop_last(), score).len() == 0);
        if score == m.score {
            assert forall|i: int| 0 <= i < back.len() implies (#[trigger] back[i]).score
                < score by {
                assert(back[i] == ranked[p + i]);
            }
            lemma_with_score_none(back, score);
            assert(with_score(back, score) == Seq::<PlayerMovement>::empty());
            assert(with_score(longer, score) == with_score(front, score) + with_score(one, score));
            assert(with_score(moves, score) == with_score(front, score));
        } else {
            assert(with_score(one, score) == Seq::<PlayerMovement>::empty());
            assert(with_score(longer, score) == with_score(front, score) + with_score(
                back,
                score,
            ));
        }
    }
}

/// The ranking of a list is the list put in order by score, movements of
/// one score keeping the order they had; it has the movements of the list
/// and no others.
pub proof fn lemma_ranking(moves: Seq<PlayerMovement>)
    ensures
        is_ranking_of(ranking(moves), moves),
        ranking(moves).len() == moves.len(),
        forall|m: PlayerMovement| #[trigger] ranking(moves).contains(m) <==> moves.contains(m),
    decreases moves.len(),
{
    if moves.len() > 0 {
        let rest = moves.drop_last();
        lemma_ranking(rest);
        lemma_place_for(ranking(rest), moves.last().score);
        lemma_insert_ranked(ranking(rest), rest, moves.last());
        assert(rest.push(moves.last()) == moves);
    }
    assert forall|m: PlayerMovement| #[trigger] ranking(moves).contains(m) <==> moves.contains(
        m,
    ) by {
        lemma_with_score_contains(moves, m);
        lemma_with_score_contains(ranking(moves), m);
    }
}

proof fn lemma_rankings_agree(first: Seq<PlayerMovement>, second: Seq<PlayerMovement>)
    requires
        scores_descend(first),
        scores_descend(second),
        forall|score: i64| #[trigger] with_score(first, score) == with_score(second, score),
    ensures
        first == second,
    decreases first.len(),
{
    if first.len() == 0 || second.len() == 0 {
        if first.len() > 0 {
            lemma_with_score_contains(first, first[0]);
            lemma_with_score_contains(second, first[0]);
            assert(first.contains(first[0]));
        }
        if second.len() > 0 {
            lemma_with_score_contains(first, second[0]);
            lemma_with_score_contains(second, second[0]);
            assert(second.contains(second[0]));
        }
        assert(first =~= second);
    } else {
        let a = first.last();
        let b = second.last();
        let front = first.drop_last();
        let back = second.drop_last();
        lemma_with_score_contains(first, a);
        lemma_with_score_contains(second, a);
        lemma_with_score_contains(first, b);
        lemma_with_score_contains(second, b);
        assert(first.contains(first[first.len() - 1]));
        assert(second.contains(second[second.len() - 1]));
        let i = choose|i: int| 0 <= i < second.len() && second[i] == a;
        let j = choose|j: int| 0 <= j < first.len() && first[j] == b;
        assert(a.score == b.score);
        let picked = with_score(first, a.score);
        assert(picked == with_score(front, a.score).push(a));
        assert(picked == with_score(back, a.score).push(b));
        assert(picked.last() == a);
        assert(picked.last() == b);
        assert(with_score(front, a.score) == picked.drop_last());
        assert(with_score(back, a.score) == picked.drop_last());
        assert forall|x: int, y: int| 0 <= x < y < front.len() implies front[x].score
            >= front[y].score by {
            assert(front[x] == first[x] && front[y] == first[y]);
        }
        assert forall|x: int, y: int| 0 <= x < y < back.len() implies back[x].score
            >= back[y].score by {
            assert(back[x] == second[x] && back[y] == second[y]);
        }
        assert forall|score: i64| #[trigger] with_score(front, score) == with_score(
            back,
            score,
        ) by {
            assert(with_score(first, score) == with_score(second, score));
        }
        lemma_rankings_agree(front, back);
        assert(first == front.push(a));
        assert(second == back.push(b));
    }
}

/// A list has one ranking only: whatever puts it in order by score and
/// keeps the movements of each score in their order arrives at the same.
pub proof fn lemma_ranking_unique(ranked: Seq<PlayerMovement>, moves: Seq<PlayerMovement>)
    requires
        is_ranking_of(ranked, moves),
    ensures
        ranked == ranking(moves),
{
    lemma_ranking(moves);
    assert forall|score: i64| #[trigger] with_score(ranked, score) == with_score(
        ranking(moves),
        score,
    ) by {
        assert(with_score(ranked, score) == with_score(moves, score));
        assert(with_score(ranking(moves), score) == with_score(moves, score));
    }
    lemma_rankings_agree(ranked, ranking(moves));
}

/// Puts `moves` in order: best score first, movements of one score in the
/// order that they had.
pub fn sort_by_score(moves: &mut Vec<PlayerMovement>)
    ensures
        final(moves)@ == ranking(old(moves)@),
        is_ranking_of(final(moves)@, old(moves)@),
{
    let mut ranked: Vec<PlayerMovement> = Vec::new();
    let mut i: usize = 0;
    while i < moves.len()
        invariant
            i <= moves.len(),
            ranked@ == ranking(moves@.take(i as int)),
        decreases moves.len() - i,
    {
        let m = moves[i];
        let mut p: usize = ranked.len();
        assert(ranked@.take(p as int) == ranked@);
        while p > 0 && ranked[p - 1].score < m.score
            invariant
                p <= ranked.len(),
                place_for(ranked@, m.score) == place_for(ranked@.take(p as int), m.score),
            decreases p,
        {
            proof {
                assert(ranked@.take(p as int).drop_last() == ranked@.take(p - 1));
            }
            p = p - 1;
        }
        proof {
            assert(moves@.take(i + 1).drop_last() == moves@.take(i as int));
            if p > 0 {
                assert(ranked@.take(p as int).last() == ranked@[p - 1]);
            }
        }
        ranked.insert(p, m);
        i = i + 1;
    }
    proof {
        assert(moves@.take(moves@.len() as int) == moves@);
        lemma_ranking(moves@);
    }
    *moves = ranked;
}

} // verus!
