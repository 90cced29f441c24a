//! Laws of the solver, each stated over the tables and positions that the
//! contracts of the library speak of.
use crate::configuration::Position;
use crate::enumeration::lemma_empty_row;
use crate::partition::partition_rank;
use crate::score::ConfigurationScore;
use crate::search::{
    lemma_best_score, lemma_legal_moves, lemma_rate_moves, lemma_simple_score, moves_ok,
    on_worklist, scores_kept, search_ok, store_ok,
};
use crate::solver::{
    best_score, ends_as, legal_moves, lemma_index_in_store, opponent_side_empty, playable,
    rate_move, rate_moves, simple_score, solved, solves, step, Search, SolveError,
};
use crate::tables::even_partitions;
use vstd::prelude::*;

verus! {

/// The board without beans has rank 0, and solving a position on it
/// gives the score 0 and leaves the table as it is.
pub proof fn empty_board_ranks_and_scores_zero(store: Seq<ConfigurationScore>, p: Position)
    requires
        p.pits.len() == 12,
        forall|j: int| 0 <= j < 12 ==> p.pits[j] == 0,
    ensures
        partition_rank(p.pits) == 0,
        solved(store, p).0 == store,
        solved(store, p).1 == Ok::<i8, SolveError>(0),
{
    lemma_empty_row(p.pits);
}

/// A position with beans whose other side is empty, and whose slot holds
/// no tag yet or the score of all its beans, is solved without a search:
/// its score is the number of its beans, and the table records it.
pub proof fn empty_other_side_scores_all_beans(
    store: Seq<ConfigurationScore>,
    p: Position,
    limit: nat,
)
    requires
        store.len() == 15 * even_partitions(limit),
        playable(p, limit),
        p.beans() > 0,
        opponent_side_empty(p),
        store[p.index() as int] is NotVisited || store[p.index() as int]
            == ConfigurationScore::Score(p.beans() as i8),
    ensures
        solved(store, p).1 == Ok::<i8, SolveError>(p.beans() as i8),
        solved(store, p).0 == store.update(
            p.index() as int,
            ConfigurationScore::Score(p.beans() as i8),
        ),
{
    lemma_index_in_store(p, limit);
    let slot = p.index() as int;
    let tag = ConfigurationScore::Score(p.beans() as i8);
    if !(store[slot] is NotVisited) {
        assert(store.update(slot, tag) =~= store);
    }
}

/// Whether the tag of a move is the score of the board it leads to, as
/// the table holds it, with the captured beans added.
pub open spec fn child_settled(
    store: Seq<ConfigurationScore>,
    mv: (Position, nat),
    tag: ConfigurationScore,
) -> bool {
    if mv.0.beans() == 0 {
        tag == ConfigurationScore::Score(mv.1 as i8)
    } else {
        store[mv.0.index() as int] matches ConfigurationScore::Score(s) && tag
            == ConfigurationScore::Score((s + mv.1) as i8)
    }
}

/// Whether each tag is the score of its move as the table holds it.
pub open spec fn children_settled(
    store: Seq<ConfigurationScore>,
    moves: Seq<(Position, nat)>,
    tags: Seq<ConfigurationScore>,
) -> bool {
    &&& tags.len() == moves.len()
    &&& forall|i: int| 0 <= i < moves.len() ==> child_settled(store, #[trigger] moves[i], tags[i])
}

/// Whether the table holds a score for every move of the other side and
/// for the position itself, and the score of the position is the negated
/// best of the scores of the moves.
pub open spec fn settled(store: Seq<ConfigurationScore>, p: Position) -> bool {
    let moves = legal_moves(p.switched());
    let rated = rate_moves(store, moves);
    &&& rated.0 == store
    &&& children_settled(store, moves, rated.1)
    &&& best_score(rated.1) matches Some(best) && store[p.index() as int]
        == ConfigurationScore::Score((-best) as i8)
}

/// Moves whose boards all have their scores in the table are rated with
/// these scores, and the rating leaves the table as it is.
proof fn lemma_rate_settled(
    store: Seq<ConfigurationScore>,
    moves: Seq<(Position, nat)>,
    tags: Seq<ConfigurationScore>,
)
    requires
        children_settled(store, moves, tags),
    ensures
        rate_moves(store, moves).0 == store,
        rate_moves(store, moves).1 == tags,
    decreases moves.len(),
{
    if moves.len() > 0 {
        let head = moves.drop_last();
        let head_tags = tags.drop_last();
        assert forall|i: int| 0 <= i < head.len() implies child_settled(
            store,
            #[trigger] head[i],
            head_tags[i],
        ) by {
            assert(child_settled(store, moves[i], tags[i]));
        }
        lemma_rate_settled(store, head, head_tags);
        let last = moves.len() - 1;
        assert(child_settled(store, moves[last], tags[last]));
        assert(rate_move(store, moves.last()).1 == tags[last]);
        assert(rate_moves(store, moves).1 =~= tags);
    } else {
        assert(rate_moves(store, moves).1 =~= tags);
    }
}

/// After a rating, every move rated with a score has that score in the
/// table.
proof fn lemma_rating_settles(
    store: Seq<ConfigurationScore>,
    moves: Seq<(Position, nat)>,
    beans: nat,
    limit: nat,
    i: int,
)
    requires
        store_ok(store, limit),
        moves_ok(moves, beans, limit),
        beans <= 72,
        0 <= i < moves.len(),
        rate_moves(store, moves).1[i] is Score,
    ensures
        child_settled(rate_moves(store, moves).0, moves[i], rate_moves(store, moves).1[i]),
    decreases moves.len(),
{
    let head = moves.drop_last();
    let mv = moves.last();
    assert(moves_ok(head, beans, limit)) by {
        assert forall|k: int| 0 <= k < head.len() implies playable((#[trigger] head[k]).0, limit)
            && head[k].0.beans() + head[k].1 == beans by {
            assert(head[k] == moves[k]);
        }
    }
    lemma_rate_moves(store, head, beans, limit);
    let before = rate_moves(store, head);
    let after = rate_moves(store, moves);
    assert(mv == moves[moves.len() - 1]);
    assert(playable(mv.0, limit));
    lemma_simple_score(before.0, mv.0, limit);
    if i < head.len() {
        lemma_rating_settles(store, head, beans, limit, i);
        assert(after.1[i] == before.1[i]);
        assert(head[i] == moves[i]);
        assert(playable(moves[i].0, limit));
        if moves[i].0.beans() > 0 {
            lemma_index_in_store(moves[i].0, limit);
            let slot = moves[i].0.index() as int;
            assert(before.0[slot] is Score);
            if after.0[slot] != before.0[slot] {
                assert(before.0[slot] is NotVisited);
            }
        }
    } else {
        if mv.0.beans() > 0 {
            lemma_index_in_store(mv.0, limit);
        }
    }
}

/// When a round gives the top position a score while every move of the
/// other side is rated with a score, the table then holds the position
/// settled: rating the moves again over it gives the same scores, and
/// their negated best is the score just stored.
pub proof fn step_stores_negated_best(s: Search, limit: nat)
    requires
        search_ok(s, limit),
        s.stack.len() > 0,
        !(s.store[s.stack.last().index() as int] is Score),
        legal_moves(s.stack.last().switched()).len() > 0,
        forall|i: int|
            0 <= i < legal_moves(s.stack.last().switched()).len() ==> (#[trigger] rate_moves(
                s.store,
                legal_moves(s.stack.last().switched()),
            ).1[i]) is Score,
    ensures
        settled(step(s).store, s.stack.last()),
{
    let position = s.stack.last();
    assert(position == s.stack[s.stack.len() - 1]);
    assert(on_worklist(position, limit));
    let slot = position.index() as int;
    let moves = legal_moves(position.switched());
    lemma_index_in_store(position, limit);
    lemma_legal_moves(position, limit);
    lemma_rate_moves(s.store, moves, position.beans(), limit);
    let rated = rate_moves(s.store, moves);
    let tags = rated.1;
    lemma_best_score(tags, position.beans());
    assert(tags[0] is Score);
    let after = step(s).store;
    let best = best_score(tags).unwrap();
    assert(after == rated.0.update(slot, ConfigurationScore::Score((-best) as i8)));
    assert forall|i: int| 0 <= i < moves.len() implies child_settled(
        after,
        #[trigger] moves[i],
        tags[i],
    ) by {
        lemma_rating_settles(s.store, moves, position.beans(), limit, i);
        assert(playable(moves[i].0, limit));
        if moves[i].0.beans() > 0 {
            lemma_index_in_store(moves[i].0, limit);
            assert(moves[i].0.index() != position.index());
        }
    }
    lemma_rate_settled(after, moves, tags);
}

/// A position that a table holds settled stays settled in every later
/// table that keeps the scores.
pub proof fn settled_stays(
    store: Seq<ConfigurationScore>,
    later: Seq<ConfigurationScore>,
    p: Position,
    limit: nat,
)
    requires
        store.len() == 15 * even_partitions(limit),
        on_worklist(p, limit),
        settled(store, p),
        scores_kept(store, later),
    ensures
        settled(later, p),
{
    let moves = legal_moves(p.switched());
    let tags = rate_moves(store, moves).1;
    lemma_index_in_store(p, limit);
    lemma_legal_moves(p, limit);
    assert forall|i: int| 0 <= i < moves.len() implies child_settled(
        later,
        #[trigger] moves[i],
        tags[i],
    ) by {
        assert(child_settled(store, moves[i], tags[i]));
        assert(playable(moves[i].0, limit));
        if moves[i].0.beans() > 0 {
            lemma_index_in_store(moves[i].0, limit);
        }
    }
    lemma_rate_settled(later, moves, tags);
}

/// Solving a position again, once it has a score, gives the same score
/// and leaves the table as it is.
pub proof fn solving_again_changes_nothing(
    before: Seq<ConfigurationScore>,
    root: Position,
    after: Seq<ConfigurationScore>,
    result: Result<i8, SolveError>,
    again_after: Seq<ConfigurationScore>,
    again_result: Result<i8, SolveError>,
    limit: nat,
)
    requires
        before.len() == 15 * even_partitions(limit),
        playable(root, limit),
        solves(before, root, after, result),
        result is Ok,
        solves(after, root, again_after, again_result),
    ensures
        again_after == after,
        again_result == result,
{
    let looked = simple_score(before, root);
    if root.beans() > 0 {
        lemma_index_in_store(root, limit);
    }
    if !(looked.1 is Score) {
        let rounds = choose|rounds: nat| #[trigger]
            ends_as(
                Search { store: looked.0, stack: seq![root], failed: false },
                rounds,
                root,
                after,
                result,
            );
        assert(after[root.index() as int] is Score);
    }
}

} // verus!
