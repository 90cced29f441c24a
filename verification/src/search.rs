//! What every round of the search keeps true: the table stays within its
//! bounds, scores once given stay, and the worklist holds only boards that
//! have a slot.
use crate::configuration::{
    lemma_sow_leaves_board, lemma_sow_outcome, lemma_switched_beans, Position,
};
use crate::score::{scores_bounded, slot_in_tier, tag_within, ConfigurationScore};
use crate::solver::{
    all_postponed, any_not_visited, best_score, legal_moves, lemma_index_in_store,
    lemma_index_injective, opponent_side_empty, playable, rate_move, rate_moves, simple_score,
    skip_moves, sow_moves, step, unvisited_children, Search,
};
use crate::tables::{even_partitions, lemma_even_partitions_monotonic};
use vstd::prelude::*;

verus! {

/// Whether a table has the slots of the tiers up to `limit` and every
/// score in it is within the beans of its tier.
pub open spec fn store_ok(store: Seq<ConfigurationScore>, limit: nat) -> bool {
    &&& limit <= 36
    &&& store.len() == 15 * even_partitions(limit)
    &&& scores_bounded(store)
}

/// Whether a board may stand on the worklist: it has beans and a slot.
pub open spec fn on_worklist(p: Position, limit: nat) -> bool {
    playable(p, limit) && p.beans() >= 2
}

/// Whether a search is in order.
pub open spec fn search_ok(s: Search, limit: nat) -> bool {
    &&& store_ok(s.store, limit)
    &&& forall|k: int| 0 <= k < s.stack.len() ==> on_worklist(#[trigger] s.stack[k], limit)
}

/// Whether the second table differs from the first only in slots that
/// went from `NotVisited` to a score.
pub open spec fn only_scored(
    before: Seq<ConfigurationScore>,
    after: Seq<ConfigurationScore>,
) -> bool {
    &&& after.len() == before.len()
    &&& forall|slot: int|
        0 <= slot < before.len() && #[trigger] after[slot] != before[slot]
            ==> before[slot] is NotVisited && after[slot] is Score
}

/// Whether a tag, if it is a score, lies within `beans` either way.
pub open spec fn tag_in_range(tag: ConfigurationScore, beans: nat) -> bool {
    tag matches ConfigurationScore::Score(s) ==> -beans <= s <= beans
}

/// A slot belongs to one tier only.
pub proof fn lemma_slot_tier_unique(slot: int, t1: nat, t2: nat)
    requires
        slot_in_tier(slot, t1),
        slot_in_tier(slot, t2),
    ensures
        t1 == t2,
{
    if t1 < t2 {
        lemma_even_partitions_monotonic(t1, (t2 - 1) as nat);
    } else if t2 < t1 {
        lemma_even_partitions_monotonic(t2, (t1 - 1) as nat);
    }
}

/// Writing a tag that is within the tier of its slot keeps the table in
/// order.
pub proof fn lemma_store_update(
    store: Seq<ConfigurationScore>,
    limit: nat,
    slot: int,
    tier: nat,
    tag: ConfigurationScore,
)
    requires
        store_ok(store, limit),
        0 <= slot < store.len(),
        slot_in_tier(slot, tier),
        tag_within(tag, tier),
    ensures
        store_ok(store.update(slot, tag), limit),
{
    let after = store.update(slot, tag);
    assert forall|other: int, t: nat|
        0 <= other < after.len() && #[trigger] slot_in_tier(other, t) implies tag_within(
        #[trigger] after[other],
        t,
    ) by {
        if other == slot {
            lemma_slot_tier_unique(slot, tier, t);
        } else {
            assert(tag_within(store[other], t));
        }
    }
}

/// A lookup keeps the table in order, changes at most one slot from
/// `NotVisited` to a score, and gives a tag within the beans of the board.
pub proof fn lemma_simple_score(store: Seq<ConfigurationScore>, p: Position, limit: nat)
    requires
        store_ok(store, limit),
        playable(p, limit),
    ensures
        store_ok(simple_score(store, p).0, limit),
        only_scored(store, simple_score(store, p).0),
        tag_in_range(simple_score(store, p).1, p.beans()),
        !(simple_score(store, p).1 is Score) ==> p.beans() >= 2 && simple_score(store, p).1
            == store[p.index() as int] && simple_score(store, p).0 == store,
{
    if p.beans() > 0 {
        lemma_index_in_store(p, limit);
        let slot = p.index() as int;
        let tier = p.beans() / 2;
        if store[slot] is NotVisited && opponent_side_empty(p) {
            lemma_store_update(
                store,
                limit,
                slot,
                tier,
                ConfigurationScore::Score(p.beans() as i8),
            );
        } else {
            assert(tag_within(store[slot], tier));
        }
    }
}

/// Whether every move leads to a board that has a slot and accounts for
/// all `beans` beans.
pub open spec fn moves_ok(moves: Seq<(Position, nat)>, beans: nat, limit: nat) -> bool {
    forall|i: int|
        0 <= i < moves.len() ==> playable((#[trigger] moves[i]).0, limit) && moves[i].0.beans()
            + moves[i].1 == beans
}

/// Rating the moves keeps the table in order, only turns unvisited slots
/// into scores, and gives one tag a move, each within the beans of the
/// board moved from; a move rated `NotVisited` leads to a board with
/// beans whose slot was `NotVisited` before the rating.
pub proof fn lemma_rate_moves(
    store: Seq<ConfigurationScore>,
    moves: Seq<(Position, nat)>,
    beans: nat,
    limit: nat,
)
    requires
        store_ok(store, limit),
        moves_ok(moves, beans, limit),
        beans <= 72,
    ensures
        store_ok(rate_moves(store, moves).0, limit),
        only_scored(store, rate_moves(store, moves).0),
        rate_moves(store, moves).1.len() == moves.len(),
        forall|i: int|
            0 <= i < moves.len() ==> tag_in_range(#[trigger] rate_moves(store, moves).1[i], beans),
        forall|i: int|
            0 <= i < moves.len() && #[trigger] rate_moves(store, moves).1[i] is NotVisited
                ==> moves[i].0.beans() >= 2 && store[moves[i].0.index() as int] is NotVisited,
    decreases moves.len(),
{
    if moves.len() > 0 {
        let head = moves.drop_last();
        let mv = moves.last();
        assert(moves_ok(head, beans, limit)) by {
            assert forall|i: int| 0 <= i < head.len() implies playable(
                (#[trigger] head[i]).0,
                limit,
            ) && head[i].0.beans() + head[i].1 == beans by {
                assert(head[i] == moves[i]);
            }
        }
        lemma_rate_moves(store, head, beans, limit);
        let before = rate_moves(store, head);
        assert(playable(mv.0, limit) && mv.0.beans() + mv.1 == beans) by {
            assert(mv == moves[moves.len() - 1]);
        }
        lemma_simple_score(before.0, mv.0, limit);
        let after = rate_moves(store, moves);
        assert(after.1 == before.1.push(rate_move(before.0, mv).1));
        assert forall|i: int| 0 <= i < moves.len() implies tag_in_range(
            #[trigger] after.1[i],
            beans,
        ) by {
            if i < head.len() {
                assert(after.1[i] == before.1[i]);
            }
        }
        assert forall|i: int| 0 <= i < moves.len() && #[trigger] after.1[i] is NotVisited implies
            moves[i].0.beans() >= 2 && store[moves[i].0.index() as int] is NotVisited by {
            if i < head.len() {
                assert(after.1[i] == before.1[i]);
                assert(head[i] == moves[i]);
            } else {
                lemma_index_in_store(mv.0, limit);
                let slot = mv.0.index() as int;
                assert(before.0[slot] is NotVisited);
                if before.0[slot] != store[slot] {
                    assert(before.0[slot] is Score);
                }
            }
        }
    }
}

/// Whether no move leads to a board with beans that shares the slot
/// `slot`.
pub open spec fn moves_leave(moves: Seq<(Position, nat)>, slot: nat) -> bool {
    forall|i: int|
        0 <= i < moves.len() && (#[trigger] moves[i]).0.beans() >= 2 ==> moves[i].0.index()
            != slot
}

/// The sowing moves of the other side lead to boards that have a slot,
/// account for all beans, and differ from the board moved from.
pub proof fn lemma_sow_moves(c: Position, upto: nat, limit: nat)
    requires
        on_worklist(c, limit),
        upto <= 6,
    ensures
        sow_moves(c.switched(), upto).len() <= upto,
        moves_ok(sow_moves(c.switched(), upto), c.beans(), limit),
        moves_leave(sow_moves(c.switched(), upto), c.index()),
    decreases upto,
{
    let other = c.switched();
    lemma_switched_beans(c);
    if upto > 0 {
        lemma_sow_moves(c, (upto - 1) as nat, limit);
        let before = sow_moves(other, (upto - 1) as nat);
        let pit = upto - 1;
        if other.pits[pit] != 0 {
            let mv = other.sow(pit);
            lemma_sow_outcome(other, pit);
            lemma_sow_leaves_board(c, pit);
            let moves = before.push(mv);
            assert(moves == sow_moves(other, upto));
            assert(playable(mv.0, limit));
            if mv.0.beans() >= 2 && mv.0.index() == c.index() {
                lemma_index_injective(mv.0, c);
            }
            assert forall|i: int| 0 <= i < moves.len() implies playable(
                (#[trigger] moves[i]).0,
                limit,
            ) && moves[i].0.beans() + moves[i].1 == c.beans() by {
                if i < before.len() {
                    assert(moves[i] == before[i]);
                }
            }
            assert forall|i: int|
                0 <= i < moves.len() && (#[trigger] moves[i]).0.beans() >= 2 implies moves[i].0.index()
                != c.index() by {
                if i < before.len() {
                    assert(moves[i] == before[i]);
                }
            }
        }
    }
}

/// The moves of the other side are at most seven; they lead to boards
/// that have a slot, account for all beans, and differ from the board
/// moved from.
pub proof fn lemma_legal_moves(c: Position, limit: nat)
    requires
        on_worklist(c, limit),
    ensures
        legal_moves(c.switched()).len() <= 7,
        moves_ok(legal_moves(c.switched()), c.beans(), limit),
        moves_leave(legal_moves(c.switched()), c.index()),
{
    let other = c.switched();
    lemma_switched_beans(c);
    lemma_sow_moves(c, 6, limit);
    let skips = skip_moves(other);
    let sows = sow_moves(other, 6);
    let moves = legal_moves(other);
    if skips.len() > 0 {
        let child = other.skip();
        assert(playable(child, limit));
        if child.index() == c.index() {
            lemma_index_injective(child, c);
        }
    }
    assert forall|i: int| 0 <= i < moves.len() implies playable((#[trigger] moves[i]).0, limit)
        && moves[i].0.beans() + moves[i].1 == c.beans() by {
        if i >= skips.len() {
            assert(moves[i] == sows[i - skips.len()]);
        }
    }
    assert forall|i: int|
        0 <= i < moves.len() && (#[trigger] moves[i]).0.beans() >= 2 implies moves[i].0.index()
        != c.index() by {
        if i >= skips.len() {
            assert(moves[i] == sows[i - skips.len()]);
        }
    }
}

/// Whether every score of the first table still stands in the second.
pub open spec fn scores_kept(
    before: Seq<ConfigurationScore>,
    after: Seq<ConfigurationScore>,
) -> bool {
    &&& after.len() == before.len()
    &&& forall|slot: int|
        0 <= slot < before.len() && (#[trigger] before[slot]) is Score ==> after[slot]
            == before[slot]
}

/// The best score lies within the range of the tags, and there is one as
/// soon as one tag is a score.
pub proof fn lemma_best_score(tags: Seq<ConfigurationScore>, beans: nat)
    requires
        forall|i: int| 0 <= i < tags.len() ==> tag_in_range(#[trigger] tags[i], beans),
    ensures
        best_score(tags) matches Some(best) ==> -beans <= best <= beans,
        best_score(tags) is None <==> forall|i: int|
            0 <= i < tags.len() ==> !((#[trigger] tags[i]) is Score),
    decreases tags.len(),
{
    if tags.len() > 0 {
        let head = tags.drop_last();
        assert forall|i: int| 0 <= i < head.len() implies tag_in_range(
            #[trigger] head[i],
            beans,
        ) by {
            assert(head[i] == tags[i]);
        }
        lemma_best_score(head, beans);
        assert(tag_in_range(tags[tags.len() - 1], beans));
        if best_score(tags) is None {
            assert forall|i: int| 0 <= i < tags.len() implies !((#[trigger] tags[i]) is Score) by {
                if i < head.len() {
                    assert(head[i] == tags[i]);
                }
            }
        } else {
            if best_score(head) is Some {
                let i = choose|i: int| 0 <= i < head.len() && (#[trigger] head[i]) is Score;
                assert(tags[i] is Score);
            } else {
                assert(tags[tags.len() - 1] is Score);
            }
        }
    }
}

/// Whether move `i` is rated `NotVisited` and leads to `child`.
pub open spec fn unvisited_move(
    moves: Seq<(Position, nat)>,
    tags: Seq<ConfigurationScore>,
    i: int,
    child: Position,
) -> bool {
    0 <= i < moves.len() && tags[i] is NotVisited && moves[i].0 == child
}

/// Whether each of `children` is the board of a move rated `NotVisited`.
pub open spec fn children_of_moves(
    moves: Seq<(Position, nat)>,
    tags: Seq<ConfigurationScore>,
    children: Seq<Position>,
) -> bool {
    forall|k: int|
        0 <= k < children.len() ==> from_unvisited_move(moves, tags, #[trigger] children[k])
}

/// Whether `child` is the board of some move rated `NotVisited`.
pub open spec fn from_unvisited_move(
    moves: Seq<(Position, nat)>,
    tags: Seq<ConfigurationScore>,
    child: Position,
) -> bool {
    exists|i: int| unvisited_move(moves, tags, i, child)
}

/// Every unvisited child is the board of a move rated `NotVisited`, and
/// there are no more of them than moves.
pub proof fn lemma_unvisited_children(
    moves: Seq<(Position, nat)>,
    tags: Seq<ConfigurationScore>,
)
    requires
        tags.len() == moves.len(),
    ensures
        unvisited_children(moves, tags).len() <= moves.len(),
        children_of_moves(moves, tags, unvisited_children(moves, tags)),
    decreases moves.len(),
{
    if moves.len() > 0 {
        let head_moves = moves.drop_last();
        let head_tags = tags.drop_last();
        lemma_unvisited_children(head_moves, head_tags);
        let before = unvisited_children(head_moves, head_tags);
        let all = unvisited_children(moves, tags);
        assert forall|k: int| 0 <= k < all.len() implies from_unvisited_move(
            moves,
            tags,
            #[trigger] all[k],
        ) by {
            if k < before.len() {
                assert(all[k] == before[k]);
                let i = choose|i: int| unvisited_move(head_moves, head_tags, i, before[k]);
                assert(unvisited_move(moves, tags, i, all[k]));
            } else {
                assert(unvisited_move(moves, tags, moves.len() - 1, all[k]));
            }
        }
    }
}

/// A round keeps the search in order and keeps every score.
pub proof fn lemma_step_ok(s: Search, limit: nat)
    requires
        search_ok(s, limit),
        s.stack.len() > 0,
    ensures
        search_ok(step(s), limit),
        scores_kept(s.store, step(s).store),
{
    let position = s.stack.last();
    let rest = s.stack.drop_last();
    let slot = position.index() as int;
    let previous = s.store[slot];
    assert(on_worklist(position, limit)) by {
        assert(position == s.stack[s.stack.len() - 1]);
    }
    assert forall|k: int| 0 <= k < rest.len() implies on_worklist(#[trigger] rest[k], limit) by {
        assert(rest[k] == s.stack[k]);
    }
    lemma_index_in_store(position, limit);
    if !(previous is Score) {
        let moves = legal_moves(position.switched());
        lemma_legal_moves(position, limit);
        lemma_rate_moves(s.store, moves, position.beans(), limit);
        let rated = rate_moves(s.store, moves);
        let tags = rated.1;
        lemma_best_score(tags, position.beans());
        lemma_unvisited_children(moves, tags);
        let tier = position.beans() / 2;
        assert(2 * tier == position.beans());
        if all_postponed(tags) {
        } else if previous is Postponed {
            match best_score(tags) {
                Some(best) => {
                    lemma_store_update(
                        rated.0,
                        limit,
                        slot,
                        tier,
                        ConfigurationScore::Score((-best) as i8),
                    );
                },
                None => {
                    lemma_store_update(
                        rated.0,
                        limit,
                        slot,
                        tier,
                        ConfigurationScore::NotVisited,
                    );
                },
            }
        } else if any_not_visited(tags) {
            lemma_store_update(rated.0, limit, slot, tier, ConfigurationScore::Postponed);
            let children = unvisited_children(moves, tags);
            let stack = rest.push(position) + children;
            assert forall|k: int| 0 <= k < stack.len() implies on_worklist(
                #[trigger] stack[k],
                limit,
            ) by {
                if k < rest.len() {
                    assert(stack[k] == rest[k]);
                } else if k == rest.len() {
                    assert(stack[k] == position);
                } else {
                    let child = children[k - rest.len() - 1];
                    assert(stack[k] == child);
                    let i = choose|i: int| unvisited_move(moves, tags, i, child);
                    assert(playable(moves[i].0, limit));
                }
            }
        } else {
            let i = choose|i: int| 0 <= i < tags.len() && !(tags[i] is Postponed);
            assert(tags[i] is Score);
            let best = best_score(tags).unwrap();
            lemma_store_update(
                rated.0,
                limit,
                slot,
                tier,
                ConfigurationScore::Score((-best) as i8),
            );
        }
    }
}

} // verus!
