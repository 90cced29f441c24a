//! The solver: values of positions found by a worklist with three-valued
//! memoization, which copes with cycles in the graph of positions.
use crate::configuration::{lemma_switched_beans, Configuration, Position};
use crate::partition::{
    bean_total, lemma_lex_rank_below_ways, lemma_lex_rank_injective, partition_rank,
};
use crate::score::{slot_in_tier, ConfigurationScore, ScoreStore};
use crate::search::{
    lemma_best_score, lemma_legal_moves, lemma_rate_moves, lemma_simple_score, lemma_step_ok,
    moves_ok, on_worklist, scores_kept, search_ok, store_ok,
};
use crate::tables::{even_partitions, lemma_even_partitions_monotonic, ways, CountTables};
use crate::termination::{budget, lemma_step_progress, next_flags, retry_ok};
use vstd::prelude::*;

verus! {

/// Why a search did not give a score.
#[derive(Copy, Clone, PartialEq, Eq, Debug)]
pub enum SolveError {
    /// A postponed position came up again and all its children were
    /// postponed as well: a cycle that nothing outside it can resolve.
    PostponedCycle,
    /// The worklist ran empty and the position still had no score.
    Unresolved,
}

/// Whether the side that owns pits 6-11 has no beans.
pub open spec fn opponent_side_empty(p: Position) -> bool {
    forall|j: int| 6 <= j < 12 ==> p.pits[j] == 0
}

/// Whether the position has a slot in a score table of tiers up to
/// `limit`, or is the empty board.
pub open spec fn playable(p: Position, limit: nat) -> bool {
    &&& p.pits.len() == 12
    &&& p.skips_valid()
    &&& p.beans() % 2 == 0
    &&& p.beans() <= 2 * limit
    &&& limit <= 36
}

/// The tag of a position that needs no search, and the table after the
/// lookup: the empty board scores 0 and touches no slot; a position not
/// yet visited whose other side is empty scores all its beans, and the
/// table records it; any other position has the tag of its slot.
pub open spec fn simple_score(
    store: Seq<ConfigurationScore>,
    p: Position,
) -> (Seq<ConfigurationScore>, ConfigurationScore) {
    let slot = p.index() as int;
    if p.beans() == 0 {
        (store, ConfigurationScore::Score(0))
    } else if store[slot] is NotVisited && opponent_side_empty(p) {
        let tag = ConfigurationScore::Score(p.beans() as i8);
        (store.update(slot, tag), tag)
    } else {
        (store, store[slot])
    }
}

/// The slot of a board with beans lies in the tier of its bean count.
pub proof fn lemma_index_in_tier(p: Position)
    requires
        p.pits.len() == 12,
        p.skips_valid(),
        p.beans() % 2 == 0,
        2 <= p.beans() <= 72,
    ensures
        slot_in_tier(p.index() as int, p.beans() / 2),
{
    lemma_lex_rank_below_ways(p.pits);
    let tier = p.beans() / 2;
    assert(2 * tier == p.beans());
    assert(even_partitions(tier) == even_partitions((tier - 1) as nat) + ways(12, 2 * tier));
}

/// The slot of a playable board with beans exists in a table of the
/// tiers up to `limit`.
pub proof fn lemma_index_in_store(p: Position, limit: nat)
    requires
        playable(p, limit),
        p.beans() > 0,
    ensures
        p.index() < 15 * even_partitions(limit),
        slot_in_tier(p.index() as int, p.beans() / 2),
        1 <= p.beans() / 2 <= limit,
{
    lemma_index_in_tier(p);
    lemma_even_partitions_monotonic(p.beans() / 2, limit);
}

/// Looks a position up without searching: see [`simple_score`].
pub fn get_simple_scores(
    scores: &mut ScoreStore,
    tables: &CountTables,
    config: &Configuration,
) -> (tag: ConfigurationScore)
    requires
        tables.wf(),
        old(scores).wf(),
        playable(config@, old(scores).tier_limit()),
    ensures
        final(scores)@ == simple_score(old(scores)@, config@).0,
        tag == simple_score(old(scores)@, config@).1,
        final(scores).tier_limit() == old(scores).tier_limit(),
        final(scores).wf(),
{
    let index = config.to_index(tables);
    let sum = bean_total(&config.pits);
    if sum == 0 {
        return ConfigurationScore::Score(0);
    }
    proof {
        lemma_index_in_store(config@, scores.tier_limit());
    }
    match scores.read(index) {
        ConfigurationScore::NotVisited => {
            if other_side_is_empty(config) {
                scores.write(index, ConfigurationScore::Score(sum as i8));
            }
        },
        _ => {},
    }
    scores.read(index)
}

/// Whether pits 6-11 hold no beans.
fn other_side_is_empty(config: &Configuration) -> (empty: bool)
    ensures
        empty == opponent_side_empty(config@),
{
    let mut j: usize = 6;
    while j < 12
        invariant
            6 <= j <= 12,
            forall|k: int| 6 <= k < j ==> config.pits@[k] == 0,
        decreases 12 - j,
    {
        if config.pits[j] != 0 {
            assert(config@.pits[j as int] != 0);
            return false;
        }
        j += 1;
    }
    true
}

/// Boards of up to 72 beans that take the same slot are the same board.
pub proof fn lemma_index_injective(p: Position, q: Position)
    requires
        p.pits.len() == 12,
        q.pits.len() == 12,
        p.skips_valid(),
        q.skips_valid(),
        p.beans() % 2 == 0,
        q.beans() % 2 == 0,
        2 <= p.beans() <= 72,
        2 <= q.beans() <= 72,
        p.index() == q.index(),
    ensures
        p == q,
{
    lemma_index_in_tier(p);
    lemma_index_in_tier(q);
    let tp = p.beans() / 2;
    let tq = q.beans() / 2;
    if tp < tq {
        lemma_even_partitions_monotonic(tp, (tq - 1) as nat);
    } else if tq < tp {
        lemma_even_partitions_monotonic(tq, (tp - 1) as nat);
    } else {
        assert(partition_rank(p.pits) == partition_rank(q.pits));
        lemma_lex_rank_injective(p.pits, q.pits);
    }
}

/// The skip move of a position, if it has one.
pub open spec fn skip_moves(p: Position) -> Seq<(Position, nat)> {
    if p.player_remaining_skips > 0 && !p.cannot_be_skipped {
        seq![(p.skip(), 0nat)]
    } else {
        Seq::empty()
    }
}

/// The sowing moves out of the pits below `upto` that hold beans, each
/// with the board it leads to and the beans it captures.
pub open spec fn sow_moves(p: Position, upto: nat) -> Seq<(Position, nat)>
    decreases upto,
{
    if upto == 0 {
        Seq::empty()
    } else {
        let before = sow_moves(p, (upto - 1) as nat);
        if p.pits[upto - 1] != 0 {
            before.push(p.sow(upto - 1))
        } else {
            before
        }
    }
}

/// The moves of the side to move: the skip, if allowed, then the sowing
/// of each of its six pits that holds beans.
pub open spec fn legal_moves(p: Position) -> Seq<(Position, nat)> {
    skip_moves(p) + sow_moves(p, 6)
}

/// The tag of a move: that of the board it leads to, with the captured
/// beans added where that board has a score; and the table after the
/// lookup.
pub open spec fn rate_move(
    store: Seq<ConfigurationScore>,
    mv: (Position, nat),
) -> (Seq<ConfigurationScore>, ConfigurationScore) {
    let looked = simple_score(store, mv.0);
    (
        looked.0,
        match looked.1 {
            ConfigurationScore::Score(s) => ConfigurationScore::Score((s + mv.1) as i8),
            other => other,
        },
    )
}

/// The tags of the moves, looked up one after the other, and the table
/// after the lookups.
pub open spec fn rate_moves(
    store: Seq<ConfigurationScore>,
    moves: Seq<(Position, nat)>,
) -> (Seq<ConfigurationScore>, Seq<ConfigurationScore>)
    decreases moves.len(),
{
    if moves.len() == 0 {
        (store, Seq::empty())
    } else {
        let before = rate_moves(store, moves.drop_last());
        let last = rate_move(before.0, moves.last());
        (last.0, before.1.push(last.1))
    }
}

/// Whether every tag is `Postponed`.
pub open spec fn all_postponed(tags: Seq<ConfigurationScore>) -> bool {
    forall|i: int| 0 <= i < tags.len() ==> tags[i] is Postponed
}

/// Whether some tag is `NotVisited`.
pub open spec fn any_not_visited(tags: Seq<ConfigurationScore>) -> bool {
    exists|i: int| 0 <= i < tags.len() && tags[i] is NotVisited
}

/// The largest score among the tags, if any tag is a score.
pub open spec fn best_score(tags: Seq<ConfigurationScore>) -> Option<i8>
    decreases tags.len(),
{
    if tags.len() == 0 {
        None
    } else {
        match (tags.last(), best_score(tags.drop_last())) {
            (ConfigurationScore::Score(a), Some(b)) => Some(
                if a >= b {
                    a
                } else {
                    b
                },
            ),
            (ConfigurationScore::Score(a), None) => Some(a),
            (_, best) => best,
        }
    }
}

/// The boards of the moves whose tag is `NotVisited`, in the order of the
/// moves.
pub open spec fn unvisited_children(
    moves: Seq<(Position, nat)>,
    tags: Seq<ConfigurationScore>,
) -> Seq<Position>
    decreases moves.len(),
{
    if moves.len() == 0 || tags.len() != moves.len() {
        Seq::empty()
    } else {
        let before = unvisited_children(moves.drop_last(), tags.drop_last());
        if tags.last() is NotVisited {
            before.push(moves.last().0)
        } else {
            before
        }
    }
}

/// The state of a search: the score table, the worklist with its top at
/// the end, and whether the search has met a cycle it cannot resolve.
pub struct Search {
    /// The score table.
    pub store: Seq<ConfigurationScore>,
    /// The worklist.
    pub stack: Seq<Position>,
    /// Whether the search has failed.
    pub failed: bool,
}

/// Whether the search is over.
pub open spec fn halted(s: Search) -> bool {
    s.failed || s.stack.len() == 0
}

/// One round of the search: takes the top position off the worklist and
/// deals with it.
///
/// A position that has a score is dropped. Otherwise the moves of the
/// other side are rated. Where all of them are postponed, a position that
/// was postponed itself makes the search fail, and any other is dropped.
/// Else a postponed position takes the negated best score of its moves,
/// or goes back to `NotVisited` where no move has a score yet. A position
/// not yet visited with an unvisited child is marked `Postponed` and put
/// back under its unvisited children; with none it takes the negated best
/// score.
pub open spec fn step(s: Search) -> Search {
    let position = s.stack.last();
    let rest = s.stack.drop_last();
    let slot = position.index() as int;
    let previous = s.store[slot];
    if previous is Score {
        Search { store: s.store, stack: rest, failed: false }
    } else {
        let moves = legal_moves(position.switched());
        let rated = rate_moves(s.store, moves);
        let tags = rated.1;
        if all_postponed(tags) {
            Search { store: rated.0, stack: rest, failed: previous is Postponed }
        } else if previous is Postponed {
            let tag = match best_score(tags) {
                Some(best) => ConfigurationScore::Score((-best) as i8),
                None => ConfigurationScore::NotVisited,
            };
            Search { store: rated.0.update(slot, tag), stack: rest, failed: false }
        } else if any_not_visited(tags) {
            Search {
                store: rated.0.update(slot, ConfigurationScore::Postponed),
                stack: rest.push(position) + unvisited_children(moves, tags),
                failed: false,
            }
        } else {
            Search {
                store: rated.0.update(
                    slot,
                    ConfigurationScore::Score((-best_score(tags).unwrap()) as i8),
                ),
                stack: rest,
                failed: false,
            }
        }
    }
}

/// The search after at most `rounds` rounds; it stops when it is over.
pub open spec fn run(s: Search, rounds: nat) -> Search
    decreases rounds,
{
    if rounds == 0 || halted(s) {
        s
    } else {
        run(step(s), (rounds - 1) as nat)
    }
}

/// The moves as mathematical values.
pub open spec fn moves_view(moves: Seq<(Configuration, u8)>) -> Seq<(Position, nat)> {
    Seq::new(moves.len(), |i: int| (moves[i].0@, moves[i].1 as nat))
}

/// The worklist as mathematical values.
pub open spec fn positions(stack: Seq<Configuration>) -> Seq<Position> {
    Seq::new(stack.len(), |i: int| stack[i]@)
}

/// Lists the moves of the side to move, each with the board it leads to
/// and the beans it captures: see [`legal_moves`].
pub fn list_moves(config: &Configuration) -> (moves: Vec<(Configuration, u8)>)
    requires
        config@.beans() <= 255,
    ensures
        moves_view(moves@) == legal_moves(config@),
{
    let mut moves: Vec<(Configuration, u8)> = Vec::with_capacity(7);
    if config.player_remaining_skips > 0 && !config.cannot_be_skipped {
        moves.push((config.skip(), 0));
    }
    assert(moves_view(moves@) =~= skip_moves(config@));
    let mut i: u8 = 0;
    while i < 6
        invariant
            i <= 6,
            config@.beans() <= 255,
            moves_view(moves@) == skip_moves(config@) + sow_moves(config@, i as nat),
        decreases 6 - i,
    {
        let ghost before = moves_view(moves@);
        if config.pits[i as usize] != 0 {
            let outcome = config.sow(i);
            moves.push(outcome);
            assert(moves_view(moves@) =~= before.push((outcome.0@, outcome.1 as nat)));
        }
        i += 1;
        assert(moves_view(moves@) =~= skip_moves(config@) + sow_moves(config@, i as nat));
    }
    moves
}

/// Looks up the tag of each move: see [`rate_moves`].
fn rate_listed_moves(
    scores: &mut ScoreStore,
    tables: &CountTables,
    moves: &Vec<(Configuration, u8)>,
    Ghost(beans): Ghost<nat>,
) -> (tags: Vec<ConfigurationScore>)
    requires
        tables.wf(),
        store_ok(old(scores)@, old(scores).tier_limit()),
        moves_ok(moves_view(moves@), beans, old(scores).tier_limit()),
        beans <= 72,
    ensures
        final(scores)@ == rate_moves(old(scores)@, moves_view(moves@)).0,
        tags@ == rate_moves(old(scores)@, moves_view(moves@)).1,
        final(scores).tier_limit() == old(scores).tier_limit(),
{
    let ghost limit = scores.tier_limit();
    let ghost start = scores@;
    let ghost all = moves_view(moves@);
    let mut tags: Vec<ConfigurationScore> = Vec::new();
    let mut k: usize = 0;
    assert(all.take(0) =~= Seq::empty());
    while k < moves.len()
        invariant
            k <= moves.len(),
            tables.wf(),
            all == moves_view(moves@),
            moves_ok(all, beans, limit),
            beans <= 72,
            store_ok(start, limit),
            scores.tier_limit() == limit,
            scores@ == rate_moves(start, all.take(k as int)).0,
            tags@ == rate_moves(start, all.take(k as int)).1,
        decreases moves.len() - k,
    {
        let ghost done = all.take(k as int);
        proof {
            assert(moves_ok(done, beans, limit)) by {
                assert forall|i: int| 0 <= i < done.len() implies playable(
                    (#[trigger] done[i]).0,
                    limit,
                ) && done[i].0.beans() + done[i].1 == beans by {
                    assert(done[i] == all[i]);
                }
            }
            lemma_rate_moves(start, done, beans, limit);
            assert(all.take(k as int + 1).drop_last() =~= done);
            assert(all.take(k as int + 1).last() == all[k as int]);
            assert(playable(all[k as int].0, limit));
            lemma_simple_score(scores@, all[k as int].0, limit);
        }
        let child = moves[k].0;
        let seized = moves[k].1;
        let tag = match get_simple_scores(scores, tables, &child) {
            ConfigurationScore::Score(s) => ConfigurationScore::Score(s + seized as i8),
            other => other,
        };
        tags.push(tag);
        k += 1;
    }
    assert(all.take(k as int) =~= all);
    tags
}

/// Whether every tag is `Postponed`.
fn tags_all_postponed(tags: &Vec<ConfigurationScore>) -> (all: bool)
    ensures
        all == all_postponed(tags@),
{
    let mut k: usize = 0;
    while k < tags.len()
        invariant
            k <= tags.len(),
            forall|i: int| 0 <= i < k ==> tags@[i] is Postponed,
        decreases tags.len() - k,
    {
        match tags[k] {
            ConfigurationScore::Postponed => {},
            _ => {
                assert(!(tags@[k as int] is Postponed));
                return false;
            },
        }
        k += 1;
    }
    true
}

/// Whether some tag is `NotVisited`.
fn tags_any_not_visited(tags: &Vec<ConfigurationScore>) -> (any: bool)
    ensures
        any == any_not_visited(tags@),
{
    let mut k: usize = 0;
    while k < tags.len()
        invariant
            k <= tags.len(),
            forall|i: int| 0 <= i < k ==> !(tags@[i] is NotVisited),
        decreases tags.len() - k,
    {
        match tags[k] {
            ConfigurationScore::NotVisited => {
                assert(tags@[k as int] is NotVisited);
                return true;
            },
            _ => {},
        }
        k += 1;
    }
    false
}

/// The largest score among the tags.
fn tags_best_score(tags: &Vec<ConfigurationScore>) -> (best: Option<i8>)
    ensures
        best == best_score(tags@),
{
    let mut best: Option<i8> = None;
    let mut k: usize = 0;
    assert(tags@.take(0) =~= Seq::empty());
    while k < tags.len()
        invariant
            k <= tags.len(),
            best == best_score(tags@.take(k as int)),
        decreases tags.len() - k,
    {
        assert(tags@.take(k as int + 1).drop_last() =~= tags@.take(k as int));
        assert(tags@.take(k as int + 1).last() == tags@[k as int]);
        best = match (tags[k], best) {
            (ConfigurationScore::Score(a), Some(b)) => Some(
                if a >= b {
                    a
                } else {
                    b
                },
            ),
            (ConfigurationScore::Score(a), None) => Some(a),
            (_, kept) => kept,
        };
        k += 1;
    }
    assert(tags@.take(k as int) =~= tags@);
    best
}

/// Puts the boards of the moves rated `NotVisited` on the worklist.
fn push_unvisited(
    stack: &mut Vec<Configuration>,
    moves: &Vec<(Configuration, u8)>,
    tags: &Vec<ConfigurationScore>,
)
    requires
        tags@.len() == moves@.len(),
    ensures
        positions(final(stack)@) == positions(old(stack)@) + unvisited_children(
            moves_view(moves@),
            tags@,
        ),
{
    let ghost base = positions(stack@);
    let ghost all = moves_view(moves@);
    let mut k: usize = 0;
    assert(all.take(0) =~= Seq::empty());
    assert(tags@.take(0) =~= Seq::empty());
    assert(positions(stack@) =~= base + unvisited_children(all.take(0), tags@.take(0)));
    while k < moves.len()
        invariant
            k <= moves.len(),
            tags@.len() == moves@.len(),
            all == moves_view(moves@),
            positions(stack@) == base + unvisited_children(
                all.take(k as int),
                tags@.take(k as int),
            ),
        decreases moves.len() - k,
    {
        assert(all.take(k as int + 1).drop_last() =~= all.take(k as int));
        assert(tags@.take(k as int + 1).drop_last() =~= tags@.take(k as int));
        assert(all.take(k as int + 1).last() == all[k as int]);
        assert(tags@.take(k as int + 1).last() == tags@[k as int]);
        let ghost before = positions(stack@);
        match tags[k] {
            ConfigurationScore::NotVisited => {
                stack.push(moves[k].0);
                assert(positions(stack@) =~= before.push(all[k as int].0));
            },
            _ => {},
        }
        k += 1;
        assert(positions(stack@) =~= base + unvisited_children(
            all.take(k as int),
            tags@.take(k as int),
        ));
    }
    assert(all.take(k as int) =~= all);
    assert(tags@.take(k as int) =~= tags@);
}

/// A search in progress over the given table and worklist.
pub open spec fn searching(store: Seq<ConfigurationScore>, stack: Seq<Configuration>) -> Search {
    search_state(store, stack, false)
}

/// The state of a search over the given table and worklist.
pub open spec fn search_state(
    store: Seq<ConfigurationScore>,
    stack: Seq<Configuration>,
    failed: bool,
) -> Search {
    Search { store, stack: positions(stack), failed }
}

/// Runs one round of the search: see [`step`]. Returns whether the search
/// has failed.
pub fn solve_step(
    scores: &mut ScoreStore,
    tables: &CountTables,
    stack: &mut Vec<Configuration>,
) -> (failed: bool)
    requires
        tables.wf(),
        old(stack)@.len() > 0,
        search_ok(searching(old(scores)@, old(stack)@), old(scores).tier_limit()),
    ensures
        search_state(final(scores)@, final(stack)@, failed) == step(
            searching(old(scores)@, old(stack)@),
        ),
        final(scores).tier_limit() == old(scores).tier_limit(),
        search_ok(searching(final(scores)@, final(stack)@), old(scores).tier_limit()),
        scores_kept(old(scores)@, final(scores)@),
{
    let ghost limit = scores.tier_limit();
    let ghost before = searching(scores@, stack@);
    let ghost rest = before.stack.drop_last();
    proof {
        lemma_step_ok(before, limit);
        assert(before.stack.last() == stack@[stack@.len() - 1]@);
        assert(on_worklist(before.stack[before.stack.len() - 1], limit));
        lemma_index_in_store(before.stack.last(), limit);
        lemma_legal_moves(before.stack.last(), limit);
        lemma_switched_beans(before.stack.last());
    }
    let config = stack.pop().unwrap();
    assert(positions(stack@) =~= rest);
    let index = config.to_index(tables);
    let previous = scores.read(index);
    match previous {
        ConfigurationScore::Score(_) => {
            return false;
        },
        _ => {},
    }
    let switched = config.switched();
    let moves = list_moves(&switched);
    proof {
        lemma_rate_moves(scores@, moves_view(moves@), config@.beans(), limit);
    }
    let tags = rate_listed_moves(scores, tables, &moves, Ghost(config@.beans()));
    proof {
        lemma_best_score(tags@, config@.beans());
    }
    let was_postponed = match previous {
        ConfigurationScore::Postponed => true,
        _ => false,
    };
    if tags_all_postponed(&tags) {
        return was_postponed;
    }
    let best = tags_best_score(&tags);
    if was_postponed {
        match best {
            Some(the_score) => {
                scores.write(index, ConfigurationScore::Score(-the_score));
            },
            None => {
                scores.write(index, ConfigurationScore::NotVisited);
            },
        }
    } else if tags_any_not_visited(&tags) {
        scores.write(index, ConfigurationScore::Postponed);
        stack.push(config);
        assert(positions(stack@) =~= rest.push(config@));
        push_unvisited(stack, &moves, &tags);
    } else {
        proof {
            let i = choose|i: int| 0 <= i < tags@.len() && !(tags@[i] is Postponed);
            assert(tags@[i] is Score);
        }
        scores.write(index, ConfigurationScore::Score(-best.unwrap()));
    }
    false
}

/// What a search that is over has found for `root`.
pub open spec fn search_result(end: Search, root: Position) -> Result<i8, SolveError> {
    if end.failed {
        Err(SolveError::PostponedCycle)
    } else {
        match end.store[root.index() as int] {
            ConfigurationScore::Score(value) => Ok(value),
            _ => Err(SolveError::Unresolved),
        }
    }
}

/// Whether `after` and `result` are what solving `root` over the table
/// `before` gives: the tag of `root` if it needs no search; otherwise the
/// table and the finding of the search that starts with `root` alone on
/// the worklist and runs until it is over.
pub open spec fn solves(
    before: Seq<ConfigurationScore>,
    root: Position,
    after: Seq<ConfigurationScore>,
    result: Result<i8, SolveError>,
) -> bool {
    let looked = simple_score(before, root);
    match looked.1 {
        ConfigurationScore::Score(value) => after == looked.0 && result == Ok::<i8, SolveError>(
            value,
        ),
        _ => exists|rounds: nat| #[trigger]
            ends_as(Search { store: looked.0, stack: seq![root], failed: false }, rounds, root, after, result),
    }
}

/// Whether the search from `start` is over after `rounds` rounds, with
/// the table `after` and the finding `result` for `root`.
pub open spec fn ends_as(
    start: Search,
    rounds: nat,
    root: Position,
    after: Seq<ConfigurationScore>,
    result: Result<i8, SolveError>,
) -> bool {
    let end = run(start, rounds);
    halted(end) && after == end.store && result == search_result(end, root)
}

/// One more round of a search that is not over is a step from where it
/// stood.
pub proof fn lemma_run_one_more(start: Search, rounds: nat)
    requires
        !halted(run(start, rounds)),
    ensures
        run(start, rounds + 1) == step(run(start, rounds)),
    decreases rounds,
{
    assert(!halted(start));
    assert(run(start, rounds + 1) == run(step(start), rounds));
    if rounds > 0 {
        assert(run(start, rounds) == run(step(start), (rounds - 1) as nat));
        lemma_run_one_more(step(start), (rounds - 1) as nat);
    } else {
        assert(run(step(start), 0) == step(start));
    }
}

/// Finds the score of a position and records it in the table, together
/// with the scores of the positions that it had to resolve on the way:
/// see [`solves`].
pub fn compute_score(
    scores: &mut ScoreStore,
    tables: &CountTables,
    config: &Configuration,
) -> (result: Result<i8, SolveError>)
    requires
        tables.wf(),
        store_ok(old(scores)@, old(scores).tier_limit()),
        playable(config@, old(scores).tier_limit()),
    ensures
        solves(old(scores)@, config@, final(scores)@, result),
        final(scores)@ == solved(old(scores)@, config@).0,
        result == solved(old(scores)@, config@).1,
        final(scores).tier_limit() == old(scores).tier_limit(),
        store_ok(final(scores)@, final(scores).tier_limit()),
        scores_kept(old(scores)@, final(scores)@),
{
    let ghost limit = scores.tier_limit();
    let ghost given = scores@;
    proof {
        lemma_simple_score(given, config@, limit);
    }
    match get_simple_scores(scores, tables, config) {
        ConfigurationScore::Score(value) => {
            proof {
                lemma_solves_one_way(given, config@, scores@, Ok(value));
            }
            return Ok(value);
        },
        _ => {},
    }
    proof {
        lemma_index_in_store(config@, limit);
    }
    let index = config.to_index(tables);
    let mut stack: Vec<Configuration> = Vec::new();
    stack.push(*config);
    let ghost start = searching(scores@, stack@);
    let ghost mut marks: Seq<bool> = seq![false];
    let ghost mut rounds: nat = 0;
    assert(start.stack =~= seq![config@]);
    while stack.len() > 0
        invariant
            tables.wf(),
            scores.tier_limit() == limit,
            search_ok(searching(scores@, stack@), limit),
            retry_ok(searching(scores@, stack@), marks),
            searching(scores@, stack@) == run(start, rounds),
            limit == old(scores).tier_limit(),
            scores_kept(old(scores)@, scores@),
            start == (Search { store: given, stack: seq![config@], failed: false }),
            simple_score(old(scores)@, config@).0 == start.store,
            !(simple_score(old(scores)@, config@).1 is Score),
        decreases budget(marks, scores@.len()),
    {
        let ghost current = searching(scores@, stack@);
        proof {
            lemma_step_progress(current, marks, limit);
            lemma_run_one_more(start, rounds);
        }
        let failed = solve_step(scores, tables, &mut stack);
        proof {
            marks = next_flags(current, marks);
            rounds = rounds + 1;
        }
        if failed {
            assert(ends_as(start, rounds, config@, scores@, Err(SolveError::PostponedCycle)));
            proof {
                lemma_solves_one_way(
                    old(scores)@,
                    config@,
                    scores@,
                    Err(SolveError::PostponedCycle),
                );
            }
            return Err(SolveError::PostponedCycle);
        }
    }
    assert(positions(stack@).len() == 0);
    let result = match scores.read(index) {
        ConfigurationScore::Score(value) => Ok(value),
        _ => Err(SolveError::Unresolved),
    };
    assert(ends_as(start, rounds, config@, scores@, result));
    proof {
        lemma_solves_one_way(given, config@, scores@, result);
    }
    result
}

/// A search that is over stays as it is.
pub proof fn lemma_run_stays(start: Search, rounds: nat, more: nat)
    requires
        halted(run(start, rounds)),
    ensures
        run(start, rounds + more) == run(start, rounds),
    decreases rounds,
{
    if halted(start) {
        assert(run(start, rounds + more) == start);
    } else {
        assert(rounds > 0);
        lemma_run_stays(step(start), (rounds - 1) as nat, more);
        assert(run(start, rounds + more) == run(step(start), (rounds - 1 + more) as nat));
    }
}

/// Whether the search from `start` is over after `rounds` rounds.
pub open spec fn over_after(start: Search, rounds: nat) -> bool {
    halted(run(start, rounds))
}

/// The table and the finding that solving `root` over the table `before`
/// gives, where the search ends: see [`solves`].
pub open spec fn solved(
    before: Seq<ConfigurationScore>,
    root: Position,
) -> (Seq<ConfigurationScore>, Result<i8, SolveError>) {
    let looked = simple_score(before, root);
    match looked.1 {
        ConfigurationScore::Score(value) => (looked.0, Ok(value)),
        _ => {
            let start = Search { store: looked.0, stack: seq![root], failed: false };
            let end = run(start, choose|rounds: nat| over_after(start, rounds));
            (end.store, search_result(end, root))
        },
    }
}

/// Solving a position over a table has one outcome only.
pub proof fn lemma_solves_one_way(
    before: Seq<ConfigurationScore>,
    root: Position,
    after: Seq<ConfigurationScore>,
    result: Result<i8, SolveError>,
)
    requires
        solves(before, root, after, result),
    ensures
        after == solved(before, root).0,
        result == solved(before, root).1,
{
    let looked = simple_score(before, root);
    if !(looked.1 is Score) {
        let start = Search { store: looked.0, stack: seq![root], failed: false };
        let mine = choose|rounds: nat| #[trigger] ends_as(start, rounds, root, after, result);
        assert(over_after(start, mine));
        let other = choose|rounds: nat| over_after(start, rounds);
        if mine <= other {
            lemma_run_stays(start, mine, (other - mine) as nat);
        } else {
            lemma_run_stays(start, other, (mine - other) as nat);
        }
    }
}

} // verus!
