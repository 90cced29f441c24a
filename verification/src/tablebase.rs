//! The tablebase: solving all boards of a tier, and the bytes that the
//! scores of a finished tier make up.
use crate::configuration::{Configuration, Position};
use crate::enumeration::{lemma_nth_row, next_partition, nth_row, successor};
use crate::partition::{lemma_lex_rank_below_ways, total};
use crate::score::{ConfigurationScore, ScoreStore, POSTPONED_BYTE};
use crate::search::{scores_kept, store_ok};
use crate::solver::{compute_score, playable, solved, SolveError};
use crate::tables::{
    even_partitions, lemma_even_partitions_bound, lemma_even_partitions_monotonic,
    lemma_ways_monotonic, ways, CountTables,
};
use vstd::prelude::*;

verus! {

/// A slot that holds no final score where the tablebase needs one.
#[derive(Copy, Clone, PartialEq, Eq, Debug)]
pub struct UnfinishedScore {
    /// The slot.
    pub rank: u64,
}

/// The score of a tag that is final: a score below the two reserved
/// values.
pub open spec fn final_score(tag: ConfigurationScore) -> Option<i8> {
    match tag {
        ConfigurationScore::Score(value) => if value < POSTPONED_BYTE {
            Some(value)
        } else {
            None
        },
        _ => None,
    }
}

/// The byte that stands for a score in the file: the score in two's
/// complement.
pub open spec fn score_byte(value: i8) -> u8 {
    if value >= 0 {
        value as u8
    } else {
        (value + 256) as u8
    }
}

/// First slot of a tier.
pub open spec fn tier_start(tier: nat) -> nat {
    15 * even_partitions((tier - 1) as nat)
}

/// First slot past a tier.
pub open spec fn tier_end(tier: nat) -> nat {
    15 * even_partitions(tier)
}

/// Whether every slot of the tier holds a final score.
pub open spec fn tier_finished(store: Seq<ConfigurationScore>, tier: nat) -> bool {
    forall|slot: int|
        tier_start(tier) <= slot < tier_end(tier) ==> final_score(#[trigger] store[slot]) is Some
}

/// The bytes of a finished tier: one for each slot, in the order of the
/// slots. Where a slot holds no final score, the first such slot.
pub fn tier_bytes(scores: &ScoreStore, tables: &CountTables, tier: usize) -> (result: Result<
    Vec<u8>,
    UnfinishedScore,
>)
    requires
        tables.wf(),
        scores.wf(),
        1 <= tier <= scores.tier_limit(),
    ensures
        result is Ok <==> tier_finished(scores@, tier as nat),
        result matches Ok(bytes) ==> {
            &&& bytes@.len() == tier_end(tier as nat) - tier_start(tier as nat)
            &&& forall|i: int|
                0 <= i < bytes@.len() ==> Some(#[trigger] bytes@[i]) == byte_in_slot(
                    scores@,
                    tier_start(tier as nat) + i,
                )
        },
        result matches Err(unfinished) ==> {
            &&& tier_start(tier as nat) <= unfinished.rank < tier_end(tier as nat)
            &&& final_score(scores@[unfinished.rank as int]) is None
            &&& forall|slot: int|
                tier_start(tier as nat) <= slot < unfinished.rank ==> final_score(
                    #[trigger] scores@[slot],
                ) is Some
        },
{
    proof {
        lemma_even_partitions_bound(tier as nat);
        lemma_even_partitions_bound((tier - 1) as nat);
        lemma_even_partitions_monotonic((tier - 1) as nat, tier as nat);
        lemma_even_partitions_monotonic(tier as nat, scores.tier_limit());
    }
    let start: u64 = tables.even_partitions(tier - 1) * 15;
    let end: u64 = tables.even_partitions(tier) * 15;
    let mut bytes: Vec<u8> = Vec::new();
    let mut rank: u64 = start;
    while rank < end
        invariant
            start <= rank <= end,
            start == tier_start(tier as nat),
            end == tier_end(tier as nat),
            end <= scores@.len(),
            bytes@.len() == rank - start,
            forall|slot: int| start <= slot < rank ==> final_score(#[trigger] scores@[slot]) is Some,
            forall|i: int|
                0 <= i < bytes@.len() ==> Some(#[trigger] bytes@[i]) == byte_in_slot(
                    scores@,
                    start + i,
                ),
        decreases end - rank,
    {
        match scores.read(rank).pack().unpack() {
            ConfigurationScore::Score(value) => {
                let byte: u8 = if value >= 0 {
                    value as u8
                } else {
                    (value as i16 + 256) as u8
                };
                bytes.push(byte);
            },
            _ => {
                return Err(UnfinishedScore { rank });
            },
        }
        rank += 1;
    }
    Ok(bytes)
}

/// The byte of a slot, where the slot holds a final score.
pub open spec fn byte_in_slot(store: Seq<ConfigurationScore>, slot: int) -> Option<u8> {
    match final_score(store[slot]) {
        Some(value) => Some(score_byte(value)),
        None => None,
    }
}

/// Number of positions of a tier: fifteen for each of its boards.
pub open spec fn tier_positions(tier: nat) -> nat {
    15 * ways(12, 2 * tier)
}

/// The `k`-th position of a tier, in the order of the slots: the boards
/// in the order of their ranks, and for each board the states of the
/// skip counters and the flag in the order of their numbers.
pub open spec fn root_of(tier: nat, k: nat) -> Position {
    Position {
        pits: nth_row(12, 2 * tier, k / 15),
        player_remaining_skips: (k % 5) / 2,
        opponent_remaining_skips: (k % 15) / 5,
        cannot_be_skipped: (k % 5) % 2 == 1,
    }
}

/// The table after the first `upto` positions of a tier have been
/// solved, one after the other, and whether one of the searches failed;
/// after a search that failed no more are made.
pub open spec fn solve_roots(
    store: Seq<ConfigurationScore>,
    tier: nat,
    upto: nat,
) -> (Seq<ConfigurationScore>, bool)
    decreases upto,
{
    if upto == 0 {
        (store, false)
    } else {
        let before = solve_roots(store, tier, (upto - 1) as nat);
        if before.1 {
            before
        } else {
            let this = solved(before.0, root_of(tier, (upto - 1) as nat));
            (this.0, this.1 == Err::<i8, SolveError>(SolveError::PostponedCycle))
        }
    }
}

/// How solving a tier ends, given the table it leaves and whether a
/// search failed.
pub open spec fn tier_outcome(
    end: (Seq<ConfigurationScore>, bool),
    tier: nat,
) -> Result<(), SolveError> {
    if end.1 {
        Err(SolveError::PostponedCycle)
    } else if tier_finished(end.0, tier) {
        Ok(())
    } else {
        Err(SolveError::Unresolved)
    }
}

/// Once a search has failed, the table stays as that search left it.
pub proof fn lemma_solve_roots_failed(
    store: Seq<ConfigurationScore>,
    tier: nat,
    upto: nat,
    later: nat,
)
    requires
        solve_roots(store, tier, upto).1,
        upto <= later,
    ensures
        solve_roots(store, tier, later) == solve_roots(store, tier, upto),
    decreases later,
{
    if upto < later {
        lemma_solve_roots_failed(store, tier, upto, (later - 1) as nat);
    }
}

/// Whether every slot of the tier holds a final score.
pub fn tier_is_finished(scores: &ScoreStore, tables: &CountTables, tier: usize) -> (finished: bool)
    requires
        tables.wf(),
        scores.wf(),
        1 <= tier <= scores.tier_limit(),
    ensures
        finished == tier_finished(scores@, tier as nat),
{
    proof {
        lemma_even_partitions_bound(tier as nat);
        lemma_even_partitions_bound((tier - 1) as nat);
        lemma_even_partitions_monotonic((tier - 1) as nat, tier as nat);
        lemma_even_partitions_monotonic(tier as nat, scores.tier_limit());
    }
    let start: u64 = tables.even_partitions(tier - 1) * 15;
    let end: u64 = tables.even_partitions(tier) * 15;
    let mut rank: u64 = start;
    while rank < end
        invariant
            start <= rank <= end,
            start == tier_start(tier as nat),
            end == tier_end(tier as nat),
            end <= scores@.len(),
            forall|slot: int| start <= slot < rank ==> final_score(#[trigger] scores@[slot]) is Some,
        decreases end - rank,
    {
        match scores.read(rank).pack().unpack() {
            ConfigurationScore::Score(_) => {},
            _ => {
                assert(final_score(scores@[rank as int]) is None);
                return false;
            },
        }
        rank += 1;
    }
    true
}

/// The position of a tier that has the board of rank `row` and the state
/// number `5 * opponent + code` of the skip counters and the flag.
pub proof fn lemma_root_of(tier: nat, row: nat, opponent: nat, code: nat)
    requires
        opponent < 3,
        code < 5,
    ensures
        root_of(tier, 15 * row + 5 * opponent + code) == (Position {
            pits: nth_row(12, 2 * tier, row),
            player_remaining_skips: code / 2,
            opponent_remaining_skips: opponent,
            cannot_be_skipped: code % 2 == 1,
        }),
{
    let k = 15 * row + 5 * opponent + code;
    assert(k / 15 == row);
    assert(k % 15 == 5 * opponent + code);
    assert(k % 5 == code);
    assert((5 * opponent + code) / 5 == opponent);
}

/// Solves one position of a tier, after those before it: see
/// [`solve_roots`]. Returns whether the search failed.
fn solve_root(
    scores: &mut ScoreStore,
    tables: &CountTables,
    config: &Configuration,
    Ghost(given): Ghost<Seq<ConfigurationScore>>,
    Ghost(tier): Ghost<nat>,
    Ghost(done): Ghost<nat>,
) -> (failed: bool)
    requires
        tables.wf(),
        store_ok(old(scores)@, old(scores).tier_limit()),
        playable(config@, old(scores).tier_limit()),
        config@ == root_of(tier, done),
        old(scores)@ == solve_roots(given, tier, done).0,
        !solve_roots(given, tier, done).1,
    ensures
        final(scores)@ == solve_roots(given, tier, done + 1).0,
        failed == solve_roots(given, tier, done + 1).1,
        final(scores).tier_limit() == old(scores).tier_limit(),
        store_ok(final(scores)@, final(scores).tier_limit()),
        scores_kept(old(scores)@, final(scores)@),
{
    let found = compute_score(scores, tables, config);
    match found {
        Err(SolveError::PostponedCycle) => true,
        _ => false,
    }
}

/// Solves every position of a tier, in the order of the slots, and then
/// looks whether every slot of the tier holds a final score. Fails as
/// soon as a search fails.
pub fn solve_tier(scores: &mut ScoreStore, tables: &CountTables, tier: usize) -> (result: Result<
    (),
    SolveError,
>)
    requires
        tables.wf(),
        store_ok(old(scores)@, old(scores).tier_limit()),
        1 <= tier <= old(scores).tier_limit(),
    ensures
        final(scores)@ == solve_roots(old(scores)@, tier as nat, tier_positions(tier as nat)).0,
        result == tier_outcome(
            solve_roots(old(scores)@, tier as nat, tier_positions(tier as nat)),
            tier as nat,
        ),
        final(scores).tier_limit() == old(scores).tier_limit(),
        store_ok(final(scores)@, final(scores).tier_limit()),
        scores_kept(old(scores)@, final(scores)@),
{
    let ghost given = scores@;
    let ghost limit = scores.tier_limit();
    let ghost level = tier as nat;
    let ghost beans = 2 * level;
    let ghost rows = ways(12, beans);
    let mut pits: [u8; 12] = [0;12];
    pits[11] = (2 * tier) as u8;
    let ghost mut row: nat = 0;
    let ghost mut done: nat = 0;
    let mut last = false;
    proof {
        assert(pits@ =~= nth_row(12, beans, 0));
        lemma_ways_monotonic(1, 0, 12, beans);
    }
    while !last
        invariant
            tables.wf(),
            1 <= tier <= limit,
            level == tier,
            beans == 2 * level,
            rows == ways(12, beans),
            limit == old(scores).tier_limit(),
            given == old(scores)@,
            scores.tier_limit() == limit,
            store_ok(scores@, limit),
            scores_kept(given, scores@),
            scores@ == solve_roots(given, level, done).0,
            !solve_roots(given, level, done).1,
            !last ==> row < rows && pits@ == nth_row(12, beans, row) && done == 15 * row,
            last ==> done == 15 * rows,
        decreases
                if last {
                    0
                } else {
                    rows - row
                },
    {
        proof {
            lemma_nth_row(12, beans, row);
        }
        let mut opponent: u8 = 0;
        while opponent < 3
            invariant
                opponent <= 3,
                tables.wf(),
                1 <= tier <= limit,
                level == tier,
                beans == 2 * level,
                rows == ways(12, beans),
                row < rows,
                limit == old(scores).tier_limit(),
                given == old(scores)@,
                scores.tier_limit() == limit,
                store_ok(scores@, limit),
                scores_kept(given, scores@),
                pits@ == nth_row(12, beans, row),
                total(pits@) == beans,
                done == 15 * row + 5 * opponent,
                scores@ == solve_roots(given, level, done).0,
                !solve_roots(given, level, done).1,
            decreases 3 - opponent,
        {
            let mut code: u8 = 0;
            while code < 5
                invariant
                    code <= 5,
                    opponent < 3,
                    tables.wf(),
                    1 <= tier <= limit,
                    level == tier,
                    beans == 2 * level,
                    rows == ways(12, beans),
                    row < rows,
                    limit == old(scores).tier_limit(),
                    given == old(scores)@,
                    scores.tier_limit() == limit,
                    store_ok(scores@, limit),
                    scores_kept(given, scores@),
                    pits@ == nth_row(12, beans, row),
                    total(pits@) == beans,
                    done == 15 * row + 5 * opponent + code,
                    scores@ == solve_roots(given, level, done).0,
                    !solve_roots(given, level, done).1,
                decreases 5 - code,
            {
                let config = Configuration {
                    pits,
                    player_remaining_skips: code / 2,
                    opponent_remaining_skips: opponent,
                    cannot_be_skipped: code % 2 == 1,
                };
                proof {
                    lemma_root_of(level, row, opponent as nat, code as nat);
                }
                let failed = solve_root(
                    scores,
                    tables,
                    &config,
                    Ghost(given),
                    Ghost(level),
                    Ghost(done),
                );
                proof {
                    done = done + 1;
                }
                if failed {
                    proof {
                        lemma_solve_roots_failed(given, level, done, tier_positions(level));
                    }
                    return Err(SolveError::PostponedCycle);
                }
                code += 1;
            }
            opponent += 1;
        }
        let ghost before = pits@;
        proof {
            lemma_nth_row(12, beans, row);
        }
        last = next_partition(&mut pits);
        proof {
            if !last {
                lemma_lex_rank_below_ways(pits@);
                assert(nth_row(12, beans, row + 1) == successor(nth_row(12, beans, row)));
            }
            row = row + 1;
        }
    }
    if tier_is_finished(scores, tables, tier) {
        Ok(())
    } else {
        Err(SolveError::Unresolved)
    }
}

} // verus!
