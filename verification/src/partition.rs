//! Partitions of beans over the pits and their dense ranks.
use crate::tables::{
    even_partitions, lemma_even_partitions_bound, lemma_ways_monotonic, lemma_ways_prefix_sum,
    lemma_ways_range_no_pits, lemma_ways_range_split, lemma_ways_top, ways, ways_range,
    CountTables, LARGEST_COUNT, LARGEST_SUM,
};
use vstd::prelude::*;

verus! {

/// Number of beans in a row of pits.
pub open spec fn total(pits: Seq<u8>) -> nat
    decreases pits.len(),
{
    if pits.len() == 0 {
        0
    } else {
        pits[0] as nat + total(pits.drop_first())
    }
}

/// Position of a row of pits among all rows of the same length and the
/// same number of beans, in dictionary order: the number of such rows
/// that hold fewer beans in the first pit where they differ.
pub open spec fn lex_rank(pits: Seq<u8>) -> nat
    decreases pits.len(),
{
    if pits.len() == 0 {
        0
    } else {
        ways_range(
            (pits.len() - 1) as nat,
            total(pits.drop_first()) + 1,
            total(pits) + 1,
        ) + lex_rank(pits.drop_first())
    }
}

/// Rank of a partition over twelve pits: the empty board has rank 0, any
/// other board follows all boards of the smaller even bean counts.
pub open spec fn partition_rank(pits: Seq<u8>) -> nat {
    if total(pits) == 0 {
        0
    } else {
        even_partitions((total(pits) / 2 - 1) as nat) + lex_rank(pits)
    }
}

/// A row of pits holds at least as many beans as any one of its pits.
pub proof fn lemma_total_bounds_pit(pits: Seq<u8>, i: int)
    requires
        0 <= i < pits.len(),
    ensures
        pits[i] <= total(pits),
    decreases pits.len(),
{
    if i > 0 {
        lemma_total_bounds_pit(pits.drop_first(), i - 1);
    }
}

/// Changing one pit changes the number of beans by the difference.
pub proof fn lemma_total_update(pits: Seq<u8>, i: int, beans: u8)
    requires
        0 <= i < pits.len(),
    ensures
        total(pits.update(i, beans)) == total(pits) - pits[i] + beans,
    decreases pits.len(),
{
    if i == 0 {
        assert(pits.update(i, beans).drop_first() =~= pits.drop_first());
    } else {
        assert(pits.update(i, beans).drop_first() =~= pits.drop_first().update(i - 1, beans));
        lemma_total_update(pits.drop_first(), i - 1, beans);
    }
}

/// The beans of two rows laid end to end add up.
pub proof fn lemma_total_concat(a: Seq<u8>, b: Seq<u8>)
    ensures
        total(a + b) == total(a) + total(b),
    decreases a.len(),
{
    if a.len() == 0 {
        assert(a + b =~= b);
    } else {
        assert((a + b).drop_first() =~= a.drop_first() + b);
        lemma_total_concat(a.drop_first(), b);
    }
}

/// The position of a row lies below the number of rows there are.
pub proof fn lemma_lex_rank_below_ways(pits: Seq<u8>)
    requires
        pits.len() >= 1,
    ensures
        lex_rank(pits) < ways(pits.len(), total(pits)),
    decreases pits.len(),
{
    let n = pits.len();
    let rest = pits.drop_first();
    let t = total(pits);
    let r = total(rest);
    if n == 1 {
        assert(rest.len() == 0);
        assert(lex_rank(rest) == 0);
        lemma_ways_range_no_pits(r + 1, t + 1);
    } else {
        lemma_lex_rank_below_ways(rest);
        let k = (n - 1) as nat;
        assert(ways_range(k, r, r + 1) == ways(k, r)) by {
            assert(ways_range(k, r, r) == 0);
        }
        lemma_ways_range_split(k, r, r + 1, t + 1);
        lemma_ways_range_split(k, 0, r, t + 1);
        lemma_ways_prefix_sum(k, t);
    }
}

/// Of two rows of one length and one bean count, the one with fewer
/// beans in the first pit comes first.
proof fn lemma_lex_rank_first_pit_orders(a: Seq<u8>, b: Seq<u8>)
    requires
        a.len() == b.len(),
        a.len() >= 1,
        total(a) == total(b),
        a[0] < b[0],
    ensures
        lex_rank(a) < lex_rank(b),
{
    let n = a.len();
    let k = (n - 1) as nat;
    let t = total(a);
    let ra = total(a.drop_first());
    let rb = total(b.drop_first());
    assert(rb < ra);
    if n == 1 {
        assert(a.drop_first().len() == 0);
        assert(b.drop_first().len() == 0);
        assert(ra == 0);
    } else {
        lemma_lex_rank_below_ways(a.drop_first());
        assert(ways_range(k, ra, ra + 1) == ways(k, ra)) by {
            assert(ways_range(k, ra, ra) == 0);
        }
        lemma_ways_range_split(k, rb + 1, ra + 1, t + 1);
        lemma_ways_range_split(k, rb + 1, ra, ra + 1);
    }
}

/// Rows of one length and one bean count that differ take different
/// positions.
pub proof fn lemma_lex_rank_injective(a: Seq<u8>, b: Seq<u8>)
    requires
        a.len() == b.len(),
        total(a) == total(b),
        lex_rank(a) == lex_rank(b),
    ensures
        a == b,
    decreases a.len(),
{
    if a.len() == 0 {
        assert(a =~= b);
    } else {
        if a[0] < b[0] {
            lemma_lex_rank_first_pit_orders(a, b);
        } else if b[0] < a[0] {
            lemma_lex_rank_first_pit_orders(b, a);
        } else {
            lemma_lex_rank_injective(a.drop_first(), b.drop_first());
            assert(a =~= seq![a[0]] + a.drop_first());
            assert(b =~= seq![b[0]] + b.drop_first());
        }
    }
}

/// Every rank of a board of up to 72 beans lies below the last tier's end.
pub proof fn lemma_partition_rank_bound(pits: Seq<u8>)
    requires
        pits.len() == 12,
        total(pits) <= 72,
        total(pits) != 1,
    ensures
        partition_rank(pits) < 2 * LARGEST_SUM,
{
    if total(pits) > 0 {
        lemma_lex_rank_below_ways(pits);
        lemma_ways_monotonic(12, total(pits), 13, 72);
        lemma_ways_top();
        lemma_even_partitions_bound((total(pits) / 2 - 1) as nat);
    }
}

/// Counts the beans on a board.
pub fn bean_total(pits: &[u8; 12]) -> (sum: u16)
    ensures
        sum == total(pits@),
{
    let mut sum: u16 = 0;
    let mut i: usize = 12;
    while i > 0
        invariant
            i <= 12,
            sum == total(pits@.skip(i as int)),
            sum <= 255 * (12 - i),
        decreases i,
    {
        i -= 1;
        assert(pits@.skip(i as int).drop_first() =~= pits@.skip(i as int + 1));
        sum += pits[i] as u16;
    }
    assert(pits@.skip(0) =~= pits@);
    sum
}

/// Ranks a partition: its index among all partitions of up to 72 beans.
pub fn partition_to_index(tables: &CountTables, pits: &[u8; 12]) -> (index: u64)
    requires
        tables.wf(),
        total(pits@) <= 72,
        total(pits@) != 1,
    ensures
        index == partition_rank(pits@),
{
    let sum = bean_total(pits);
    if sum == 0 {
        return 0;
    }
    let mut remaining: u16 = sum;
    let mut index: u64 = 0;
    let mut i: usize = 0;
    proof {
        assert(pits@.skip(0) =~= pits@);
        lemma_lex_rank_below_ways(pits@);
        lemma_ways_monotonic(12, total(pits@), 12, 72);
        lemma_ways_top();
    }
    while i < 12
        invariant
            i <= 12,
            tables.wf(),
            remaining == total(pits@.skip(i as int)),
            remaining <= 72,
            index + lex_rank(pits@.skip(i as int)) == lex_rank(pits@),
            lex_rank(pits@) < LARGEST_COUNT,
        decreases 12 - i,
    {
        let ghost tail = pits@.skip(i as int);
        assert(tail.drop_first() =~= pits@.skip(i as int + 1));
        assert(tail[0] == pits@[i as int]);
        let next_remaining: u16 = remaining - pits[i] as u16;
        let higher = tables.configuration_sum(12 - i - 1, (next_remaining + 1) as usize);
        let lower = tables.configuration_sum(12 - i - 1, (remaining + 1) as usize);
        proof {
            lemma_ways_range_split(
                (12 - i - 1) as nat,
                (next_remaining + 1) as nat,
                (remaining + 1) as nat,
                73,
            );
        }
        index += higher - lower;
        remaining = next_remaining;
        i += 1;
    }
    assert(pits@.skip(12).len() == 0);
    proof {
        lemma_even_partitions_bound((sum / 2 - 1) as nat);
    }
    tables.even_partitions((sum / 2 - 1) as usize) + index
}

} // verus!
