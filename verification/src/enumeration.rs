//! Walking through the partitions of a bean count in the order of their
//! ranks.
use crate::partition::{
    lemma_lex_rank_below_ways, lemma_lex_rank_injective, lemma_total_bounds_pit,
    lemma_total_update, lex_rank, partition_rank, total,
};
use crate::tables::{
    even_partitions, lemma_ways_no_beans, lemma_ways_prefix_sum, lemma_ways_range_no_pits, lemma_ways_range_split,
    ways, ways_range,
};
use vstd::prelude::*;

verus! {

/// Whether pit `j` is the last pit that holds beans.
pub open spec fn is_last_nonzero(pits: Seq<u8>, j: int) -> bool {
    &&& 0 <= j < pits.len()
    &&& pits[j] != 0
    &&& forall|i: int| j < i < pits.len() ==> pits[i] == 0
}

/// The last pit that holds beans, or -1 where none does.
pub open spec fn last_nonzero(pits: Seq<u8>) -> int
    decreases pits.len(),
{
    if pits.len() == 0 {
        -1
    } else if pits.last() != 0 {
        pits.len() - 1
    } else {
        last_nonzero(pits.drop_last())
    }
}

/// The row that follows `pits`, given its last pit with beans: that pit
/// is emptied, one of its beans goes to the pit before it and the others
/// to the last pit. Where the pit is the first one, there is no pit
/// before it, and the bean is dropped.
pub open spec fn successor_at(pits: Seq<u8>, j: int) -> Seq<u8> {
    let moved = pits.update(j, 0).update(pits.len() - 1, (pits[j] - 1) as u8);
    if j >= 1 {
        moved.update(j - 1, (pits[j - 1] + 1) as u8)
    } else {
        moved
    }
}

/// The row that follows `pits` among the rows of its bean count; after
/// the last of them, the first row of one bean fewer.
pub open spec fn successor(pits: Seq<u8>) -> Seq<u8> {
    successor_at(pits, last_nonzero(pits))
}

/// The last pit with beans is the one that `last_nonzero` names.
pub proof fn lemma_last_nonzero(pits: Seq<u8>, j: int)
    requires
        is_last_nonzero(pits, j),
    ensures
        last_nonzero(pits) == j,
    decreases pits.len(),
{
    if j < pits.len() - 1 {
        assert(pits.last() == pits[pits.len() - 1]);
        lemma_last_nonzero(pits.drop_last(), j);
    }
}

/// A row without beans has rank 0 among the rows without beans.
pub proof fn lemma_empty_row(pits: Seq<u8>)
    requires
        forall|i: int| 0 <= i < pits.len() ==> pits[i] == 0,
    ensures
        total(pits) == 0,
        lex_rank(pits) == 0,
    decreases pits.len(),
{
    if pits.len() > 0 {
        lemma_empty_row(pits.drop_first());
        assert(ways_range((pits.len() - 1) as nat, 1, 1) == 0);
    }
}

/// A row with beans has a last pit with beans.
pub proof fn lemma_has_last_nonzero(pits: Seq<u8>)
    requires
        total(pits) > 0,
    ensures
        is_last_nonzero(pits, last_nonzero(pits)),
    decreases pits.len(),
{
    if pits.len() > 0 {
        if pits.last() == 0 {
            let head = pits.drop_last();
            assert(pits =~= head.push(0));
            lemma_total_push(head, 0);
            lemma_has_last_nonzero(head);
            let j = last_nonzero(head);
            assert forall|i: int| j < i < pits.len() implies pits[i] == 0 by {
                if i < head.len() {
                    assert(head[i] == pits[i]);
                }
            }
        }
    }
}

/// A pit added at the end adds its beans.
pub proof fn lemma_total_push(pits: Seq<u8>, beans: u8)
    ensures
        total(pits.push(beans)) == total(pits) + beans,
    decreases pits.len(),
{
    if pits.len() == 0 {
        assert(pits.push(beans).drop_first() =~= pits);
    } else {
        assert(pits.push(beans).drop_first() =~= pits.drop_first().push(beans));
        lemma_total_push(pits.drop_first(), beans);
    }
}

/// The row with all beans in the last pit comes first.
pub proof fn lemma_first_row(pits: Seq<u8>)
    requires
        pits.len() >= 1,
        forall|i: int| 0 <= i < pits.len() - 1 ==> pits[i] == 0,
    ensures
        lex_rank(pits) == 0,
    decreases pits.len(),
{
    let rest = pits.drop_first();
    if pits.len() == 1 {
        assert(rest.len() == 0);
        assert(lex_rank(rest) == 0);
        lemma_ways_range_no_pits(total(rest) + 1, total(pits) + 1);
    } else {
        assert forall|i: int| 0 <= i < rest.len() - 1 implies rest[i] == 0 by {
            assert(rest[i] == pits[i + 1]);
        }
        lemma_first_row(rest);
        assert(pits[0] == 0);
        assert(total(rest) == total(pits));
        assert(ways_range((pits.len() - 1) as nat, total(pits) + 1, total(pits) + 1) == 0);
    }
}

/// The row with all beans in the first pit comes last.
pub proof fn lemma_last_row(pits: Seq<u8>)
    requires
        pits.len() >= 1,
        forall|i: int| 1 <= i < pits.len() ==> pits[i] == 0,
    ensures
        lex_rank(pits) + 1 == ways(pits.len(), total(pits)),
{
    let rest = pits.drop_first();
    let k = (pits.len() - 1) as nat;
    let t = total(pits);
    lemma_empty_row(rest);
    if k == 0 {
        lemma_ways_range_no_pits(1, t + 1);
    } else {
        lemma_ways_prefix_sum(k, t);
        lemma_ways_range_split(k, 0, 1, t + 1);
        lemma_ways_no_beans(k);
        assert(ways_range(k, 0, 1) == ways(k, 0)) by {
            assert(ways_range(k, 0, 0) == 0);
        }
    }
}

/// The successor of a row that is not the last one holds the same beans
/// and has the next rank.
pub proof fn lemma_successor_rank(pits: Seq<u8>, j: int)
    requires
        is_last_nonzero(pits, j),
        j >= 1,
        total(pits) <= 255,
    ensures
        successor_at(pits, j).len() == pits.len(),
        total(successor_at(pits, j)) == total(pits),
        lex_rank(successor_at(pits, j)) == lex_rank(pits) + 1,
    decreases j,
{
    let n = pits.len();
    let k = (n - 1) as nat;
    let next = successor_at(pits, j);
    let rest = pits.drop_first();
    let next_rest = next.drop_first();
    let t = total(pits);
    let v = pits[j];
    lemma_total_bounds_pit(pits, j);
    if j == 1 {
        let a = pits[0];
        assert(t == a + total(rest));
        assert forall|i: int| 1 <= i < rest.len() implies rest[i] == 0 by {
            assert(rest[i] == pits[i + 1]);
        }
        lemma_last_row(rest);
        assert(rest[0] == v);
        assert(total(rest) == v) by {
            lemma_empty_row(rest.drop_first());
        }
        assert forall|i: int| 0 <= i < next_rest.len() - 1 implies next_rest[i] == 0 by {
            assert(next_rest[i] == next[i + 1]);
        }
        lemma_first_row(next_rest);
        assert(total(next_rest) == v - 1) by {
            let last = next_rest.len() - 1;
            assert(next_rest[last] == v - 1);
            let zeros = next_rest.update(last, 0);
            lemma_total_update(next_rest, last, 0);
            lemma_empty_row(zeros);
        }
        assert(next[0] == a + 1);
        lemma_ways_range_split(k, v as nat, (v + 1) as nat, t + 1);
        assert(ways_range(k, v as nat, (v + 1) as nat) == ways(k, v as nat)) by {
            assert(ways_range(k, v as nat, v as nat) == 0);
        }
    } else {
        assert(is_last_nonzero(rest, j - 1)) by {
            assert(rest[j - 1] == pits[j]);
            assert forall|i: int| j - 1 < i < rest.len() implies rest[i] == 0 by {
                assert(rest[i] == pits[i + 1]);
            }
        }
        lemma_successor_rank(rest, j - 1);
        assert(next_rest =~= successor_at(rest, j - 1));
        assert(next[0] == pits[0]);
    }
}

/// Moves on to the next partition of the same bean count. Returns true
/// where there was none, the given partition being the last; the pits
/// then hold the first partition of one bean fewer.
pub fn next_partition(pits: &mut [u8; 12]) -> (last: bool)
    requires
        0 < total(old(pits)@) <= 255,
    ensures
        final(pits)@ == successor(old(pits)@),
        last == (last_nonzero(old(pits)@) == 0),
        !last ==> total(final(pits)@) == total(old(pits)@) && lex_rank(final(pits)@) == lex_rank(
            old(pits)@,
        ) + 1,
        last ==> lex_rank(old(pits)@) + 1 == ways(12, total(old(pits)@)),
{
    let ghost given = pits@;
    let mut j: usize = 11;
    while pits[j] == 0
        invariant
            j < 12,
            pits@ == given,
            total(given) > 0,
            forall|i: int| j < i < 12 ==> given[i] == 0,
        decreases j,
    {
        if j == 0 {
            proof {
                lemma_empty_row(given);
            }
        }
        j -= 1;
    }
    proof {
        lemma_last_nonzero(given, j as int);
        lemma_total_bounds_pit(given, j as int);
        if j >= 1 {
            lemma_successor_rank(given, j as int);
            lemma_total_update(given, j as int, 0);
            lemma_total_bounds_pit(given.update(j as int, 0), j - 1);
        } else {
            lemma_last_row(given);
        }
    }
    let beans = pits[j];
    pits[j] = 0;
    pits[11] = beans - 1;
    if j >= 1 {
        pits[j - 1] += 1;
        assert(pits@ =~= successor_at(given, j as int));
        false
    } else {
        assert(pits@ =~= successor_at(given, j as int));
        true
    }
}

/// The first row of `beans` beans over `n` pits: all beans in the last
/// pit.
pub open spec fn first_row(n: nat, beans: nat) -> Seq<u8> {
    Seq::new(
        n,
        |i: int|
            if i == n - 1 {
                beans as u8
            } else {
                0u8
            },
    )
}

/// The row that `rank` steps of [`successor`] reach from the first row.
pub open spec fn nth_row(n: nat, beans: nat, rank: nat) -> Seq<u8>
    decreases rank,
{
    if rank == 0 {
        first_row(n, beans)
    } else {
        successor(nth_row(n, beans, (rank - 1) as nat))
    }
}

/// Below the number of rows, the row that `rank` steps reach has `n`
/// pits, `beans` beans and the rank `rank`.
pub proof fn lemma_nth_row(n: nat, beans: nat, rank: nat)
    requires
        n >= 1,
        beans <= 255,
        rank < ways(n, beans),
    ensures
        nth_row(n, beans, rank).len() == n,
        total(nth_row(n, beans, rank)) == beans,
        lex_rank(nth_row(n, beans, rank)) == rank,
    decreases rank,
{
    if rank == 0 {
        let first = first_row(n, beans);
        let zeros = first.update(n - 1, 0);
        lemma_empty_row(zeros);
        lemma_total_update(first, n - 1, 0);
        lemma_first_row(first);
    } else {
        let before = nth_row(n, beans, (rank - 1) as nat);
        lemma_nth_row(n, beans, (rank - 1) as nat);
        if beans == 0 {
            lemma_ways_no_beans(n);
        }
        lemma_has_last_nonzero(before);
        let j = last_nonzero(before);
        if j == 0 {
            lemma_last_row(before);
        }
        lemma_successor_rank(before, j);
    }
}

/// The rank of a board with beans lies in the range of its tier, which is
/// as long as there are boards of that many beans.
pub proof fn rank_lies_in_its_tier(pits: Seq<u8>)
    requires
        pits.len() == 12,
        total(pits) % 2 == 0,
        2 <= total(pits) <= 72,
    ensures
        even_partitions((total(pits) / 2 - 1) as nat) <= partition_rank(pits) < even_partitions(
            total(pits) / 2,
        ),
        even_partitions(total(pits) / 2) - even_partitions((total(pits) / 2 - 1) as nat) == ways(
            12,
            total(pits),
        ),
{
    lemma_lex_rank_below_ways(pits);
    let tier = total(pits) / 2;
    assert(2 * tier == total(pits));
    assert(even_partitions(tier) == even_partitions((tier - 1) as nat) + ways(12, 2 * tier));
}

/// Two boards of the same number of beans that have the same rank are
/// the same board.
pub proof fn rank_tells_boards_apart(a: Seq<u8>, b: Seq<u8>)
    requires
        a.len() == 12,
        b.len() == 12,
        total(a) == total(b),
        partition_rank(a) == partition_rank(b),
    ensures
        a == b,
{
    if total(a) == 0 {
        assert forall|i: int| 0 <= i < 12 implies a[i] == 0 by {
            lemma_total_bounds_pit(a, i);
        }
        assert forall|i: int| 0 <= i < 12 implies b[i] == 0 by {
            lemma_total_bounds_pit(b, i);
        }
        assert(a =~= b);
    } else {
        lemma_lex_rank_injective(a, b);
    }
}

/// Every rank in the range of a tier is the rank of a board of that
/// tier: the board that as many steps reach from the first board of the
/// tier as the rank lies above the start of the range.
pub proof fn every_rank_of_a_tier_is_taken(beans: nat, rank: nat)
    requires
        beans % 2 == 0,
        2 <= beans <= 72,
        even_partitions((beans / 2 - 1) as nat) <= rank < even_partitions(beans / 2),
    ensures
        nth_row(12, beans, (rank - even_partitions((beans / 2 - 1) as nat)) as nat).len() == 12,
        total(nth_row(12, beans, (rank - even_partitions((beans / 2 - 1) as nat)) as nat))
            == beans,
        partition_rank(
            nth_row(12, beans, (rank - even_partitions((beans / 2 - 1) as nat)) as nat),
        ) == rank,
{
    let tier = beans / 2;
    assert(2 * tier == beans);
    assert(even_partitions(tier) == even_partitions((tier - 1) as nat) + ways(12, 2 * tier));
    lemma_nth_row(12, beans, (rank - even_partitions((tier - 1) as nat)) as nat);
}

} // verus!
