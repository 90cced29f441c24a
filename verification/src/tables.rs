//! The combinatorial count tables: how many ways there are to put beans
//! into pits, running sums of those counts, and the offsets of the tiers.
use vstd::prelude::*;

verus! {

/// Number of pits on the board.
pub const PITS: usize = 12;

/// Largest number of beans the tables cover.
pub const MAX_BEANS: usize = 72;

/// Largest tier (half the number of beans) the tables cover.
pub const MAX_TIER: usize = 36;

/// Number of ways to put 72 beans into 12 pits: the largest count in the
/// tables.
pub const LARGEST_COUNT: u64 = 16_141_841_823_510;

/// Number of ways to put 72 beans into 13 pits: no running sum and no
/// tier offset in the tables is larger.
pub const LARGEST_SUM: u64 = 112_992_892_764_570;

/// Number of ways to put `m` beans into `n` pits, where no pits admit no
/// way at all and one pit admits exactly one.
pub open spec fn ways(n: nat, m: nat) -> nat
    decreases n, m,
{
    if n == 0 {
        0
    } else if n == 1 {
        1
    } else if m == 0 {
        ways((n - 1) as nat, 0)
    } else {
        ways((n - 1) as nat, m) + ways(n, (m - 1) as nat)
    }
}

/// Sum of `ways(n, k)` over `lo <= k < hi`.
pub open spec fn ways_range(n: nat, lo: nat, hi: nat) -> nat
    decreases hi,
{
    if hi <= lo {
        0
    } else {
        ways_range(n, lo, (hi - 1) as nat) + ways(n, (hi - 1) as nat)
    }
}

/// Number of partitions of all even bean counts from 2 up to `2 * tier`
/// over the twelve pits.
pub open spec fn even_partitions(tier: nat) -> nat
    decreases tier,
{
    if tier == 0 {
        0
    } else {
        even_partitions((tier - 1) as nat) + ways(12, 2 * tier)
    }
}

/// With at least one pit there is one way to place no beans.
pub proof fn lemma_ways_no_beans(n: nat)
    requires
        n >= 1,
    ensures
        ways(n, 0) == 1,
    decreases n,
{
    if n >= 2 {
        lemma_ways_no_beans((n - 1) as nat);
    }
}

/// More beans or more pits never give fewer ways.
pub proof fn lemma_ways_monotonic(n1: nat, m1: nat, n2: nat, m2: nat)
    requires
        n1 <= n2,
        m1 <= m2,
    ensures
        ways(n1, m1) <= ways(n2, m2),
    decreases n2 + m2,
{
    if n1 < n2 {
        lemma_ways_monotonic(n1, m1, (n2 - 1) as nat, m2);
        if n2 >= 2 && m2 == 0 {
            lemma_ways_no_beans(n2);
            lemma_ways_no_beans((n2 - 1) as nat);
        }
    } else if m1 < m2 {
        lemma_ways_monotonic(n1, m1, n2, (m2 - 1) as nat);
    }
}

/// The two ratios between neighbouring counts: one more pit, one more bean.
pub proof fn lemma_ways_ratios(n: nat, m: nat)
    requires
        n >= 1,
    ensures
        n >= 2 ==> ways(n, m) * (n - 1) == ways((n - 1) as nat, m) * (m + n - 1),
        m >= 1 ==> ways(n, m) * m == ways(n, (m - 1) as nat) * (m + n - 1),
    decreases n + m,
{
    if n == 1 {
    } else if m == 0 {
        lemma_ways_no_beans(n);
        lemma_ways_no_beans((n - 1) as nat);
    } else {
        let a = ways((n - 1) as nat, m);
        let b = ways(n, (m - 1) as nat);
        let c = ways((n - 1) as nat, (m - 1) as nat);
        lemma_ways_ratios((n - 1) as nat, m);
        lemma_ways_ratios(n, (m - 1) as nat);
        assert(a * m == c * (m + n - 2));
        assert(b * (n - 1) == c * (m + n - 2));
        assert((a + b) * (n - 1) == a * (m + n - 1)) by (nonlinear_arith)
            requires
                a * m == b * (n - 1),
        ;
        assert((a + b) * m == b * (m + n - 1)) by (nonlinear_arith)
            requires
                a * m == b * (n - 1),
        ;
    }
}

/// The count for thirteen pits and seventy-two beans, which bounds every
/// entry and every running sum of the tables.
pub proof fn lemma_ways_top()
    ensures
        ways(12, 72) == LARGEST_COUNT,
        ways(13, 72) == LARGEST_SUM,
{
    assert(ways(1, 72) == 1);
    assert(ways(2, 72) == 73) by {
        lemma_ways_ratios(2, 72);
        assert(ways(2, 72) * 1 == 1 * 73);
    }
    assert(ways(3, 72) == 2701) by {
        lemma_ways_ratios(3, 72);
        assert(ways(3, 72) * 2 == 73 * 74);
    }
    assert(ways(4, 72) == 67525) by {
        lemma_ways_ratios(4, 72);
        assert(ways(4, 72) * 3 == 2701 * 75);
    }
    assert(ways(5, 72) == 1282975) by {
        lemma_ways_ratios(5, 72);
        assert(ways(5, 72) * 4 == 67525 * 76);
    }
    assert(ways(6, 72) == 19757815) by {
        lemma_ways_ratios(6, 72);
        assert(ways(6, 72) * 5 == 1282975 * 77);
    }
    assert(ways(7, 72) == 256851595) by {
        lemma_ways_ratios(7, 72);
        assert(ways(7, 72) * 6 == 19757815 * 78);
    }
    assert(ways(8, 72) == 2898753715) by {
        lemma_ways_ratios(8, 72);
        assert(ways(8, 72) * 7 == 256851595 * 79);
    }
    assert(ways(9, 72) == 28987537150) by {
        lemma_ways_ratios(9, 72);
        assert(ways(9, 72) * 8 == 2898753715 * 80);
    }
    assert(ways(10, 72) == 260887834350) by {
        lemma_ways_ratios(10, 72);
        assert(ways(10, 72) * 9 == 28987537150 * 81);
    }
    assert(ways(11, 72) == 2139280241670) by {
        lemma_ways_ratios(11, 72);
        assert(ways(11, 72) * 10 == 260887834350 * 82);
    }
    assert(ways(12, 72) == 16141841823510) by {
        lemma_ways_ratios(12, 72);
        assert(ways(12, 72) * 11 == 2139280241670 * 83);
    }
    assert(ways(13, 72) == 112992892764570) by {
        lemma_ways_ratios(13, 72);
        assert(ways(13, 72) * 12 == 16141841823510 * 84);
    }
}

/// A range of counts splits at any point inside it.
pub proof fn lemma_ways_range_split(n: nat, lo: nat, mid: nat, hi: nat)
    requires
        lo <= mid <= hi,
    ensures
        ways_range(n, lo, hi) == ways_range(n, lo, mid) + ways_range(n, mid, hi),
    decreases hi,
{
    if mid < hi {
        lemma_ways_range_split(n, lo, mid, (hi - 1) as nat);
    }
}

/// The counts for one pit fewer, summed from no beans up to `m`, give the
/// count for `m` beans.
pub proof fn lemma_ways_prefix_sum(n: nat, m: nat)
    requires
        n >= 1,
    ensures
        ways_range(n, 0, m + 1) == ways(n + 1, m),
    decreases m,
{
    if m == 0 {
        assert(ways_range(n, 0, 0) == 0);
        lemma_ways_no_beans(n);
        lemma_ways_no_beans(n + 1);
    } else {
        lemma_ways_prefix_sum(n, (m - 1) as nat);
    }
}

/// Without pits every sum of counts is zero.
pub proof fn lemma_ways_range_no_pits(lo: nat, hi: nat)
    ensures
        ways_range(0, lo, hi) == 0,
    decreases hi,
{
    if lo < hi {
        lemma_ways_range_no_pits(lo, (hi - 1) as nat);
    }
}

/// Every sum of counts within the tables stays below the count for one
/// pit more and seventy-two beans.
pub proof fn lemma_ways_range_bound(n: nat, lo: nat, hi: nat)
    requires
        n <= 12,
        hi <= 73,
    ensures
        ways_range(n, lo, hi) <= ways(n + 1, 72),
        ways_range(n, lo, hi) <= LARGEST_SUM,
{
    lemma_ways_top();
    lemma_ways_monotonic(n + 1, 72, 13, 72);
    if n == 0 {
        lemma_ways_range_no_pits(lo, hi);
    } else if lo <= hi {
        lemma_ways_range_split(n, 0, lo, hi);
        lemma_ways_range_split(n, 0, hi, 73);
        lemma_ways_prefix_sum(n, 72);
    }
}

/// The tier offsets never decrease.
pub proof fn lemma_even_partitions_monotonic(t1: nat, t2: nat)
    requires
        t1 <= t2,
    ensures
        even_partitions(t1) <= even_partitions(t2),
    decreases t2,
{
    if t1 < t2 {
        lemma_even_partitions_monotonic(t1, (t2 - 1) as nat);
    }
}

/// The tier offsets stay below the sum of all counts for twelve pits.
pub proof fn lemma_even_partitions_bound(tier: nat)
    requires
        tier <= 36,
    ensures
        even_partitions(tier) <= ways_range(12, 0, 2 * tier + 1),
        even_partitions(tier) <= LARGEST_SUM,
    decreases tier,
{
    if tier > 0 {
        lemma_even_partitions_bound((tier - 1) as nat);
        assert(ways_range(12, 0, 2 * tier + 1) == ways_range(12, 0, (2 * tier - 1) as nat) + ways(
            12,
            (2 * tier - 1) as nat,
        ) + ways(12, 2 * tier)) by {
            assert(ways_range(12, 0, 2 * tier + 1) == ways_range(12, 0, 2 * tier) + ways(
                12,
                2 * tier,
            ));
            assert(ways_range(12, 0, 2 * tier) == ways_range(12, 0, (2 * tier - 1) as nat) + ways(
                12,
                (2 * tier - 1) as nat,
            ));
        }
    }
    lemma_ways_range_bound(12, 0, 2 * tier + 1);
}

/// The three tables, each stored row after row.
pub struct CountTables {
    count: Vec<u64>,
    sum: Vec<u64>,
    even: Vec<u64>,
}

impl CountTables {
    /// The tables hold the counts, their running sums and the tier offsets.
    pub closed spec fn wf(&self) -> bool {
        &&& self.count@.len() == 13 * 73
        &&& self.sum@.len() == 13 * 74
        &&& self.even@.len() == 37
        &&& forall|n: int, m: int|
            0 <= n <= 12 && 0 <= m <= 72 ==> #[trigger] self.count@[n * 73 + m] == ways(
                n as nat,
                m as nat,
            )
        &&& forall|n: int, j: int|
            0 <= n <= 12 && 0 <= j <= 73 ==> #[trigger] self.sum@[n * 74 + j] == ways_range(
                n as nat,
                j as nat,
                73,
            )
        &&& forall|t: int| 0 <= t <= 36 ==> #[trigger] self.even@[t] == even_partitions(t as nat)
    }

    /// Builds the tables.
    pub fn new() -> (tables: CountTables)
        ensures
            tables.wf(),
    {
        let count = build_count();
        let sum = build_sum(&count);
        let even = build_even(&count);
        CountTables { count, sum, even }
    }

    /// Number of ways to put `beans` beans into `pits` pits.
    pub fn configuration_count(&self, pits: usize, beans: usize) -> (count: u64)
        requires
            self.wf(),
            pits <= PITS,
            beans <= MAX_BEANS,
        ensures
            count == ways(pits as nat, beans as nat),
    {
        assert(self.count@[pits * 73 + beans] == ways(pits as nat, beans as nat));
        self.count[pits * 73 + beans]
    }

    /// Number of ways to put at least `least` and at most 72 beans into
    /// `pits` pits.
    pub fn configuration_sum(&self, pits: usize, least: usize) -> (sum: u64)
        requires
            self.wf(),
            pits <= PITS,
            least <= MAX_BEANS + 1,
        ensures
            sum == ways_range(pits as nat, least as nat, 73),
    {
        assert(self.sum@[pits * 74 + least] == ways_range(pits as nat, least as nat, 73));
        self.sum[pits * 74 + least]
    }

    /// Number of partitions of the even bean counts up to `2 * tier`: the
    /// first rank past that tier.
    pub fn even_partitions(&self, tier: usize) -> (offset: u64)
        requires
            self.wf(),
            tier <= MAX_TIER,
        ensures
            offset == even_partitions(tier as nat),
    {
        self.even[tier]
    }
}

/// What the count table holds once `rows` rows are complete and `cells`
/// cells of the next row are filled.
spec fn count_filled(count: Seq<u64>, rows: int, cells: int) -> bool {
    &&& count.len() == rows * 73 + cells
    &&& forall|n: int, m: int|
        0 <= n && 0 <= m <= 72 && n * 73 + m < rows * 73 + cells ==> #[trigger] count[n * 73 + m]
            == ways(n as nat, m as nat)
}

fn build_count() -> (count: Vec<u64>)
    ensures
        count_filled(count@, 13, 0),
{
    let mut count: Vec<u64> = Vec::new();
    let mut n: usize = 0;
    while n < 13
        invariant
            n <= 13,
            count_filled(count@, n as int, 0),
        decreases 13 - n,
    {
        let mut m: usize = 0;
        while m < 73
            invariant
                n < 13,
                m <= 73,
                count_filled(count@, n as int, m as int),
            decreases 73 - m,
        {
            let value: u64 = if n == 0 {
                0
            } else if n == 1 {
                1
            } else if m == 0 {
                assert(count@[(n - 1) * 73 + 0] == ways((n - 1) as nat, 0));
                count[(n - 1) * 73]
            } else {
                assert(count@[(n - 1) * 73 + m] == ways((n - 1) as nat, m as nat));
                assert(count@[n * 73 + (m - 1)] == ways(n as nat, (m - 1) as nat));
                proof {
                    lemma_ways_monotonic(n as nat, m as nat, 13, 72);
                    lemma_ways_top();
                }
                count[(n - 1) * 73 + m] + count[n * 73 + m - 1]
            };
            let ghost before = count@;
            count.push(value);
            assert forall|a: int, b: int|
                0 <= a && 0 <= b <= 72 && a * 73 + b < n * 73 + m + 1 implies #[trigger] count@[a
                * 73 + b] == ways(a as nat, b as nat) by {
                if a * 73 + b < n * 73 + m {
                    assert(before[a * 73 + b] == ways(a as nat, b as nat));
                } else {
                    assert(a == n && b == m);
                }
            }
            m += 1;
        }
        n += 1;
    }
    count
}

fn build_sum(count: &Vec<u64>) -> (sum: Vec<u64>)
    requires
        count_filled(count@, 13, 0),
    ensures
        sum@.len() == 13 * 74,
        forall|n: int, j: int|
            0 <= n <= 12 && 0 <= j <= 73 ==> #[trigger] sum@[n * 74 + j] == ways_range(
                n as nat,
                j as nat,
                73,
            ),
{
    let mut sum: Vec<u64> = Vec::new();
    let mut k: usize = 0;
    while k < 13 * 74
        invariant
            k <= 13 * 74,
            sum@.len() == k,
            forall|i: int| 0 <= i < k ==> sum@[i] == 0,
        decreases 13 * 74 - k,
    {
        sum.push(0);
        k += 1;
    }
    let mut n: usize = 0;
    while n < 13
        invariant
            n <= 13,
            count_filled(count@, 13, 0),
            sum@.len() == 13 * 74,
            forall|a: int, j: int|
                0 <= a < n && 0 <= j <= 73 ==> #[trigger] sum@[a * 74 + j] == ways_range(
                    a as nat,
                    j as nat,
                    73,
                ),
            forall|i: int| n * 74 <= i < 13 * 74 ==> sum@[i] == 0,
        decreases 13 - n,
    {
        let mut j: usize = 73;
        while j > 0
            invariant
                n < 13,
                j <= 73,
                count_filled(count@, 13, 0),
                sum@.len() == 13 * 74,
                forall|a: int, b: int|
                    0 <= a < n && 0 <= b <= 73 ==> #[trigger] sum@[a * 74 + b] == ways_range(
                        a as nat,
                        b as nat,
                        73,
                    ),
                forall|b: int|
                    j <= b <= 73 ==> #[trigger] sum@[n * 74 + b] == ways_range(
                        n as nat,
                        b as nat,
                        73,
                    ),
                forall|i: int| (n + 1) * 74 <= i < 13 * 74 ==> sum@[i] == 0,
            decreases j,
        {
            j -= 1;
            assert(count@[n * 73 + j] == ways(n as nat, j as nat));
            assert(sum@[n * 74 + (j + 1)] == ways_range(n as nat, (j + 1) as nat, 73));
            proof {
                lemma_ways_range_split(n as nat, j as nat, (j + 1) as nat, 73);
                assert(ways_range(n as nat, j as nat, (j + 1) as nat) == ways(n as nat, j as nat))
                    by {
                    assert(ways_range(n as nat, j as nat, j as nat) == 0);
                }
                lemma_ways_range_bound(n as nat, j as nat, 73);
            }
            let value: u64 = sum[n * 74 + j + 1] + count[n * 73 + j];
            let ghost before = sum@;
            sum.set(n * 74 + j, value);
            assert forall|a: int, b: int| 0 <= a < n && 0 <= b <= 73 implies #[trigger] sum@[a * 74
                + b] == ways_range(a as nat, b as nat, 73) by {
                assert(before[a * 74 + b] == ways_range(a as nat, b as nat, 73));
            }
            assert forall|b: int| j <= b <= 73 implies #[trigger] sum@[n * 74 + b] == ways_range(
                n as nat,
                b as nat,
                73,
            ) by {
                if b > j {
                    assert(before[n * 74 + b] == ways_range(n as nat, b as nat, 73));
                }
            }
        }
        n += 1;
    }
    sum
}

fn build_even(count: &Vec<u64>) -> (even: Vec<u64>)
    requires
        count_filled(count@, 13, 0),
    ensures
        even@.len() == 37,
        forall|t: int| 0 <= t <= 36 ==> #[trigger] even@[t] == even_partitions(t as nat),
{
    let mut even: Vec<u64> = Vec::new();
    even.push(0);
    let mut t: usize = 1;
    while t < 37
        invariant
            1 <= t <= 37,
            count_filled(count@, 13, 0),
            even@.len() == t,
            forall|i: int| 0 <= i < t ==> #[trigger] even@[i] == even_partitions(i as nat),
        decreases 37 - t,
    {
        assert(count@[12 * 73 + 2 * t] == ways(12, (2 * t) as nat));
        proof {
            lemma_even_partitions_bound(t as nat);
        }
        let value: u64 = even[t - 1] + count[12 * 73 + 2 * t];
        even.push(value);
        t += 1;
    }
    even
}

} // verus!
