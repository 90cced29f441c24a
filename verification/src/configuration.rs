//! The board: twelve pits on a ring, the skip counters of the two sides,
//! and the moves that lead from one board to the next.
use crate::partition::{
    lemma_partition_rank_bound, lemma_total_bounds_pit, lemma_total_concat, lemma_total_update,
    partition_rank, partition_to_index, total,
};
use crate::tables::CountTables;
use vstd::prelude::*;

verus! {

/// A board as a mathematical value: what a [`Configuration`] stands for.
pub struct Position {
    /// Beans in each of the twelve pits.
    pub pits: Seq<u8>,
    /// Skips left to the side that owns pits 0-5.
    pub player_remaining_skips: nat,
    /// Skips left to the side that owns pits 6-11.
    pub opponent_remaining_skips: nat,
    /// Whether the last move was a skip, so that none may follow it.
    pub cannot_be_skipped: bool,
}

/// Whether a pit with this many beans is captured when a sowing ends on it.
pub open spec fn capturable(beans: u8) -> bool {
    beans == 2 || beans == 4 || beans == 6
}

/// Distance from pit `pit` to pit `j`, walking clockwise.
pub open spec fn clockwise_distance(pit: int, j: int) -> int {
    (j - pit + 12) % 12
}

/// Beans in pit `j` once the first `sown` beans out of pit `pit` have
/// been laid down, one by one, clockwise from the pit after it.
#[verifier::opaque]
pub open spec fn beans_after_sowing(pits: Seq<u8>, pit: int, sown: int, j: int) -> int {
    (if j == pit {
        0
    } else {
        pits[j] as int
    }) + sown / 12 + (if 1 <= clockwise_distance(pit, j) <= sown % 12 {
        1int
    } else {
        0int
    })
}

/// The board after all beans of pit `pit` have been sown.
pub open spec fn sown_pits(pits: Seq<u8>, pit: int) -> Seq<u8> {
    Seq::new(12, |j: int| beans_after_sowing(pits, pit, pits[pit] as int, j) as u8)
}

/// Captures backward from pit `pos`, for at most `rounds` pits: gives the
/// board left behind and the number of beans taken.
pub open spec fn capture_from(pits: Seq<u8>, pos: int, rounds: nat) -> (Seq<u8>, nat)
    decreases rounds,
{
    if rounds == 0 || !capturable(pits[pos]) {
        (pits, 0)
    } else {
        let later = capture_from(pits.update(pos, 0), (pos + 11) % 12, (rounds - 1) as nat);
        (later.0, later.1 + pits[pos] as nat)
    }
}

/// Laying down one more bean adds it to the pit that follows the pit of
/// the bean before, and changes no other pit.
pub proof fn lemma_sow_one_more(pits: Seq<u8>, pit: int, sown: int, j: int)
    requires
        0 <= pit < 12,
        0 <= j < 12,
        0 <= sown,
    ensures
        beans_after_sowing(pits, pit, sown + 1, j) == beans_after_sowing(pits, pit, sown, j) + (
        if j == (pit + sown + 1) % 12 {
            1int
        } else {
            0int
        }),
{
    reveal(beans_after_sowing);
    let q = sown / 12;
    let r = sown % 12;
    let d = clockwise_distance(pit, j);
    assert(sown == 12 * q + r);
    assert(0 <= r < 12);
    assert((pit + sown + 1) % 12 == (pit + r + 1) % 12);
    if r == 11 {
        assert((sown + 1) / 12 == q + 1);
        assert((sown + 1) % 12 == 0);
        assert((pit + r + 1) % 12 == pit);
        assert(d == 0 <==> j == pit);
    } else {
        assert((sown + 1) / 12 == q);
        assert((sown + 1) % 12 == r + 1);
        assert(d == r + 1 <==> j == (pit + r + 1) % 12);
    }
}

/// The board while pit `pit` is being sown, `sown` beans laid down.
pub open spec fn partly_sown_pits(pits: Seq<u8>, pit: int, sown: int) -> Seq<u8> {
    Seq::new(12, |j: int| beans_after_sowing(pits, pit, sown, j) as u8)
}

/// While a pit is sown no pit overflows, and the beans on the board are
/// those not yet taken in hand.
pub proof fn lemma_partly_sown_total(pits: Seq<u8>, pit: int, sown: int)
    requires
        pits.len() == 12,
        0 <= pit < 12,
        0 <= sown <= pits[pit],
        total(pits) <= 255,
    ensures
        forall|j: int|
            0 <= j < 12 ==> 0 <= #[trigger] beans_after_sowing(pits, pit, sown, j) <= 255,
        total(partly_sown_pits(pits, pit, sown)) == total(pits) - pits[pit] + sown,
    decreases sown,
{
    if sown == 0 {
        assert forall|j: int| 0 <= j < 12 implies #[trigger] beans_after_sowing(pits, pit, 0, j)
            == pits.update(pit, 0)[j] by {
            reveal(beans_after_sowing);
        }
        assert(partly_sown_pits(pits, pit, 0) =~= pits.update(pit, 0));
        lemma_total_update(pits, pit, 0);
    } else {
        lemma_partly_sown_total(pits, pit, sown - 1);
        let before = partly_sown_pits(pits, pit, sown - 1);
        let next = (pit + sown) % 12;
        lemma_total_bounds_pit(before, next);
        assert forall|j: int| 0 <= j < 12 implies #[trigger] beans_after_sowing(
            pits,
            pit,
            sown,
            j,
        ) == before.update(next, (before[next] + 1) as u8)[j] by {
            lemma_sow_one_more(pits, pit, sown - 1, j);
            assert(before[j] == beans_after_sowing(pits, pit, sown - 1, j));
        }
        assert(partly_sown_pits(pits, pit, sown) =~= before.update(
            next,
            (before[next] + 1) as u8,
        ));
        lemma_total_update(before, next, (before[next] + 1) as u8);
    }
}

/// Sowing keeps the beans on the board, takes none from any other pit,
/// and adds at least one to the pit that follows the pit sown.
pub proof fn lemma_sown_pits(pits: Seq<u8>, pit: int)
    requires
        pits.len() == 12,
        0 <= pit < 12,
        total(pits) <= 255,
    ensures
        sown_pits(pits, pit).len() == 12,
        total(sown_pits(pits, pit)) == total(pits),
        forall|j: int| 0 <= j < 12 && j != pit ==> #[trigger] sown_pits(pits, pit)[j] >= pits[j],
        pits[pit] > 0 ==> sown_pits(pits, pit)[(pit + 1) % 12] > pits[(pit + 1) % 12],
{
    lemma_partly_sown_total(pits, pit, pits[pit] as int);
    assert(sown_pits(pits, pit) =~= partly_sown_pits(pits, pit, pits[pit] as int));
    assert forall|j: int| 0 <= j < 12 && j != pit implies #[trigger] sown_pits(pits, pit)[j]
        >= pits[j] by {
        assert(0 <= beans_after_sowing(pits, pit, pits[pit] as int, j) <= 255);
        reveal(beans_after_sowing);
    }
    if pits[pit] > 0 {
        let j = (pit + 1) % 12;
        assert(0 <= beans_after_sowing(pits, pit, pits[pit] as int, j) <= 255);
        reveal(beans_after_sowing);
        assert(clockwise_distance(pit, j) == 1);
    }
}

/// Number of pits that would be captured if a sowing ended on them.
pub open spec fn capturable_pits(pits: Seq<u8>) -> nat
    decreases pits.len(),
{
    if pits.len() == 0 {
        0
    } else {
        capturable_pits(pits.drop_first()) + if capturable(pits[0]) {
            1nat
        } else {
            0nat
        }
    }
}

/// There are no more such pits than pits, and emptying one of them
/// leaves one fewer.
pub proof fn lemma_capturable_pits(pits: Seq<u8>, pos: int)
    requires
        0 <= pos < pits.len(),
    ensures
        capturable_pits(pits) <= pits.len(),
        capturable(pits[pos]) ==> capturable_pits(pits.update(pos, 0)) + 1 == capturable_pits(
            pits,
        ),
    decreases pits.len(),
{
    if pits.len() > 1 {
        if pos == 0 {
            lemma_capturable_pits(pits.drop_first(), 0);
        } else {
            lemma_capturable_pits(pits.drop_first(), pos - 1);
        }
    }
    if pos == 0 {
        assert(pits.update(pos, 0).drop_first() =~= pits.drop_first());
    } else {
        assert(pits.update(pos, 0).drop_first() =~= pits.drop_first().update(pos - 1, 0));
    }
    if pits.len() == 1 {
        assert(capturable_pits(pits.drop_first()) == 0);
    }
}

/// Capturing needs no more rounds than there are pits that can be
/// captured.
pub proof fn capture_needs_no_more_rounds(pits: Seq<u8>, pos: int, rounds: nat, more: nat)
    requires
        pits.len() == 12,
        0 <= pos < 12,
        capturable_pits(pits) <= rounds <= more,
    ensures
        capture_from(pits, pos, more) == capture_from(pits, pos, rounds),
    decreases rounds,
{
    lemma_capturable_pits(pits, pos);
    if capturable(pits[pos]) {
        capture_needs_no_more_rounds(
            pits.update(pos, 0),
            (pos + 11) % 12,
            (rounds - 1) as nat,
            (more - 1) as nat,
        );
    }
}

/// Capturing keeps the twelve pits, takes an even number of beans and
/// leaves the rest; where nothing is taken the board is unchanged.
pub proof fn lemma_capture_from(pits: Seq<u8>, pos: int, rounds: nat)
    requires
        pits.len() == 12,
        0 <= pos < 12,
    ensures
        capture_from(pits, pos, rounds).0.len() == 12,
        total(capture_from(pits, pos, rounds).0) + capture_from(pits, pos, rounds).1 == total(
            pits,
        ),
        capture_from(pits, pos, rounds).1 % 2 == 0,
        capture_from(pits, pos, rounds).1 == 0 ==> capture_from(pits, pos, rounds).0 == pits,
    decreases rounds,
{
    if rounds != 0 && capturable(pits[pos]) {
        lemma_capture_from(pits.update(pos, 0), (pos + 11) % 12, (rounds - 1) as nat);
        lemma_total_update(pits, pos, 0);
    }
}

/// A sowing move keeps the twelve pits and the skip counters, clears the
/// flag, and splits the beans into those left and an even number taken.
pub proof fn lemma_sow_outcome(p: Position, pit: int)
    requires
        p.pits.len() == 12,
        0 <= pit < 12,
        p.beans() <= 255,
    ensures
        p.sow(pit).0.pits.len() == 12,
        p.sow(pit).0.beans() + p.sow(pit).1 == p.beans(),
        p.sow(pit).1 % 2 == 0,
        p.sow(pit).1 == 0 ==> p.sow(pit).0.pits == sown_pits(p.pits, pit),
{
    lemma_sown_pits(p.pits, pit);
    lemma_capture_from(sown_pits(p.pits, pit), p.landing_pit(pit), 12);
}

/// The other side sees the same beans.
pub proof fn lemma_switched_beans(p: Position)
    requires
        p.pits.len() == 12,
    ensures
        p.switched().pits.len() == 12,
        p.switched().beans() == p.beans(),
{
    let a = p.pits;
    let b = p.switched().pits;
    lemma_total_concat(a.subrange(0, 6), a.subrange(6, 12));
    lemma_total_concat(a.subrange(6, 12), a.subrange(0, 6));
    assert(a =~= a.subrange(0, 6) + a.subrange(6, 12));
    assert(b =~= a.subrange(6, 12) + a.subrange(0, 6));
}

/// No sowing move of the other side leads back to the board it came from.
pub proof fn lemma_sow_leaves_board(p: Position, pit: int)
    requires
        p.pits.len() == 12,
        0 <= pit < 6,
        p.switched().pits[pit] > 0,
        p.beans() <= 255,
    ensures
        p.switched().sow(pit).0.pits != p.pits,
{
    let other = p.switched();
    lemma_switched_beans(p);
    lemma_sow_outcome(other, pit);
    lemma_sown_pits(other.pits, pit);
    let after = other.sow(pit).0.pits;
    if after == p.pits {
        assert(other.sow(pit).1 == 0);
        let sown = sown_pits(other.pits, pit);
        let j = pit + 1;
        let mirror = (pit + 7) % 12;
        assert((pit + 1) % 12 == j);
        assert(sown[j] > other.pits[j]);
        assert(sown[mirror] >= other.pits[mirror]);
        assert(other.pits[j] == p.pits[mirror]);
        assert(other.pits[mirror] == p.pits[j]);
        assert(false);
    }
}

impl Position {
    /// Number of beans on the board.
    pub open spec fn beans(self) -> nat {
        total(self.pits)
    }

    /// Whether the skip counters and the flag form one of the fifteen
    /// states that have a slot in the score table.
    pub open spec fn skips_valid(self) -> bool {
        &&& self.player_remaining_skips <= 2
        &&& self.opponent_remaining_skips <= 2
        &&& !(self.player_remaining_skips == 2 && self.cannot_be_skipped)
    }

    /// The same board seen by the other side.
    pub open spec fn switched(self) -> Position {
        Position {
            pits: Seq::new(
                12,
                |j: int|
                    if j < 6 {
                        self.pits[j + 6]
                    } else {
                        self.pits[j - 6]
                    },
            ),
            player_remaining_skips: self.opponent_remaining_skips,
            opponent_remaining_skips: self.player_remaining_skips,
            cannot_be_skipped: self.cannot_be_skipped,
        }
    }

    /// Pit where the last bean out of pit `pit` lands.
    pub open spec fn landing_pit(self, pit: int) -> int {
        (pit + self.pits[pit]) % 12
    }

    /// The board after sowing pit `pit`, captures included, and the number
    /// of beans captured. Twelve rounds of capture exhaust the ring.
    pub open spec fn sow(self, pit: int) -> (Position, nat) {
        let taken = capture_from(sown_pits(self.pits, pit), self.landing_pit(pit), 12);
        (
            Position {
                pits: taken.0,
                player_remaining_skips: self.player_remaining_skips,
                opponent_remaining_skips: self.opponent_remaining_skips,
                cannot_be_skipped: false,
            },
            taken.1,
        )
    }

    /// The board after the side to move has passed.
    pub open spec fn skip(self) -> Position {
        Position {
            pits: self.pits,
            player_remaining_skips: (self.player_remaining_skips - 1) as nat,
            opponent_remaining_skips: self.opponent_remaining_skips,
            cannot_be_skipped: true,
        }
    }

    /// Number of the state of the skip counters and the flag, below 15.
    pub open spec fn variation_number(self) -> nat {
        self.opponent_remaining_skips * 5 + 2 * self.player_remaining_skips + (
        if self.cannot_be_skipped {
            1nat
        } else {
            0nat
        })
    }

    /// Slot of the board in the score table.
    pub open spec fn index(self) -> nat {
        partition_rank(self.pits) * 15 + self.variation_number()
    }
}

/// A possible state of the game, leaving aside what each side has won.
#[derive(Copy, Clone, PartialEq, Eq, Debug)]
pub struct Configuration {
    /// Beans in each pit. Pits 0-5 belong to the side to move; going
    /// clockwise is adding 1 modulo 12.
    pub pits: [u8; 12],
    /// Skips left to the side to move.
    pub player_remaining_skips: u8,
    /// Skips left to the other side.
    pub opponent_remaining_skips: u8,
    /// Whether the last move was a skip.
    pub cannot_be_skipped: bool,
}

impl View for Configuration {
    type V = Position;

    open spec fn view(&self) -> Position {
        Position {
            pits: self.pits@,
            player_remaining_skips: self.player_remaining_skips as nat,
            opponent_remaining_skips: self.opponent_remaining_skips as nat,
            cannot_be_skipped: self.cannot_be_skipped,
        }
    }
}

impl Configuration {
    /// Returns the board with the two sides exchanged.
    pub fn switched(&self) -> (other: Configuration)
        ensures
            other@ == self@.switched(),
    {
        let mut new_pits: [u8; 12] = [0;12];
        let mut i: usize = 0;
        while i < 6
            invariant
                i <= 6,
                forall|j: int| 0 <= j < i ==> new_pits@[j] == self.pits@[j + 6],
                forall|j: int| 6 <= j < 6 + i ==> new_pits@[j] == self.pits@[j - 6],
            decreases 6 - i,
        {
            new_pits[i] = self.pits[6 + i];
            new_pits[6 + i] = self.pits[i];
            i += 1;
        }
        assert(new_pits@ =~= self@.switched().pits);
        Configuration {
            pits: new_pits,
            player_remaining_skips: self.opponent_remaining_skips,
            opponent_remaining_skips: self.player_remaining_skips,
            cannot_be_skipped: self.cannot_be_skipped,
        }
    }

    /// Sows the beans of pit `n`, one into each following pit, then
    /// captures backward from the pit where the last bean fell. Returns
    /// the new board and the number of beans captured.
    pub fn sow(&self, n: u8) -> (outcome: (Configuration, u8))
        requires
            n < 6,
            self.pits@[n as int] > 0,
            self@.beans() <= 255,
        ensures
            outcome.0@ == self@.sow(n as int).0,
            outcome.1 == self@.sow(n as int).1,
            outcome.0@.beans() + outcome.1 == self@.beans(),
    {
        let mut pits: [u8; 12] = self.pits;
        let count: u8 = pits[n as usize];
        pits[n as usize] = 0;
        proof {
            lemma_total_update(self.pits@, n as int, 0);
        }
        let mut beans: u8 = count;
        let mut i: usize = n as usize;
        assert forall|j: int| 0 <= j < 12 implies #[trigger] pits@[j] == beans_after_sowing(
            self.pits@,
            n as int,
            0,
            j,
        ) by {
            reveal(beans_after_sowing);
        }
        while beans != 0
            invariant
                n < 6,
                beans <= count,
                count == self.pits@[n as int],
                i == (n + (count - beans)) % 12,
                total(pits@) + beans == total(self.pits@),
                total(self.pits@) <= 255,
                forall|j: int|
                    0 <= j < 12 ==> #[trigger] pits@[j] == beans_after_sowing(
                        self.pits@,
                        n as int,
                        count - beans,
                        j,
                    ),
            decreases beans,
        {
            i = (i + 1) % 12;
            proof {
                lemma_total_update(pits@, i as int, (pits@[i as int] + 1) as u8);
                lemma_total_bounds_pit(pits@, i as int);
            }
            let ghost before = pits@;
            pits[i] += 1;
            beans -= 1;
            assert forall|j: int| 0 <= j < 12 implies #[trigger] pits@[j] == beans_after_sowing(
                self.pits@,
                n as int,
                count - beans,
                j,
            ) by {
                assert(before[j] == beans_after_sowing(
                    self.pits@,
                    n as int,
                    count - beans - 1,
                    j,
                ));
                lemma_sow_one_more(self.pits@, n as int, count - beans - 1, j);
            }
        }
        assert(pits@ =~= sown_pits(self.pits@, n as int));
        let ghost sown = pits@;
        let mut seized: u8 = 0;
        let ghost mut rounds: nat = 12;
        proof {
            lemma_capturable_pits(pits@, 0);
        }
        while pits[i] == 2 || pits[i] == 4 || pits[i] == 6
            invariant
                i < 12,
                capturable_pits(pits@) <= rounds,
                total(pits@) + seized == total(sown),
                total(sown) <= 255,
                capture_from(sown, self@.landing_pit(n as int), 12).0 == capture_from(
                    pits@,
                    i as int,
                    rounds,
                ).0,
                capture_from(sown, self@.landing_pit(n as int), 12).1 == capture_from(
                    pits@,
                    i as int,
                    rounds,
                ).1 + seized,
            decreases rounds,
        {
            proof {
                lemma_capturable_pits(pits@, i as int);
                lemma_total_update(pits@, i as int, 0);
            }
            seized += pits[i];
            pits[i] = 0;
            i += 12 - 1;
            i %= 12;
            proof {
                rounds = (rounds - 1) as nat;
            }
        }
        (
            Configuration {
                pits,
                player_remaining_skips: self.player_remaining_skips,
                opponent_remaining_skips: self.opponent_remaining_skips,
                cannot_be_skipped: false,
            },
            seized,
        )
    }

    /// Passes the turn: one skip fewer, and the flag set.
    pub fn skip(&self) -> (next: Configuration)
        requires
            self.player_remaining_skips > 0,
            !self.cannot_be_skipped,
        ensures
            next@ == self@.skip(),
    {
        Configuration {
            pits: self.pits,
            player_remaining_skips: self.player_remaining_skips - 1,
            opponent_remaining_skips: self.opponent_remaining_skips,
            cannot_be_skipped: true,
        }
    }

    /// Number of the state of the skip counters and the flag.
    pub fn variation_number(&self) -> (number: u8)
        requires
            self@.skips_valid(),
        ensures
            number == self@.variation_number(),
            number < 15,
    {
        let flag: u8 = if self.cannot_be_skipped {
            1
        } else {
            0
        };
        self.opponent_remaining_skips * 5 + 2 * self.player_remaining_skips + flag
    }

    /// Slot of the board in the score table.
    pub fn to_index(&self, tables: &CountTables) -> (index: u64)
        requires
            tables.wf(),
            self@.skips_valid(),
            self@.beans() <= 72,
            self@.beans() != 1,
        ensures
            index == self@.index(),
    {
        let partition_index = partition_to_index(tables, &self.pits);
        proof {
            lemma_partition_rank_bound(self.pits@);
        }
        partition_index * 15 + self.variation_number() as u64
    }
}

} // verus!
