//! Scores of positions: the tri-state tag and its one-byte packed form.
use crate::tables::{even_partitions, lemma_even_partitions_bound, CountTables};
use vstd::prelude::*;

verus! {

/// Packed byte that stands for [`ConfigurationScore::NotVisited`].
pub const NOT_VISITED_BYTE: i8 = 127;

/// Packed byte that stands for [`ConfigurationScore::Postponed`].
pub const POSTPONED_BYTE: i8 = 126;

/// Slots that every partition takes in the score table.
pub const VARIATIONS_PER_PARTITION: u64 = 15;

/// What is known of a position's value.
#[derive(Copy, Clone, PartialEq, Eq, Debug)]
pub enum ConfigurationScore {
    /// The net number of beans the side owning pits 0-5 can secure.
    Score(i8),
    /// Nothing is known yet.
    NotVisited,
    /// The position waits on the worklist for its children.
    Postponed,
}

/// A score in its one-byte form; 127 and 126 are the two reserved values.
#[derive(Copy, Clone, PartialEq, Eq, Debug)]
pub struct PackedConfigurationScore(pub i8);

/// The byte that a tag packs to.
pub open spec fn packed_byte(score: ConfigurationScore) -> i8 {
    match score {
        ConfigurationScore::Score(s) => s,
        ConfigurationScore::NotVisited => NOT_VISITED_BYTE,
        ConfigurationScore::Postponed => POSTPONED_BYTE,
    }
}

/// The tag that a byte unpacks to.
pub open spec fn unpacked_tag(byte: i8) -> ConfigurationScore {
    if byte == NOT_VISITED_BYTE {
        ConfigurationScore::NotVisited
    } else if byte == POSTPONED_BYTE {
        ConfigurationScore::Postponed
    } else {
        ConfigurationScore::Score(byte)
    }
}

/// A tag whose packed byte cannot be mistaken for another tag: a score
/// outside the two reserved values, or one of the two marks.
pub open spec fn packs_faithfully(score: ConfigurationScore) -> bool {
    score matches ConfigurationScore::Score(s) ==> s < POSTPONED_BYTE
}

impl ConfigurationScore {
    /// Packs the tag into one byte.
    pub fn pack(self) -> (packed: PackedConfigurationScore)
        ensures
            packed.0 == packed_byte(self),
    {
        PackedConfigurationScore(
            match self {
                ConfigurationScore::Score(s) => s,
                ConfigurationScore::NotVisited => NOT_VISITED_BYTE,
                ConfigurationScore::Postponed => POSTPONED_BYTE,
            },
        )
    }
}

impl PackedConfigurationScore {
    /// Reads the tag back from its byte.
    pub fn unpack(self) -> (score: ConfigurationScore)
        ensures
            score == unpacked_tag(self.0),
    {
        if self.0 == NOT_VISITED_BYTE {
            ConfigurationScore::NotVisited
        } else if self.0 == POSTPONED_BYTE {
            ConfigurationScore::Postponed
        } else {
            ConfigurationScore::Score(self.0)
        }
    }
}

/// Unpacking undoes packing for every tag that packs faithfully, and
/// packing undoes unpacking for every byte.
pub proof fn pack_unpack_round_trip(score: ConfigurationScore, byte: i8)
    ensures
        packs_faithfully(score) ==> unpacked_tag(packed_byte(score)) == score,
        packed_byte(unpacked_tag(byte)) == byte,
{
}

/// Whether slot `slot` of a score table belongs to the boards of
/// `2 * tier` beans.
pub open spec fn slot_in_tier(slot: int, tier: nat) -> bool {
    &&& tier >= 1
    &&& 15 * even_partitions((tier - 1) as nat) <= slot < 15 * even_partitions(tier)
}

/// Whether a tag may stand in a slot of the boards of `2 * tier` beans: no
/// side can be ahead by more beans than the board holds.
pub open spec fn tag_within(tag: ConfigurationScore, tier: nat) -> bool {
    tag matches ConfigurationScore::Score(s) ==> -2 * tier <= s <= 2 * tier
}

/// Whether every score of the table is within the beans of its tier.
pub open spec fn scores_bounded(slots: Seq<ConfigurationScore>) -> bool {
    forall|slot: int, tier: nat|
        0 <= slot < slots.len() && #[trigger] slot_in_tier(slot, tier) ==> tag_within(
            #[trigger] slots[slot],
            tier,
        )
}

/// The score table: one tag for each board of up to `2 * max_tier` beans
/// and each state of the skip counters.
pub struct ScoreStore {
    slots: Vec<ConfigurationScore>,
    max_tier: usize,
}

impl View for ScoreStore {
    type V = Seq<ConfigurationScore>;

    closed spec fn view(&self) -> Seq<ConfigurationScore> {
        self.slots@
    }
}

impl ScoreStore {
    /// The largest tier the table has slots for.
    pub closed spec fn tier_limit(&self) -> nat {
        self.max_tier as nat
    }

    /// The table has exactly the slots of the tiers up to its limit.
    pub open spec fn wf(&self) -> bool {
        &&& self.tier_limit() <= 36
        &&& self@.len() == 15 * even_partitions(self.tier_limit())
    }

    /// A table for the tiers up to `max_tier`, nothing visited yet.
    pub fn new(tables: &CountTables, max_tier: usize) -> (store: ScoreStore)
        requires
            tables.wf(),
            max_tier <= 36,
            15 * even_partitions(max_tier as nat) <= usize::MAX,
        ensures
            store.wf(),
            store.tier_limit() == max_tier,
            forall|slot: int|
                0 <= slot < store@.len() ==> store@[slot] == ConfigurationScore::NotVisited,
            scores_bounded(store@),
    {
        proof {
            lemma_even_partitions_bound(max_tier as nat);
        }
        let wanted: u64 = tables.even_partitions(max_tier) * VARIATIONS_PER_PARTITION;
        let mut slots: Vec<ConfigurationScore> = Vec::new();
        let mut filled: u64 = 0;
        while filled < wanted
            invariant
                filled <= wanted,
                slots@.len() == filled,
                forall|slot: int|
                    0 <= slot < filled ==> slots@[slot] == ConfigurationScore::NotVisited,
            decreases wanted - filled,
        {
            slots.push(ConfigurationScore::NotVisited);
            filled += 1;
        }
        ScoreStore { slots, max_tier }
    }

    /// Number of slots.
    pub fn len(&self) -> (len: usize)
        ensures
            len == self@.len(),
    {
        self.slots.len()
    }

    /// The largest tier the table has slots for.
    pub fn max_tier(&self) -> (tier: usize)
        ensures
            tier == self.tier_limit(),
    {
        self.max_tier
    }

    /// The tag in slot `rank`.
    pub fn read(&self, rank: u64) -> (tag: ConfigurationScore)
        requires
            rank < self@.len(),
        ensures
            tag == self@[rank as int],
    {
        let len = self.slots.len();
        assert(rank < len);
        self.slots[rank as usize]
    }

    /// Puts `tag` into slot `rank`, whatever stood there.
    pub fn write(&mut self, rank: u64, tag: ConfigurationScore)
        requires
            rank < old(self)@.len(),
        ensures
            final(self)@ == old(self)@.update(rank as int, tag),
            final(self).tier_limit() == old(self).tier_limit(),
    {
        let len = self.slots.len();
        assert(rank < len);
        self.slots[rank as usize] = tag;
    }
}

} // verus!
