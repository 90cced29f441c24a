//! Why the search ends: a measure on the worklist that every round
//! lowers.
//!
//! A position that is postponed sits on the worklist once, as a retry
//! entry, until it is taken up again. The entries above it were put there
//! while it was postponed, so none of them can postpone it a second time.
//! An ordinary entry above `r` retry entries can therefore start a search
//! no deeper than the slots that those `r` entries leave free.
use crate::configuration::Position;
use crate::search::{
    from_unvisited_move, lemma_legal_moves, lemma_rate_moves, lemma_unvisited_children,
    on_worklist, search_ok, unvisited_move,
};
use crate::solver::{
    all_postponed, any_not_visited, legal_moves, lemma_index_in_store, rate_moves, step,
    unvisited_children, Search,
};
use vstd::prelude::*;
use vstd::set_lib::{lemma_int_range, lemma_len_subset, set_int_range};

verus! {

/// Rounds that an ordinary entry may cost while `free` slots are not
/// postponed: its own, its retry, and up to seven children with one slot
/// fewer.
pub open spec fn weight(free: nat) -> nat
    decreases free,
{
    if free == 0 {
        1
    } else {
        2 + 7 * weight((free - 1) as nat)
    }
}

/// Number of retry entries.
pub open spec fn retries(flags: Seq<bool>) -> nat
    decreases flags.len(),
{
    if flags.len() == 0 {
        0
    } else {
        retries(flags.drop_last()) + if flags.last() {
            1nat
        } else {
            0nat
        }
    }
}

/// Slots that the retry entries leave free.
pub open spec fn free_slots(flags: Seq<bool>, slots: nat) -> nat {
    if retries(flags) <= slots {
        (slots - retries(flags)) as nat
    } else {
        0
    }
}

/// Rounds that the worklist may still cost: one for each retry entry, and
/// for each ordinary entry its weight under the retry entries below it.
pub open spec fn budget(flags: Seq<bool>, slots: nat) -> nat
    decreases flags.len(),
{
    if flags.len() == 0 {
        0
    } else {
        budget(flags.drop_last(), slots) + if flags.last() {
            1nat
        } else {
            weight(free_slots(flags.drop_last(), slots))
        }
    }
}

/// Whether `flags` marks retry entries of the worklist: each marked entry
/// is postponed in the table, and no entry above it shares its slot.
pub open spec fn retry_ok(s: Search, flags: Seq<bool>) -> bool {
    &&& flags.len() == s.stack.len()
    &&& forall|k: int|
        0 <= k < flags.len() && #[trigger] flags[k] ==> s.store[s.stack[k].index() as int]
            is Postponed
    &&& forall|k: int, j: int|
        0 <= k < j < flags.len() && #[trigger] flags[k] ==> (#[trigger] s.stack[j]).index()
            != s.stack[k].index()
}

/// Whether the next round postpones the top position and puts its
/// unvisited children on the worklist.
pub open spec fn postpones(s: Search) -> bool {
    let position = s.stack.last();
    let previous = s.store[position.index() as int];
    let tags = rate_moves(s.store, legal_moves(position.switched())).1;
    previous is NotVisited && !all_postponed(tags) && any_not_visited(tags)
}

/// `n` ordinary entries.
pub open spec fn ordinary(n: nat) -> Seq<bool> {
    Seq::new(n, |i: int| false)
}

/// The marks of the worklist after the next round.
pub open spec fn next_flags(s: Search, flags: Seq<bool>) -> Seq<bool> {
    if postpones(s) {
        let position = s.stack.last();
        let moves = legal_moves(position.switched());
        let tags = rate_moves(s.store, moves).1;
        flags.drop_last().push(true) + ordinary(unvisited_children(moves, tags).len())
    } else {
        flags.drop_last()
    }
}

/// The slots of the retry entries.
pub open spec fn retry_slots(stack: Seq<Position>, flags: Seq<bool>) -> Set<int>
    decreases stack.len(),
{
    if stack.len() == 0 || flags.len() != stack.len() {
        Set::empty()
    } else {
        let below = retry_slots(stack.drop_last(), flags.drop_last());
        if flags.last() {
            below.insert(stack.last().index() as int)
        } else {
            below
        }
    }
}

/// Whether entry `k` is a retry entry with slot `slot`.
pub open spec fn retry_at(stack: Seq<Position>, flags: Seq<bool>, k: int, slot: int) -> bool {
    0 <= k < stack.len() && flags[k] && stack[k].index() == slot
}

/// The retry entries have as many slots as they are, each the slot of one
/// of them.
proof fn lemma_retry_slots(stack: Seq<Position>, flags: Seq<bool>)
    requires
        flags.len() == stack.len(),
        forall|k: int, j: int|
            0 <= k < j < flags.len() && #[trigger] flags[k] ==> (#[trigger] stack[j]).index()
                != stack[k].index(),
    ensures
        retry_slots(stack, flags).finite(),
        retry_slots(stack, flags).len() == retries(flags),
        forall|slot: int| #[trigger]
            retry_slots(stack, flags).contains(slot) ==> exists|k: int|
                retry_at(stack, flags, k, slot),
    decreases stack.len(),
{
    if stack.len() > 0 {
        let rest = stack.drop_last();
        let rest_flags = flags.drop_last();
        assert forall|k: int, j: int|
            0 <= k < j < rest_flags.len() && #[trigger] rest_flags[k] implies (
        #[trigger] rest[j]).index() != rest[k].index() by {
            assert(flags[k]);
            assert(rest[j] == stack[j]);
        }
        lemma_retry_slots(rest, rest_flags);
        let below = retry_slots(rest, rest_flags);
        let top = stack.last().index() as int;
        let last = stack.len() - 1;
        if flags.last() {
            if below.contains(top) {
                let k = choose|k: int| retry_at(rest, rest_flags, k, top);
                assert(flags[k]);
                assert(stack[last].index() != stack[k].index());
            }
        }
        assert forall|slot: int| #[trigger]
            retry_slots(stack, flags).contains(slot) implies exists|k: int|
            retry_at(stack, flags, k, slot) by {
            if below.contains(slot) {
                let k = choose|k: int| retry_at(rest, rest_flags, k, slot);
                assert(retry_at(stack, flags, k, slot));
            } else {
                assert(retry_at(stack, flags, last, slot));
            }
        }
    }
}

/// While the top position is not postponed, the retry entries below it
/// leave at least its slot free.
proof fn lemma_retries_leave_slot(s: Search, flags: Seq<bool>, limit: nat)
    requires
        search_ok(s, limit),
        retry_ok(s, flags),
        s.stack.len() > 0,
        !(s.store[s.stack.last().index() as int] is Postponed),
    ensures
        retries(flags.drop_last()) < s.store.len(),
{
    let rest = s.stack.drop_last();
    let rest_flags = flags.drop_last();
    let top = s.stack.last().index() as int;
    let slots = s.store.len() as int;
    assert(on_worklist(s.stack[s.stack.len() - 1], limit));
    lemma_index_in_store(s.stack.last(), limit);
    assert forall|k: int, j: int|
        0 <= k < j < rest_flags.len() && #[trigger] rest_flags[k] implies (
    #[trigger] rest[j]).index() != rest[k].index() by {
        assert(flags[k]);
        assert(rest[j] == s.stack[j]);
    }
    lemma_retry_slots(rest, rest_flags);
    let taken = retry_slots(rest, rest_flags);
    let others = set_int_range(0, slots).remove(top);
    lemma_int_range(0, slots);
    assert forall|slot: int| taken.contains(slot) implies others.contains(slot) by {
        let k = choose|k: int| retry_at(rest, rest_flags, k, slot);
        assert(flags[k]);
        assert(on_worklist(s.stack[k], limit));
        lemma_index_in_store(s.stack[k], limit);
        assert(s.store[slot] is Postponed);
    }
    lemma_len_subset(taken, others);
}

/// Ordinary entries on top add their weights and no retry entry.
proof fn lemma_budget_ordinary(flags: Seq<bool>, n: nat, slots: nat)
    ensures
        retries(flags + ordinary(n)) == retries(flags),
        budget(flags + ordinary(n), slots) == budget(flags, slots) + n * weight(
            free_slots(flags, slots),
        ),
    decreases n,
{
    if n == 0 {
        assert(flags + ordinary(0) =~= flags);
    } else {
        let all = flags + ordinary(n);
        assert(all.drop_last() =~= flags + ordinary((n - 1) as nat));
        lemma_budget_ordinary(flags, (n - 1) as nat, slots);
        let w = weight(free_slots(flags, slots));
        assert((n - 1) * w + w == n * w) by (nonlinear_arith);
    }
}

/// A round leaves the marks of the worklist in order and lowers its
/// budget.
#[verifier::rlimit(30)]
pub proof fn lemma_step_progress(s: Search, flags: Seq<bool>, limit: nat)
    requires
        search_ok(s, limit),
        retry_ok(s, flags),
        s.stack.len() > 0,
    ensures
        retry_ok(step(s), next_flags(s, flags)),
        budget(next_flags(s, flags), s.store.len()) < budget(flags, s.store.len()),
{
    let position = s.stack.last();
    let last = s.stack.len() - 1;
    let rest = s.stack.drop_last();
    let rest_flags = flags.drop_last();
    let slot = position.index() as int;
    let previous = s.store[slot];
    let slots = s.store.len();
    let after = step(s);
    let marks = next_flags(s, flags);
    assert(position == s.stack[last]);
    assert(on_worklist(position, limit));
    lemma_index_in_store(position, limit);
    let moves = legal_moves(position.switched());
    lemma_legal_moves(position, limit);
    lemma_rate_moves(s.store, moves, position.beans(), limit);
    let rated = rate_moves(s.store, moves);
    let tags = rated.1;
    lemma_unvisited_children(moves, tags);
    let children = unvisited_children(moves, tags);
    assert(weight(free_slots(rest_flags, slots)) >= 1);
    // The retry entries below the top keep their mark in the table.
    assert forall|k: int| 0 <= k < rest.len() && flags[k] implies after.store[rest[k].index() as int]
        is Postponed && rest[k].index() != slot by {
        assert(rest[k] == s.stack[k]);
        assert(s.stack[last].index() != s.stack[k].index());
        assert(on_worklist(s.stack[k], limit));
        lemma_index_in_store(s.stack[k], limit);
        let other = rest[k].index() as int;
        assert(s.store[other] is Postponed);
        if rated.0[other] != s.store[other] {
            assert(s.store[other] is NotVisited);
        }
    }
    if postpones(s) {
        assert(!flags[last]);
        lemma_retries_leave_slot(s, flags, limit);
        let stack = rest.push(position) + children;
        assert(after.stack == stack);
        let n = children.len();
        assert(marks == rest_flags.push(true) + ordinary(n));
        assert forall|k: int| 0 <= k < marks.len() && #[trigger] marks[k] implies after.store[stack[k].index() as int]
            is Postponed by {
            if k < rest.len() {
                assert(stack[k] == rest[k]);
                assert(flags[k]);
            } else {
                assert(k == rest.len());
            }
        }
        assert forall|k: int, j: int|
            0 <= k < j < marks.len() && #[trigger] marks[k] implies (#[trigger] stack[j]).index()
            != stack[k].index() by {
            if j <= rest.len() {
                assert(stack[k] == s.stack[k]);
                assert(stack[j] == s.stack[j]);
                assert(flags[k]);
            } else {
                let child = children[j - rest.len() - 1];
                assert(stack[j] == child);
                assert(from_unvisited_move(moves, tags, child));
                let i = choose|i: int| unvisited_move(moves, tags, i, child);
                assert(tags[i] is NotVisited);
                assert(moves[i].0.beans() >= 2);
                assert(s.store[child.index() as int] is NotVisited);
                if k < rest.len() {
                    assert(stack[k] == rest[k]);
                    assert(flags[k]);
                    assert(s.stack[k] == rest[k]);
                    assert(s.store[rest[k].index() as int] is Postponed);
                } else {
                    assert(stack[k] == position);
                    assert(moves[i].0.index() != position.index());
                }
            }
        }
        let pushed = rest_flags.push(true);
        assert(pushed.drop_last() =~= rest_flags);
        lemma_budget_ordinary(pushed, n, slots);
        let free = free_slots(rest_flags, slots);
        assert(free >= 1);
        assert(free_slots(pushed, slots) == free - 1);
        let w = weight((free - 1) as nat);
        assert(weight(free) == 2 + 7 * w);
        assert(n * w <= 7 * w) by (nonlinear_arith)
            requires
                n <= 7,
                w >= 0,
        ;
        assert(budget(flags, slots) == budget(rest_flags, slots) + weight(free));
    } else {
        assert(after.stack == rest);
        assert(marks == rest_flags);
        assert forall|k: int| 0 <= k < marks.len() && #[trigger] marks[k] implies after.store[rest[k].index() as int]
            is Postponed by {
            assert(flags[k]);
        }
        assert forall|k: int, j: int|
            0 <= k < j < marks.len() && #[trigger] marks[k] implies (#[trigger] rest[j]).index()
            != rest[k].index() by {
            assert(flags[k]);
            assert(rest[j] == s.stack[j]);
            assert(rest[k] == s.stack[k]);
        }
    }
}

} // verus!
