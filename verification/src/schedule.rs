use vstd::prelude::*;
use crate::error::ScheduleError;
use crate::identity::Identity;
use crate::order::{canonical_order, lemma_sorted_is_canonical, sort_stakes};
use crate::record::{lemma_stake_table_ignores_order, stake_table, DelegationRecord};
use crate::seed::{schedule_seed, seed_of};
use crate::shuffle::{is_permutation, positions, shuffled, weighted_shuffle};
use crate::stake::{lemma_table_size, position_of, AggregatedStake};

verus! {

/// Number of slots in one epoch of the network.
pub const SLOTS_IN_EPOCH: u64 = 432000;

/// The number of slots in a row that one leader keeps.
///
/// Trusted: the body hands out `solana_sdk::clock::NUM_CONSECUTIVE_LEADER_SLOTS`,
/// and the contract states the value that the constant has.
#[verifier::external_body]
pub(crate) fn consecutive_leader_slots() -> (slots: u64)
    ensures
        slots == 4,
{
    solana_sdk::clock::NUM_CONSECUTIVE_LEADER_SLOTS
}

/// The stakes of a sequence of entries, in the order of the entries.
pub open spec fn stakes_of(entries: Seq<(Identity, u64)>) -> Seq<u64> {
    Seq::new(entries.len(), |i: int| entries[i].1)
}

/// The validators of `entries` in the order in which the weighted shuffle
/// under `seed` draws them, each drawn in proportion to its stake.
pub open spec fn leader_order(entries: Seq<(Identity, u64)>, seed: Seq<u8>) -> Seq<Identity> {
    let order = shuffled(stakes_of(entries), seed);
    Seq::new(order.len(), |j: int| entries[order[j]].0)
}

/// The leaders of `slots` slots: slot `s` belongs to leader group
/// `s / repeat`, and the groups take their leaders from `order` in turn,
/// starting over at its end.
pub open spec fn slot_leaders(order: Seq<Identity>, slots: nat, repeat: nat) -> Seq<Identity> {
    Seq::new(slots, |slot: int| order[(slot / repeat as int) % (order.len() as int)])
}

/// The leader schedule of `epoch` for a stake table: the canonical sequence
/// of the table, shuffled by stake under the seed of the epoch, and laid
/// out over the slots.
pub open spec fn schedule_of(table: Map<Identity, nat>, epoch: u64, slots: nat, repeat: nat) -> Seq<
    Identity,
> {
    slot_leaders(leader_order(canonical_order(table), seed_of(epoch)), slots, repeat)
}

/// A schedule has one leader for each slot, and the slots of one leader
/// group have one leader: each slot has the leader of the first slot of
/// its group.
pub proof fn lemma_groups_share_leader(order: Seq<Identity>, slots: nat, repeat: nat, slot: int)
    requires
        repeat > 0,
        0 <= slot < slots,
    ensures
        slot_leaders(order, slots, repeat).len() == slots,
        0 <= slot - slot % (repeat as int) <= slot,
        slot_leaders(order, slots, repeat)[slot] == slot_leaders(order, slots, repeat)[slot - slot
            % (repeat as int)],
{
    let d = repeat as int;
    let first = slot - slot % d;
    vstd::arithmetic::div_mod::lemma_fundamental_div_mod(slot, d);
    let group = slot / d;
    assert(first == group * d + 0) by (nonlinear_arith)
        requires
            first == d * group,
    ;
}

/// The schedule does not depend on the order in which the records are
/// given: two sequences that hold the same records, each as often in one
/// as in the other, lead to the same stake table and so to the same
/// schedule.
pub proof fn lemma_schedule_ignores_record_order(
    first: Seq<DelegationRecord>,
    second: Seq<DelegationRecord>,
    target_epoch: u64,
    epoch: u64,
    slots: nat,
    repeat: nat,
)
    requires
        first.to_multiset() == second.to_multiset(),
    ensures
        stake_table(first, target_epoch) == stake_table(second, target_epoch),
        schedule_of(stake_table(first, target_epoch), epoch, slots, repeat) == schedule_of(
            stake_table(second, target_epoch),
            epoch,
            slots,
            repeat,
        ),
{
    lemma_stake_table_ignores_order(first, second, target_epoch);
}

/// Lays the leaders of `order` out over `slots` slots, `repeat` slots in a
/// row for each, starting over with the first leader after the last.
pub fn expand(order: &Vec<Identity>, slots: u64, repeat: u64) -> (leaders: Vec<Identity>)
    requires
        order@.len() > 0,
        repeat > 0,
        slots <= usize::MAX,
    ensures
        leaders@ == slot_leaders(order@, slots as nat, repeat as nat),
{
    let count = order.len() as u64;
    let mut leaders: Vec<Identity> = Vec::new();
    let mut slot: u64 = 0;
    while slot < slots
        invariant
            slot <= slots,
            repeat > 0,
            count == order@.len(),
            0 < count <= usize::MAX,
            leaders@ == slot_leaders(order@, slot as nat, repeat as nat),
        decreases slots - slot,
    {
        let group = slot / repeat;
        let turn = (group % count) as usize;
        leaders.push(order[turn]);
        slot += 1;
    }
    leaders
}

/// The validators of `stakes` in the order of their turns as leader in
/// `epoch`: the canonical sequence of the table, shuffled by stake under
/// the seed of the epoch. Each validator of the table stands in it once.
pub fn leader_turns(stakes: &AggregatedStake, epoch: u64) -> (turns: Vec<Identity>)
    requires
        stakes@.dom().len() <= usize::MAX / 4,
    ensures
        turns@ == leader_order(canonical_order(stakes@), seed_of(epoch)),
        turns@.len() == stakes@.dom().len(),
        turns@.no_duplicates(),
        forall|validator: Identity| turns@.contains(validator) <==> stakes@.dom().contains(validator),
{
    let mut entries = stakes.entries();
    proof {
        lemma_table_size(entries@);
    }
    let ghost unsorted = entries@;
    sort_stakes(&mut entries);
    proof {
        lemma_sorted_is_canonical(unsorted, entries@);
    }
    let mut weights: Vec<u64> = Vec::new();
    let mut i: usize = 0;
    while i < entries.len()
        invariant
            i <= entries@.len(),
            weights@ == stakes_of(entries@).take(i as int),
        decreases entries@.len() - i,
    {
        weights.push(entries[i].1);
        i += 1;
    }
    assert(weights@ =~= stakes_of(entries@));
    let seed = schedule_seed(epoch);
    let order = weighted_shuffle(&weights, &seed);
    let mut turns: Vec<Identity> = Vec::new();
    let mut j: usize = 0;
    while j < order.len()
        invariant
            j <= order@.len(),
            entries@.len() == weights@.len(),
            is_permutation(positions(order@), weights@.len()),
            turns@.len() == j,
            forall|k: int| 0 <= k < j ==> turns@[k] == entries@[order@[k] as int].0,
        decreases order@.len() - j,
    {
        assert(0 <= positions(order@)[j as int] < weights@.len());
        turns.push(entries[order[j]].0);
        j += 1;
    }
    proof {
        let picked = positions(order@);
        assert(turns@ =~= leader_order(entries@, seed@));
        assert forall|validator: Identity| turns@.contains(validator) <==> stakes@.dom().contains(
            validator,
        ) by {
            if stakes@.dom().contains(validator) {
                let p = position_of(entries@, validator);
                assert(picked.contains(p));
                let k = choose|k: int| 0 <= k < picked.len() && picked[k] == p;
                assert(turns@[k] == validator);
            }
        }
    }
    turns
}

/// Makes the leader schedule of `epoch`: one validator for each of
/// `slots_in_epoch` slots, `consecutive_slots` slots in a row for each
/// leader, the validators taking turns in the order of a shuffle that is
/// weighted by stake and seeded by the epoch.
///
/// Fails with `EmptyStakeSet` exactly when the table holds no validator.
pub fn schedule(
    stakes: &AggregatedStake,
    epoch: u64,
    slots_in_epoch: u64,
    consecutive_slots: u64,
) -> (result: Result<Vec<Identity>, ScheduleError>)
    requires
        consecutive_slots > 0,
        slots_in_epoch <= usize::MAX,
        stakes@.dom().len() <= usize::MAX / 4,
    ensures
        result is Err <==> stakes@ == Map::<Identity, nat>::empty(),
        result matches Err(error) ==> error == ScheduleError::EmptyStakeSet,
        result matches Ok(leaders) ==> {
            &&& leaders@ == schedule_of(
                stakes@,
                epoch,
                slots_in_epoch as nat,
                consecutive_slots as nat,
            )
            &&& leaders@.len() == slots_in_epoch
            &&& forall|slot: int|
                0 <= slot < leaders@.len() ==> stakes@.dom().contains(#[trigger] leaders@[slot])
            &&& forall|slot: int|
                0 <= slot < leaders@.len() ==> #[trigger] leaders@[slot] == leaders@[slot - slot % (
                consecutive_slots as int)]
        },
{
    if stakes.is_empty() {
        return Err(ScheduleError::EmptyStakeSet);
    }
    let count = stakes.len();
    proof {
        if count == 0 {
            assert(stakes@ =~= Map::<Identity, nat>::empty());
        }
    }
    let turns = leader_turns(stakes, epoch);
    let leaders = expand(&turns, slots_in_epoch, consecutive_slots);
    proof {
        assert forall|slot: int| 0 <= slot < leaders@.len() implies stakes@.dom().contains(
            #[trigger] leaders@[slot],
        ) by {
            let turn = (slot / consecutive_slots as int) % (turns@.len() as int);
            assert(turns@.contains(turns@[turn]));
        }
        assert forall|slot: int| 0 <= slot < leaders@.len() implies #[trigger] leaders@[slot]
            == leaders@[slot - slot % (consecutive_slots as int)] by {
            lemma_groups_share_leader(
                turns@,
                slots_in_epoch as nat,
                consecutive_slots as nat,
                slot,
            );
        }
    }
    Ok(leaders)
}

/// Makes the leader schedule of `epoch` for the network as it is: an epoch
/// of `SLOTS_IN_EPOCH` slots, of which each leader keeps four in a row.
///
/// Fails with `EmptyStakeSet` exactly when the table holds no validator.
pub fn leader_schedule(epoch: u64, stakes: &AggregatedStake) -> (result: Result<
    Vec<Identity>,
    ScheduleError,
>)
    requires
        stakes@.dom().len() <= usize::MAX / 4,
    ensures
        result is Err <==> stakes@ == Map::<Identity, nat>::empty(),
        result matches Err(error) ==> error == ScheduleError::EmptyStakeSet,
        result matches Ok(leaders) ==> {
            &&& leaders@ == schedule_of(stakes@, epoch, SLOTS_IN_EPOCH as nat, 4)
            &&& leaders@.len() == SLOTS_IN_EPOCH
            &&& forall|slot: int|
                0 <= slot < leaders@.len() ==> stakes@.dom().contains(#[trigger] leaders@[slot])
            &&& forall|slot: int|
                0 <= slot < leaders@.len() ==> #[trigger] leaders@[slot] == leaders@[slot - slot % 4]
        },
{
    schedule(stakes, epoch, SLOTS_IN_EPOCH, consecutive_leader_slots())
}

} // verus!
