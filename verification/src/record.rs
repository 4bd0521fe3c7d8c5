use vstd::prelude::*;
use crate::identity::Identity;

verus! {

/// The delegation state of one stake account.
///
/// An epoch of `u64::MAX` stands for "never": a delegation that was never
/// activated, or one that was never deactivated.
#[derive(Clone, Copy, Debug, PartialEq, Eq)]
pub struct DelegationRecord {
    /// The validator that the account delegates to.
    pub validator_identity: Identity,
    /// The amount of stake delegated.
    pub stake_amount: u64,
    /// The epoch in which the delegation became effective.
    pub activation_epoch: u64,
    /// The epoch in which the delegation ceased.
    pub deactivation_epoch: u64,
}

impl DelegationRecord {
    /// The record counts for `epoch`: it was activated before that epoch and
    /// not deactivated before it.
    pub open spec fn active_in(&self, epoch: u64) -> bool {
        self.activation_epoch < epoch && epoch <= self.deactivation_epoch
    }

    /// Tells whether the record counts for `epoch`.
    pub fn is_active(&self, epoch: u64) -> (active: bool)
        ensures
            active == self.active_in(epoch),
    {
        if self.activation_epoch >= epoch {
            return false;
        }
        if self.deactivation_epoch < epoch {
            return false;
        }
        true
    }
}

/// The stake that the records active in `epoch` delegate to `validator`.
pub open spec fn active_stake(records: Seq<DelegationRecord>, epoch: u64, validator: Identity) -> nat
    decreases records.len(),
{
    if records.len() == 0 {
        0
    } else {
        active_stake(records.drop_last(), epoch, validator) + counted_stake(
            records.last(),
            epoch,
            validator,
        )
    }
}

/// What one record adds to the stake of `validator` in `epoch`.
pub open spec fn counted_stake(record: DelegationRecord, epoch: u64, validator: Identity) -> nat {
    if record.active_in(epoch) && record.validator_identity == validator {
        record.stake_amount as nat
    } else {
        0
    }
}

/// Some record active in `epoch` delegates to `validator`.
pub open spec fn has_active(records: Seq<DelegationRecord>, epoch: u64, validator: Identity) -> bool {
    exists|i: int|
        0 <= i < records.len() && (#[trigger] records[i]).active_in(epoch)
            && records[i].validator_identity == validator
}

/// The stake table of `epoch`: each validator that some active record
/// delegates to, with the sum of the stake of those records.
pub open spec fn stake_table(records: Seq<DelegationRecord>, epoch: u64) -> Map<Identity, nat> {
    Map::new(
        |validator: Identity| has_active(records, epoch, validator),
        |validator: Identity| active_stake(records, epoch, validator),
    )
}

/// The sum of the stake of all records active in `epoch`.
pub open spec fn total_active_stake(records: Seq<DelegationRecord>, epoch: u64) -> nat
    decreases records.len(),
{
    if records.len() == 0 {
        0
    } else {
        let last = records.last();
        total_active_stake(records.drop_last(), epoch) + if last.active_in(epoch) {
            last.stake_amount as nat
        } else {
            0
        }
    }
}

/// `table` after stake `amount` was added for `validator`.
pub open spec fn with_stake(table: Map<Identity, nat>, validator: Identity, amount: nat) -> Map<
    Identity,
    nat,
> {
    table.insert(validator, stake_in(table, validator) + amount)
}

/// The stake of `validator` in `table`, zero for a validator that is not in it.
pub open spec fn stake_in(table: Map<Identity, nat>, validator: Identity) -> nat {
    if table.dom().contains(validator) {
        table[validator]
    } else {
        0
    }
}

/// One more record changes the stake table by that record's stake, if it is
/// active, and not at all otherwise.
pub proof fn lemma_stake_table_push(records: Seq<DelegationRecord>, record: DelegationRecord, epoch: u64)
    ensures
        record.active_in(epoch) ==> stake_table(records.push(record), epoch) == with_stake(
            stake_table(records, epoch),
            record.validator_identity,
            record.stake_amount as nat,
        ),
        !record.active_in(epoch) ==> stake_table(records.push(record), epoch) == stake_table(
            records,
            epoch,
        ),
{
    let longer = records.push(record);
    assert(longer.drop_last() == records);
    assert(longer.last() == record);
    if record.active_in(epoch) && !has_active(records, epoch, record.validator_identity) {
        lemma_inactive_validator_has_no_stake(records, epoch, record.validator_identity);
    }
}

/// A validator to which no active record delegates has no active stake.
pub proof fn lemma_inactive_validator_has_no_stake(
    records: Seq<DelegationRecord>,
    epoch: u64,
    validator: Identity,
)
    requires
        !has_active(records, epoch, validator),
    ensures
        active_stake(records, epoch, validator) == 0,
    decreases records.len(),
{
    if records.len() > 0 {
        let shorter = records.drop_last();
        lemma_inactive_validator_has_no_stake(shorter, epoch, validator);
    }
}

/// The active stake of a validator only grows as records are added.
pub proof fn lemma_active_stake_monotonic(
    records: Seq<DelegationRecord>,
    epoch: u64,
    validator: Identity,
    n: int,
)
    requires
        0 <= n <= records.len(),
    ensures
        active_stake(records.take(n), epoch, validator) <= active_stake(records, epoch, validator),
    decreases records.len() - n,
{
    if n == records.len() {
        assert(records.take(n) == records);
    } else {
        lemma_active_stake_monotonic(records.drop_last(), epoch, validator, n);
        assert(records.drop_last().take(n) == records.take(n));
    }
}

/// The stake of a validator is the stake without one record and what that
/// record counts for.
pub proof fn lemma_active_stake_without(
    records: Seq<DelegationRecord>,
    epoch: u64,
    validator: Identity,
    i: int,
)
    requires
        0 <= i < records.len(),
    ensures
        active_stake(records, epoch, validator) == active_stake(
            records.remove(i),
            epoch,
            validator,
        ) + counted_stake(records[i], epoch, validator),
    decreases records.len(),
{
    if i < records.len() - 1 {
        lemma_active_stake_without(records.drop_last(), epoch, validator, i);
        assert(records.remove(i).drop_last() == records.drop_last().remove(i));
    }
}

/// The stake of a validator does not depend on the order of the records.
pub proof fn lemma_active_stake_ignores_order(
    first: Seq<DelegationRecord>,
    second: Seq<DelegationRecord>,
    epoch: u64,
    validator: Identity,
)
    requires
        first.to_multiset() == second.to_multiset(),
    ensures
        active_stake(first, epoch, validator) == active_stake(second, epoch, validator),
    decreases first.len(),
{
    broadcast use vstd::seq_lib::group_to_multiset_ensures;

    if first.len() == 0 {
        assert(first.to_multiset().len() == 0);
    } else {
        let record = first.last();
        let shorter = first.drop_last();
        assert(first == shorter.push(record));
        assert(first.to_multiset().count(record) > 0);
        let i = choose|i: int| 0 <= i < second.len() && second[i] == record;
        assert(shorter.to_multiset() =~= first.to_multiset().remove(record));
        lemma_active_stake_ignores_order(shorter, second.remove(i), epoch, validator);
        lemma_active_stake_without(second, epoch, validator, i);
    }
}

/// The stake table does not depend on the order of the records: two
/// sequences that hold the same records, each as often in one as in the
/// other, have the same table.
pub proof fn lemma_stake_table_ignores_order(
    first: Seq<DelegationRecord>,
    second: Seq<DelegationRecord>,
    epoch: u64,
)
    requires
        first.to_multiset() == second.to_multiset(),
    ensures
        stake_table(first, epoch) == stake_table(second, epoch),
{
    broadcast use vstd::seq_lib::group_to_multiset_ensures;

    assert forall|v: Identity| has_active(first, epoch, v) <==> has_active(second, epoch, v) by {
        if has_active(first, epoch, v) {
            let i = choose|i: int|
                0 <= i < first.len() && (#[trigger] first[i]).active_in(epoch)
                    && first[i].validator_identity == v;
            assert(second.to_multiset().count(first[i]) > 0);
        }
        if has_active(second, epoch, v) {
            let i = choose|i: int|
                0 <= i < second.len() && (#[trigger] second[i]).active_in(epoch)
                    && second[i].validator_identity == v;
            assert(first.to_multiset().count(second[i]) > 0);
        }
    }
    assert forall|v: Identity| active_stake(first, epoch, v) == active_stake(second, epoch, v) by {
        lemma_active_stake_ignores_order(first, second, epoch, v);
    }
}

/// The sum of the stake of all validators of a table.
pub open spec fn table_total(table: Map<Identity, nat>) -> nat {
    table.dom().fold(0nat, |sum: nat, validator: Identity| sum + table[validator])
}

/// Two tables that agree on a finite set of validators have the same sum
/// of stake over that set.
proof fn lemma_sum_over_agreeing(
    validators: Set<Identity>,
    first: Map<Identity, nat>,
    second: Map<Identity, nat>,
)
    requires
        validators.finite(),
        forall|v: Identity| validators.contains(v) ==> first[v] == second[v],
    ensures
        validators.fold(0nat, |sum: nat, v: Identity| sum + first[v]) == validators.fold(
            0nat,
            |sum: nat, v: Identity| sum + second[v],
        ),
    decreases validators.len(),
{
    let f = |sum: nat, v: Identity| sum + first[v];
    let g = |sum: nat, v: Identity| sum + second[v];
    if validators.len() == 0 {
        assert(validators =~= Set::<Identity>::empty());
        vstd::set::fold::lemma_fold_empty(0nat, f);
        vstd::set::fold::lemma_fold_empty(0nat, g);
    } else {
        let v = validators.choose();
        let rest = validators.remove(v);
        lemma_sum_over_agreeing(rest, first, second);
        vstd::set::fold::lemma_fold_insert(rest, 0nat, f, v);
        vstd::set::fold::lemma_fold_insert(rest, 0nat, g, v);
    }
}

/// Stake added for one validator adds as much to the sum of the table.
pub proof fn lemma_total_with_stake(table: Map<Identity, nat>, validator: Identity, amount: nat)
    requires
        table.dom().finite(),
    ensures
        with_stake(table, validator, amount).dom().finite(),
        table_total(with_stake(table, validator, amount)) == table_total(table) + amount,
{
    let after = with_stake(table, validator, amount);
    let others = table.dom().remove(validator);
    let f = |sum: nat, v: Identity| sum + table[v];
    let g = |sum: nat, v: Identity| sum + after[v];
    assert(after.dom() =~= others.insert(validator));
    lemma_sum_over_agreeing(others, table, after);
    vstd::set::fold::lemma_fold_insert(others, 0nat, g, validator);
    if table.dom().contains(validator) {
        vstd::set::fold::lemma_fold_insert(others, 0nat, f, validator);
    } else {
        assert(table.dom() =~= others);
    }
}

/// No stake is lost and none is counted twice: the stake of all validators
/// of the table sums to the stake of all active records.
pub proof fn lemma_stake_is_conserved(records: Seq<DelegationRecord>, epoch: u64)
    ensures
        stake_table(records, epoch).dom().finite(),
        table_total(stake_table(records, epoch)) == total_active_stake(records, epoch),
    decreases records.len(),
{
    if records.len() == 0 {
        assert(stake_table(records, epoch).dom() =~= Set::<Identity>::empty());
        vstd::set::fold::lemma_fold_empty(
            0nat,
            |sum: nat, validator: Identity| sum + stake_table(records, epoch)[validator],
        );
    } else {
        let shorter = records.drop_last();
        let last = records.last();
        assert(records == shorter.push(last));
        lemma_stake_is_conserved(shorter, epoch);
        lemma_stake_table_push(shorter, last, epoch);
        if last.active_in(epoch) {
            lemma_total_with_stake(
                stake_table(shorter, epoch),
                last.validator_identity,
                last.stake_amount as nat,
            );
        }
    }
}

} // verus!
