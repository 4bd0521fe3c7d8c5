use vstd::prelude::*;
use crate::identity::Identity;
use crate::record::{
    active_stake, lemma_active_stake_monotonic, lemma_inactive_validator_has_no_stake,
    lemma_stake_table_push, stake_in, stake_table, with_stake, DelegationRecord,
};

verus! {

/// Some entry of `entries` is for `validator`.
pub open spec fn lists(entries: Seq<(Identity, u64)>, validator: Identity) -> bool {
    exists|i: int| 0 <= i < entries.len() && (#[trigger] entries[i]).0 == validator
}

/// The position of an entry for `validator` in `entries`.
pub open spec fn position_of(entries: Seq<(Identity, u64)>, validator: Identity) -> int {
    choose|i: int| 0 <= i < entries.len() && (#[trigger] entries[i]).0 == validator
}

/// The table that a sequence of entries stands for: each validator listed,
/// with the stake of its entry.
pub open spec fn table_of(entries: Seq<(Identity, u64)>) -> Map<Identity, nat> {
    Map::new(
        |validator: Identity| lists(entries, validator),
        |validator: Identity| entries[position_of(entries, validator)].1 as nat,
    )
}

/// No validator has two entries.
pub open spec fn distinct_validators(entries: Seq<(Identity, u64)>) -> bool {
    forall|i: int, j: int|
        0 <= i < j < entries.len() ==> (#[trigger] entries[i]).0 != (#[trigger] entries[j]).0
}

/// The entries stand in strictly ascending order of validator identity.
pub open spec fn ascending(entries: Seq<(Identity, u64)>) -> bool {
    forall|i: int, j: int|
        0 <= i < j < entries.len() ==> (#[trigger] entries[i]).0.before(&(#[trigger] entries[j]).0)
}

/// Where each validator has one entry, the table holds each entry as it stands.
pub proof fn lemma_table_holds_entry(entries: Seq<(Identity, u64)>, i: int)
    requires
        distinct_validators(entries),
        0 <= i < entries.len(),
    ensures
        table_of(entries).dom().contains(entries[i].0),
        table_of(entries)[entries[i].0] == entries[i].1,
        position_of(entries, entries[i].0) == i,
{
    assert(lists(entries, entries[i].0));
}

/// Replacing the stake of one entry replaces that validator's stake in the table.
pub proof fn lemma_table_after_update(entries: Seq<(Identity, u64)>, i: int, stake: u64)
    requires
        distinct_validators(entries),
        0 <= i < entries.len(),
    ensures
        distinct_validators(entries.update(i, (entries[i].0, stake))),
        table_of(entries.update(i, (entries[i].0, stake))) == table_of(entries).insert(
            entries[i].0,
            stake as nat,
        ),
{
    let validator = entries[i].0;
    let updated = entries.update(i, (validator, stake));
    assert forall|v: Identity| lists(updated, v) <==> lists(entries, v) by {
        if lists(updated, v) {
            let k = position_of(updated, v);
        }
        if lists(entries, v) {
            let k = position_of(entries, v);
            assert(updated[k].0 == v);
        }
    }
}

/// A new entry for a validator that has none adds that validator to the table.
pub proof fn lemma_table_after_insert(entries: Seq<(Identity, u64)>, at: int, entry: (Identity, u64))
    requires
        distinct_validators(entries),
        !lists(entries, entry.0),
        0 <= at <= entries.len(),
    ensures
        distinct_validators(entries.insert(at, entry)),
        table_of(entries.insert(at, entry)) == table_of(entries).insert(entry.0, entry.1 as nat),
{
    let longer = entries.insert(at, entry);
    assert forall|v: Identity| lists(longer, v) <==> (lists(entries, v) || v == entry.0) by {
        if lists(longer, v) {
            let k = position_of(longer, v);
        }
        if lists(entries, v) {
            let k = position_of(entries, v);
            if k < at {
                assert(longer[k].0 == v);
            } else {
                assert(longer[k + 1].0 == v);
            }
        }
        if v == entry.0 {
            assert(longer[at].0 == v);
        }
    }
}

/// The total stake behind each validator in one epoch: a table from validator
/// identity to stake, in which each validator stands once.
pub struct AggregatedStake {
    entries: Vec<(Identity, u64)>,
}

impl View for AggregatedStake {
    type V = Map<Identity, nat>;

    closed spec fn view(&self) -> Map<Identity, nat> {
        table_of(self.entries@)
    }
}

impl AggregatedStake {
    #[verifier::type_invariant]
    spec fn ordered(&self) -> bool {
        ascending(self.entries@)
    }

    /// The table without any validator.
    pub fn new() -> (table: AggregatedStake)
        ensures
            table@ == Map::<Identity, nat>::empty(),
    {
        let table = AggregatedStake { entries: Vec::new() };
        table
    }

    /// The number of validators in the table.
    pub fn len(&self) -> (n: usize)
        ensures
            n == self@.dom().len(),
            self@.dom().finite(),
    {
        proof {
            use_type_invariant(self);
            lemma_table_size(self.entries@);
        }
        self.entries.len()
    }

    /// Tells whether the table holds no validator.
    pub fn is_empty(&self) -> (empty: bool)
        ensures
            empty == (self@ == Map::<Identity, nat>::empty()),
    {
        proof {
            if self.entries@.len() == 0 {
                assert(self@ =~= Map::<Identity, nat>::empty());
            } else {
                assert(self@.dom().contains(self.entries@[0].0));
            }
        }
        self.entries.len() == 0
    }

    /// The first position whose entry does not come before `validator`.
    fn lower_bound(&self, validator: &Identity) -> (at: usize)
        ensures
            at <= self.entries@.len(),
            forall|i: int| 0 <= i < at ==> (#[trigger] self.entries@[i]).0.before(validator),
            forall|i: int|
                at <= i < self.entries@.len() ==> !(#[trigger] self.entries@[i]).0.before(validator),
    {
        proof {
            use_type_invariant(self);
        }
        let mut low: usize = 0;
        let mut high: usize = self.entries.len();
        while low < high
            invariant
                low <= high <= self.entries@.len(),
                ascending(self.entries@),
                forall|i: int| 0 <= i < low ==> (#[trigger] self.entries@[i]).0.before(validator),
                forall|i: int|
                    high <= i < self.entries@.len() ==> !(#[trigger] self.entries@[i]).0.before(
                        validator,
                    ),
            decreases high - low,
        {
            let middle = low + (high - low) / 2;
            if self.entries[middle].0.precedes(validator) {
                assert forall|i: int| 0 <= i < middle + 1 implies (#[trigger] self.entries@[i]).0.before(
                    validator,
                ) by {
                    if i < middle {
                        Identity::lemma_before_transitive(
                            self.entries@[i].0,
                            self.entries@[middle as int].0,
                            *validator,
                        );
                    }
                }
                low = middle + 1;
            } else {
                assert forall|i: int| middle <= i < self.entries@.len() implies !(
                #[trigger] self.entries@[i]).0.before(validator) by {
                    if middle < i && self.entries@[i].0.before(validator) {
                        Identity::lemma_before_transitive(
                            self.entries@[middle as int].0,
                            self.entries@[i].0,
                            *validator,
                        );
                    }
                }
                high = middle;
            }
        }
        low
    }

    /// The stake of `validator`, if the table holds it.
    pub fn get(&self, validator: &Identity) -> (stake: Option<u64>)
        ensures
            match stake {
                Some(amount) => self@.dom().contains(*validator) && self@[*validator] == amount,
                None => !self@.dom().contains(*validator),
            },
    {
        proof {
            use_type_invariant(self);
        }
        let at = self.lower_bound(validator);
        if at < self.entries.len() && self.entries[at].0 == *validator {
            Some(self.entries[at].1)
        } else {
            None
        }
    }

    /// Adds `amount` to the stake of `validator`, which enters the table if
    /// it was not in it.
    pub fn add(&mut self, validator: Identity, amount: u64)
        requires
            stake_in(old(self)@, validator) + amount <= u64::MAX,
        ensures
            final(self)@ == with_stake(old(self)@, validator, amount as nat),
    {
        proof {
            use_type_invariant(&*self);
        }
        let at = self.lower_bound(&validator);
        if at < self.entries.len() && self.entries[at].0 == validator {
            proof {
                lemma_table_after_update(
                    self.entries@,
                    at as int,
                    (self.entries@[at as int].1 + amount) as u64,
                );
            }
            let stake = self.entries[at].1 + amount;
            let mut entries: Vec<(Identity, u64)> = Vec::new();
            core::mem::swap(&mut self.entries, &mut entries);
            entries[at] = (validator, stake);
            self.entries = entries;
        } else {
            proof {
                lemma_absent_beside_lower_bound(self.entries@, validator, at as int);
                lemma_table_after_insert(self.entries@, at as int, (validator, amount));
                lemma_insert_keeps_ascending(self.entries@, at as int, (validator, amount));
            }
            let mut entries: Vec<(Identity, u64)> = Vec::new();
            core::mem::swap(&mut self.entries, &mut entries);
            entries.insert(at, (validator, amount));
            self.entries = entries;
        }
    }

    /// Adds `amount` to the stake of `validator` where the sum fits in 64
    /// bits, and tells whether it did; the table stays as it is where it
    /// does not fit.
    pub fn checked_add(&mut self, validator: Identity, amount: u64) -> (added: bool)
        ensures
            added == (stake_in(old(self)@, validator) + amount <= u64::MAX),
            added ==> final(self)@ == with_stake(old(self)@, validator, amount as nat),
            !added ==> final(self)@ == old(self)@,
    {
        let fits = match self.get(&validator) {
            Some(stake) => stake <= u64::MAX - amount,
            None => true,
        };
        if fits {
            self.add(validator, amount);
        }
        fits
    }

    /// The entries of the table, one for each validator, in ascending order
    /// of validator identity.
    pub fn entries(&self) -> (entries: Vec<(Identity, u64)>)
        ensures
            ascending(entries@),
            distinct_validators(entries@),
            table_of(entries@) == self@,
    {
        proof {
            use_type_invariant(self);
        }
        let mut entries: Vec<(Identity, u64)> = Vec::new();
        let mut i: usize = 0;
        while i < self.entries.len()
            invariant
                i <= self.entries@.len(),
                entries@ == self.entries@.take(i as int),
            decreases self.entries@.len() - i,
        {
            entries.push(self.entries[i]);
            i += 1;
        }
        assert(entries@ == self.entries@);
        entries
    }
}

/// Where the entries ascend and `at` is the first position whose entry does
/// not come before `validator`, an entry for `validator` can only stand at `at`.
proof fn lemma_absent_beside_lower_bound(entries: Seq<(Identity, u64)>, validator: Identity, at: int)
    requires
        ascending(entries),
        0 <= at <= entries.len(),
        forall|i: int| 0 <= i < at ==> (#[trigger] entries[i]).0.before(&validator),
        forall|i: int| at <= i < entries.len() ==> !(#[trigger] entries[i]).0.before(&validator),
        at < entries.len() ==> entries[at].0 != validator,
    ensures
        !lists(entries, validator),
        at < entries.len() ==> validator.before(&entries[at].0),
{
    if lists(entries, validator) {
        assert(entries[position_of(entries, validator)].0 == validator);
    }
    if at < entries.len() {
        Identity::lemma_before_total(validator, entries[at].0);
    }
}

/// An entry put at the first position whose entry does not come before it
/// keeps the entries ascending.
proof fn lemma_insert_keeps_ascending(entries: Seq<(Identity, u64)>, at: int, entry: (Identity, u64))
    requires
        ascending(entries),
        0 <= at <= entries.len(),
        forall|i: int| 0 <= i < at ==> (#[trigger] entries[i]).0.before(&entry.0),
        at < entries.len() ==> entry.0.before(&entries[at].0),
    ensures
        ascending(entries.insert(at, entry)),
{
    let longer = entries.insert(at, entry);
    assert forall|a: int, b: int| 0 <= a < b < longer.len() implies (#[trigger] longer[a]).0.before(
        &(#[trigger] longer[b]).0,
    ) by {
        if a == at && b > at + 1 {
            Identity::lemma_before_transitive(entry.0, entries[at].0, entries[b - 1].0);
        }
    }
}

/// A table made of entries that name each validator once has as many
/// validators as there are entries.
pub proof fn lemma_table_size(entries: Seq<(Identity, u64)>)
    requires
        distinct_validators(entries),
    ensures
        table_of(entries).dom().finite(),
        table_of(entries).dom().len() == entries.len(),
    decreases entries.len(),
{
    if entries.len() == 0 {
        assert(table_of(entries).dom() =~= Set::<Identity>::empty());
    } else {
        let shorter = entries.drop_last();
        let last = entries.last();
        lemma_table_size(shorter);
        assert(!lists(shorter, last.0));
        lemma_table_after_insert(shorter, shorter.len() as int, last);
        assert(shorter.insert(shorter.len() as int, last) == entries);
    }
}

/// Sums, for each validator, the stake of the records that are active in
/// `target_epoch`: those activated before it and not deactivated before it.
/// A validator stands in the table if and only if some active record
/// delegates to it.
///
/// The stake of each validator has to fit in 64 bits; `checked_aggregate`
/// finds out whether it does.
pub fn aggregate(records: &Vec<DelegationRecord>, target_epoch: u64) -> (table: AggregatedStake)
    requires
        forall|validator: Identity|
            active_stake(records@, target_epoch, validator) <= u64::MAX,
    ensures
        table@ == stake_table(records@, target_epoch),
{
    let mut table = AggregatedStake::new();
    let mut i: usize = 0;
    while i < records.len()
        invariant
            i <= records@.len(),
            table@ == stake_table(records@.take(i as int), target_epoch),
            forall|validator: Identity|
                active_stake(records@, target_epoch, validator) <= u64::MAX,
        decreases records@.len() - i,
    {
        let record = &records[i];
        proof {
            assert(records@.take(i + 1) == records@.take(i as int).push(*record));
            lemma_stake_table_push(records@.take(i as int), *record, target_epoch);
        }
        if record.is_active(target_epoch) {
            proof {
                let validator = record.validator_identity;
                lemma_active_stake_monotonic(records@, target_epoch, validator, i + 1);
                assert(records@.take(i + 1).drop_last() == records@.take(i as int));
            }
            table.add(record.validator_identity, record.stake_amount);
        }
        i += 1;
    }
    assert(records@.take(i as int) == records@);
    table
}

/// Sums the stake of the active records as `aggregate` does, where the
/// stake of each validator fits in 64 bits, and gives nothing where the
/// stake of some validator does not.
pub fn checked_aggregate(records: &Vec<DelegationRecord>, target_epoch: u64) -> (table: Option<
    AggregatedStake,
>)
    ensures
        table is Some <==> forall|validator: Identity|
            active_stake(records@, target_epoch, validator) <= u64::MAX,
        table matches Some(sums) ==> sums@ == stake_table(records@, target_epoch),
{
    let mut table = AggregatedStake::new();
    let mut i: usize = 0;
    while i < records.len()
        invariant
            i <= records@.len(),
            table@ == stake_table(records@.take(i as int), target_epoch),
            forall|validator: Identity|
                active_stake(records@.take(i as int), target_epoch, validator) <= u64::MAX,
        decreases records@.len() - i,
    {
        let record = &records[i];
        let ghost seen = records@.take(i as int);
        proof {
            assert(records@.take(i + 1).drop_last() == seen);
        }
        if record.is_active(target_epoch) {
            proof {
                if !table@.dom().contains(record.validator_identity) {
                    lemma_inactive_validator_has_no_stake(
                        seen,
                        target_epoch,
                        record.validator_identity,
                    );
                }
            }
            if !table.checked_add(record.validator_identity, record.stake_amount) {
                proof {
                    lemma_active_stake_monotonic(
                        records@,
                        target_epoch,
                        record.validator_identity,
                        i + 1,
                    );
                }
                return None;
            }
        }
        proof {
            let longer = records@.take(i + 1);
            assert forall|validator: Identity| #[trigger]
                active_stake(longer, target_epoch, validator) <= u64::MAX by {
                assert(active_stake(seen, target_epoch, validator) <= u64::MAX);
            }
        }
        i += 1;
    }
    assert(records@.take(i as int) == records@);
    Some(table)
}

} // verus!
