use borsh::BorshDeserialize;
use solana_sdk::stake::state::StakeState;
use vstd::prelude::*;
use crate::error::ScheduleError;
use crate::identity::Identity;
use crate::record::DelegationRecord;

verus! {

/// An account of the stake program as it was fetched: its address and its data.
#[derive(Debug, PartialEq, Eq)]
pub struct StakeAccount {
    /// The address of the account.
    pub address: Identity,
    /// The data that the account holds.
    pub data: Vec<u8>,
}

impl Clone for StakeAccount {
    fn clone(&self) -> (copy: StakeAccount)
        ensures
            copy.address == self.address,
            copy.data@ == self.data@,
    {
        let data = self.data.clone();
        StakeAccount { address: self.address, data }
    }
}

/// What the data of a stake account decodes to: the delegation of a stake
/// state that holds one, none for a stake state that holds none, and the
/// decoder's complaint for data that is no stake state.
pub uninterp spec fn stake_state_delegation(data: Seq<u8>) -> Result<
    Option<DelegationRecord>,
    Seq<char>,
>;

/// A decoded account with the decoder's complaint, if there is one, as the
/// sequence of its characters.
pub open spec fn outcome(decoded: Result<Option<DelegationRecord>, String>) -> Result<
    Option<DelegationRecord>,
    Seq<char>,
> {
    match decoded {
        Ok(found) => Ok(found),
        Err(reason) => Err(reason@),
    }
}

/// Decodes the data of a stake account.
///
/// Trusted: the body reads `data` with `StakeState::deserialize`, which
/// `solana_sdk` implements for `borsh::BorshDeserialize`, and hands out the
/// delegation of the `Stake` variant field by field, or the text of the
/// decoder's error. The contract claims only that the outcome depends on the
/// bytes alone.
#[allow(deprecated)]
#[verifier::external_body]
pub(crate) fn decode_delegation(data: &[u8]) -> (decoded: Result<Option<DelegationRecord>, String>)
    ensures
        outcome(decoded) == stake_state_delegation(data@),
{
    let mut rest = data;
    match StakeState::deserialize(&mut rest) {
        Ok(StakeState::Stake(_, stake)) => Ok(Some(DelegationRecord {
            validator_identity: Identity { bytes: stake.delegation.voter_pubkey.to_bytes() },
            stake_amount: stake.delegation.stake,
            activation_epoch: stake.delegation.activation_epoch,
            deactivation_epoch: stake.delegation.deactivation_epoch,
        })),
        Ok(StakeState::Uninitialized) => Ok(None),
        Ok(StakeState::Initialized(_)) => Ok(None),
        Ok(StakeState::RewardsPool) => Ok(None),
        Err(error) => Err(error.to_string()),
    }
}

/// The account can be read: it holds no data, or data that is a stake state.
pub open spec fn readable(account: StakeAccount) -> bool {
    account.data@.len() == 0 || stake_state_delegation(account.data@) is Ok
}

/// The delegation that the account holds, if it holds one.
pub open spec fn delegation_of(account: StakeAccount) -> Option<DelegationRecord> {
    if account.data@.len() == 0 {
        None
    } else {
        match stake_state_delegation(account.data@) {
            Ok(found) => found,
            Err(_) => None,
        }
    }
}

/// The delegations that the accounts hold, in the order of the accounts.
pub open spec fn delegations_of(accounts: Seq<StakeAccount>) -> Seq<DelegationRecord>
    decreases accounts.len(),
{
    if accounts.len() == 0 {
        Seq::empty()
    } else {
        let before = delegations_of(accounts.drop_last());
        match delegation_of(accounts.last()) {
            Some(record) => before.push(record),
            None => before,
        }
    }
}

/// The first account that cannot be read stands at position `i`.
pub open spec fn first_unreadable(accounts: Seq<StakeAccount>, i: int) -> bool {
    &&& 0 <= i < accounts.len()
    &&& !readable(accounts[i])
    &&& forall|j: int| 0 <= j < i ==> readable(#[trigger] accounts[j])
}

/// What to make of a decoded account: the delegation to count, if there is
/// one, or the error that names the account whose data is no stake state.
pub fn record_of(address: Identity, decoded: Result<Option<DelegationRecord>, String>) -> (result:
    Result<Option<DelegationRecord>, ScheduleError>)
    ensures
        match decoded {
            Ok(found) => result matches Ok(record) && record == found,
            Err(reason) => result matches Err(error) && error == (ScheduleError::MalformedRecord {
                account: address,
                reason,
            }),
        },
{
    match decoded {
        Ok(found) => Ok(found),
        Err(reason) => Err(ScheduleError::MalformedRecord { account: address, reason }),
    }
}

/// Reads the delegations out of the accounts of the stake program.
///
/// An account without data is passed over, and so is a stake state that
/// holds no delegation. The first account whose data is no stake state
/// fails the whole: nothing is returned but the error that names it.
pub fn decode_accounts(accounts: &Vec<StakeAccount>) -> (result: Result<
    Vec<DelegationRecord>,
    ScheduleError,
>)
    ensures
        result is Ok <==> forall|i: int| 0 <= i < accounts@.len() ==> readable(#[trigger] accounts@[i]),
        result matches Ok(records) ==> records@ == delegations_of(accounts@),
        result matches Err(error) ==> exists|i: int|
            {
                &&& #[trigger] first_unreadable(accounts@, i)
                &&& error matches ScheduleError::MalformedRecord { account, reason }
                &&& account == accounts@[i].address
                &&& stake_state_delegation(accounts@[i].data@) matches Err(complaint)
                &&& complaint == reason@
            },
{
    let mut records: Vec<DelegationRecord> = Vec::new();
    let mut i: usize = 0;
    while i < accounts.len()
        invariant
            i <= accounts@.len(),
            forall|j: int| 0 <= j < i ==> readable(#[trigger] accounts@[j]),
            records@ == delegations_of(accounts@.take(i as int)),
        decreases accounts@.len() - i,
    {
        let account = &accounts[i];
        proof {
            assert(accounts@.take(i + 1).drop_last() == accounts@.take(i as int));
        }
        if account.data.len() != 0 {
            let decoded = decode_delegation(account.data.as_slice());
            match record_of(account.address, decoded) {
                Ok(Some(record)) => {
                    records.push(record);
                },
                Ok(None) => {},
                Err(error) => {
                    assert(first_unreadable(accounts@, i as int));
                    return Err(error);
                },
            }
        }
        i += 1;
    }
    assert(accounts@.take(i as int) == accounts@);
    Ok(records)
}

} // verus!
