#![allow(deprecated)]

use borsh::BorshSerialize;
use leader_schedule::account::{decode_accounts, record_of, StakeAccount};
use leader_schedule::error::ScheduleError;
use leader_schedule::identity::Identity;
use leader_schedule::record::DelegationRecord;
use solana_sdk::pubkey::Pubkey;
use solana_sdk::stake::state::{Delegation, Meta, Stake, StakeState};

fn id(n: u8) -> Identity {
    Identity::new([n; 32])
}

fn delegated(voter: u8, stake: u64, activation: u64, deactivation: u64) -> Vec<u8> {
    let mut delegation = Delegation::new(&Pubkey::new_from_array([voter; 32]), stake, activation);
    delegation.deactivation_epoch = deactivation;
    let state = StakeState::Stake(Meta::default(), Stake { delegation, credits_observed: 11 });
    state.try_to_vec().unwrap()
}

fn account(address: u8, data: Vec<u8>) -> StakeAccount {
    StakeAccount { address: id(address), data }
}

#[test]
fn delegation_is_read_from_a_stake_state() {
    let accounts = vec![account(1, delegated(7, 1234, 5, 99))];
    assert_eq!(
        decode_accounts(&accounts),
        Ok(vec![DelegationRecord {
            validator_identity: id(7),
            stake_amount: 1234,
            activation_epoch: 5,
            deactivation_epoch: 99,
        }])
    );
}

#[test]
fn delegation_is_read_from_bytes_laid_out_by_hand() {
    let mut data = Vec::new();
    data.extend_from_slice(&2u32.to_le_bytes());
    data.extend_from_slice(&[0u8; 120]);
    data.extend_from_slice(&[0xab; 32]);
    data.extend_from_slice(&0x1122334455667788u64.to_le_bytes());
    data.extend_from_slice(&3u64.to_le_bytes());
    data.extend_from_slice(&u64::MAX.to_le_bytes());
    data.extend_from_slice(&[0, 0, 0, 0, 0, 0, 0xd0, 0x3f]);
    data.extend_from_slice(&9u64.to_le_bytes());
    data.extend_from_slice(&[0u8; 4]);
    assert_eq!(data.len(), 200);
    assert_eq!(
        decode_accounts(&vec![account(1, data)]),
        Ok(vec![DelegationRecord {
            validator_identity: id(0xab),
            stake_amount: 0x1122334455667788,
            activation_epoch: 3,
            deactivation_epoch: u64::MAX,
        }])
    );
}

#[test]
fn account_without_data_is_passed_over() {
    let accounts = vec![
        account(1, Vec::new()),
        account(2, delegated(7, 10, 0, 9)),
        account(3, Vec::new()),
    ];
    let records = decode_accounts(&accounts).unwrap();
    assert_eq!(records.len(), 1);
    assert_eq!(records[0].validator_identity, id(7));
}

#[test]
fn stake_state_without_delegation_is_passed_over() {
    let accounts = vec![
        account(1, StakeState::Uninitialized.try_to_vec().unwrap()),
        account(2, StakeState::Initialized(Meta::default()).try_to_vec().unwrap()),
        account(3, StakeState::RewardsPool.try_to_vec().unwrap()),
    ];
    assert_eq!(decode_accounts(&accounts), Ok(Vec::new()));
}

#[test]
fn delegations_keep_the_order_of_their_accounts() {
    let accounts = vec![
        account(1, delegated(9, 1, 0, 9)),
        account(2, delegated(8, 2, 0, 9)),
        account(3, StakeState::Uninitialized.try_to_vec().unwrap()),
        account(4, delegated(9, 3, 0, 9)),
    ];
    let records = decode_accounts(&accounts).unwrap();
    let seen: Vec<(Identity, u64)> =
        records.iter().map(|record| (record.validator_identity, record.stake_amount)).collect();
    assert_eq!(seen, vec![(id(9), 1), (id(8), 2), (id(9), 3)]);
}

#[test]
fn no_accounts_hold_no_delegations() {
    assert_eq!(decode_accounts(&Vec::new()), Ok(Vec::new()));
}

#[test]
fn unknown_kind_of_state_is_malformed() {
    let mut data = delegated(7, 10, 0, 9);
    data[0] = 4;
    let accounts = vec![account(1, delegated(7, 10, 0, 9)), account(2, data)];
    assert_eq!(
        decode_accounts(&accounts),
        Err(ScheduleError::MalformedRecord {
            account: id(2),
            reason: "Invalid enum value".to_string(),
        })
    );
}

#[test]
fn data_cut_short_is_malformed() {
    let mut data = delegated(7, 10, 0, 9);
    data.truncate(150);
    assert_eq!(
        decode_accounts(&vec![account(5, data)]),
        Err(ScheduleError::MalformedRecord {
            account: id(5),
            reason: "Unexpected length of input".to_string(),
        })
    );
    assert_eq!(
        decode_accounts(&vec![account(6, vec![2])]),
        Err(ScheduleError::MalformedRecord {
            account: id(6),
            reason: "Unexpected length of input".to_string(),
        })
    );
}

#[test]
fn first_malformed_account_is_the_one_named() {
    let accounts = vec![
        account(1, Vec::new()),
        account(2, vec![9, 0, 0, 0]),
        account(3, vec![8, 0, 0, 0]),
    ];
    match decode_accounts(&accounts) {
        Err(ScheduleError::MalformedRecord { account, .. }) => assert_eq!(account, id(2)),
        other => panic!("{:?}", other),
    }
}

#[test]
fn decoded_account_becomes_a_record_or_an_error() {
    let record = DelegationRecord {
        validator_identity: id(7),
        stake_amount: 3,
        activation_epoch: 1,
        deactivation_epoch: 2,
    };
    assert_eq!(record_of(id(1), Ok(Some(record))), Ok(Some(record)));
    assert_eq!(record_of(id(1), Ok(None)), Ok(None));
    assert_eq!(
        record_of(id(1), Err("bad".to_string())),
        Err(ScheduleError::MalformedRecord { account: id(1), reason: "bad".to_string() })
    );
}

#[test]
fn copies_of_accounts_and_errors_are_equal_to_them() {
    let one = account(3, delegated(7, 10, 0, 9));
    assert_eq!(one.clone(), one);
    let error = ScheduleError::MalformedRecord { account: id(3), reason: "bad".to_string() };
    assert_eq!(error.clone(), error);
    assert_eq!(ScheduleError::EmptyStakeSet.clone(), ScheduleError::EmptyStakeSet);
    assert_ne!(error, ScheduleError::EmptyStakeSet);
}
