//! Stake-weighted leader schedules for the epochs of a proof-of-stake network.
//!
//! A schedule is made in two steps. `stake::aggregate` sums, for each
//! validator, the stake of the delegations that are active in an epoch.
//! `schedule::schedule` puts the validators in a canonical order, shuffles
//! them by stake with a generator that the epoch seeds, and lays the
//! result out over the slots of the epoch.
//!
//! Everything here is verified but three calls into other crates, which
//! are believed as their contracts state them: the draw of a uniform
//! number in `draw`, the decoding of a stake account in `account`, and the
//! number of slots that one leader keeps in `schedule`.

pub mod account;
pub mod args;
pub mod draw;
pub mod endpoint;
pub mod error;
pub mod identity;
pub mod order;
pub mod record;
pub mod schedule;
pub mod seed;
pub mod shuffle;
pub mod stake;
pub mod weights;
