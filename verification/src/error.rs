use vstd::prelude::*;
use crate::identity::Identity;

verus! {

/// Why no leader schedule could be made.
#[derive(Debug, PartialEq, Eq)]
pub enum ScheduleError {
    /// No validator has active stake in the epoch asked for.
    EmptyStakeSet,
    /// The data of a stake account could not be read as a stake state.
    MalformedRecord {
        /// The account whose data it is.
        account: Identity,
        /// What the decoder said of the data.
        reason: String,
    },
}

impl Clone for ScheduleError {
    fn clone(&self) -> (copy: ScheduleError)
        ensures
            copy == *self,
    {
        match self {
            ScheduleError::EmptyStakeSet => ScheduleError::EmptyStakeSet,
            ScheduleError::MalformedRecord { account, reason } => ScheduleError::MalformedRecord {
                account: *account,
                reason: reason.clone(),
            },
        }
    }
}

} // verus!
