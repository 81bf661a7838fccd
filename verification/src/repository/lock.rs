//! The decisions of taking a lock file: what to do after each attempt to
//! create it.
use vstd::prelude::*;

verus! {

/// What an attempt to create the lock file met.
#[derive(Debug, Clone, Copy, PartialEq, Eq, Structural)]
pub enum LockEvent {
    /// The file was created: the lock is held.
    Created,
    /// The file was there already; `stale` when it is older than the stale
    /// age.
    Exists { stale: bool },
    /// Creating the file failed otherwise.
    Failed,
}

/// What to do next.
#[derive(Debug, Clone, Copy, PartialEq, Eq, Structural)]
pub enum LockAction {
    /// The lock is held.
    Acquired,
    /// Remove the stale file and go on to the next attempt.
    RemoveStale,
    /// Wait the backoff, then go on to the next attempt.
    Wait,
    /// Give up with the "already exists" error.
    GiveUp,
    /// Give up with the error met.
    Fail,
}

/// The action after attempt `attempt` (counted from 0, of `retry + 1`) met
/// `event`: a held lock is kept; a stale lock is removed and the next
/// attempt made; a live lock is waited for, unless this was the last
/// attempt; any other failure ends the attempts.
pub fn lock_step(attempt: usize, retry: usize, event: LockEvent) -> (a: LockAction)
    ensures
        a == (match event {
            LockEvent::Created => LockAction::Acquired,
            LockEvent::Exists { stale: true } => LockAction::RemoveStale,
            LockEvent::Exists { stale: false } => if attempt == retry { LockAction::GiveUp } else { LockAction::Wait },
            LockEvent::Failed => LockAction::Fail,
        }),
{
    match event {
        LockEvent::Created => LockAction::Acquired,
        LockEvent::Exists { stale } => {
            if stale {
                LockAction::RemoveStale
            } else if attempt == retry {
                LockAction::GiveUp
            } else {
                LockAction::Wait
            }
        },
        LockEvent::Failed => LockAction::Fail,
    }
}

} // verus!
