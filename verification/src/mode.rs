//! The manual-control guard: the process-wide slot that publishes the
//! revert handle, its exactly-once take-and-clear discipline, and the
//! bounded retry plan for the revert write.

use vstd::prelude::*;

verus! {

/// How many times the revert write is attempted before giving up.
pub const REVERT_RETRIES: u8 = 3;

/// Seconds waited between failed revert attempts.
pub const REVERT_BACKOFF_SECONDS: u64 = 1;

/// The take-and-clear transition on the slot: the slot state afterwards,
/// and whether the taker owes the revert write.
pub open spec fn take_slot(armed: bool) -> (bool, bool) {
    (false, armed)
}

/// Models the process-wide manual-control state: armed while the open
/// revert handle is published, empty once some caller has taken it. The
/// surrounding binary keeps the one live instance behind a lock shared
/// with the interrupt path, and performs the write this model calls for
/// whenever `disable` hands the duty out.
pub struct ManualFanControl {
    armed: bool,
}

impl ManualFanControl {
    /// Whether the revert handle is still published.
    pub closed spec fn is_armed(&self) -> bool {
        self.armed
    }

    /// The state right after a successful switch to manual mode: the
    /// handle is published before anything can ask for its release.
    pub fn enable() -> (g: ManualFanControl)
        ensures
            g.is_armed(),
    {
        ManualFanControl { armed: true }
    }

    /// Exec view of the slot.
    pub fn armed(&self) -> (r: bool)
        ensures
            r == self.is_armed(),
    {
        self.armed
    }

    /// Take-and-clear. The caller owes the revert write exactly when this
    /// returns true; any later call finds the slot empty and is a no-op.
    pub fn disable(&mut self) -> (do_revert: bool)
        ensures
            (final(self).is_armed(), do_revert) == take_slot(old(self).is_armed()),
    {
        let was = self.armed;
        self.armed = false;
        was
    }
}

/// Releasing twice in sequence performs the revert exactly once: the
/// first take gets the handle, the second finds the slot empty and is a
/// no-op.
pub proof fn lemma_release_idempotent(armed0: bool)
    requires
        armed0,
    ensures
        take_slot(armed0).1,
        !take_slot(take_slot(armed0).0).1,
{
}

/// How many revert writes two successive releases perform from a given
/// starting state.
pub open spec fn revert_count(armed0: bool) -> int {
    let first = take_slot(armed0);
    let second = take_slot(first.0);
    (if first.1 {
        1int
    } else {
        0int
    }) + (if second.1 {
        1int
    } else {
        0int
    })
}

/// The interrupt path and the normal unwind path may race to release the
/// guard; the lock serializes them into one of the two orders, and both
/// orders are two successive takes. Exactly one of them performs the
/// revert write: never zero, never two.
pub proof fn lemma_concurrent_release_single_revert(armed0: bool)
    requires
        armed0,
    ensures
        revert_count(armed0) == 1,
{
}

/// What to do after one attempt of the revert write.
#[derive(Clone, Copy, PartialEq, Eq, Structural, Debug)]
pub enum RevertStep {
    /// The write went through; the hardware is back under automatic
    /// control.
    Done,
    /// Wait out the backoff, then write again.
    RetryAfterBackoff,
    /// Every attempt failed: warn the operator loudly; the hardware is
    /// left in manual mode.
    GiveUp,
}

/// Decides, after the `attempts_made`-th revert write, what comes next:
/// done on success, retry with backoff while attempts remain, give up
/// after the last.
pub fn next_revert_step(write_ok: bool, attempts_made: u8) -> (s: RevertStep)
    requires
        1 <= attempts_made,
    ensures
        write_ok ==> s is Done,
        !write_ok && attempts_made < REVERT_RETRIES ==> s is RetryAfterBackoff,
        !write_ok && attempts_made >= REVERT_RETRIES ==> s is GiveUp,
{
    if write_ok {
        RevertStep::Done
    } else if attempts_made < REVERT_RETRIES {
        RevertStep::RetryAfterBackoff
    } else {
        RevertStep::GiveUp
    }
}

} // verus!
