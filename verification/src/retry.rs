//! The retry discipline around the nameserver race and the WAN query.
//!
//! The orchestrator is a state machine driven by the caller, who performs
//! the actual network work and reports each outcome. A failed race is
//! retried after a fixed backoff, up to a fixed number of extra attempts;
//! a failed WAN query is never retried — reaching a nameserver and then
//! failing is treated as a harder failure than not reaching one.

use vstd::prelude::*;
use crate::PathError;

verus! {

/// Extra race attempts after the first one.
pub const MAX_RETRIES: u8 = 3;

/// How long the caller waits between race attempts, in milliseconds.
pub const BACKOFF_MS: u64 = 100;

/// Where the discovery attempt stands.
#[derive(Copy, Clone, Debug, PartialEq, Eq, Structural)]
pub enum RetryState {
    /// A nameserver race is in progress.
    Resolving,
    /// The race was won; the WAN query is in progress.
    Querying,
    /// The WAN query answered.
    Succeeded,
    /// The race failed; the caller waits out the backoff.
    Retrying,
    /// The attempt is over without an answer.
    Failed,
}

/// The retry state machine: the current phase, how many extra race
/// attempts remain, how many races have been started, and — once the
/// attempt has failed — which failure ended it.
#[derive(Copy, Clone, Debug, PartialEq, Eq)]
pub struct RetryOrchestrator {
    /// The current phase.
    pub state: RetryState,
    /// Extra race attempts still allowed.
    pub retries_left: u8,
    /// Races started so far.
    pub races_started: u8,
    /// What ended the attempt, once it has failed.
    pub failure: Option<PathError>,
}

impl RetryOrchestrator {
    /// The machine as it stands when discovery begins: resolving, with
    /// the full retry budget, one race under way.
    pub open spec fn spec_new() -> RetryOrchestrator {
        RetryOrchestrator {
            state: RetryState::Resolving,
            retries_left: MAX_RETRIES,
            races_started: 1,
            failure: None,
        }
    }

    /// The machine after the running race fails: retry if budget
    /// remains, otherwise fail.
    pub open spec fn spec_race_failure(self) -> RetryOrchestrator {
        if self.retries_left > 0 {
            RetryOrchestrator {
                state: RetryState::Retrying,
                retries_left: (self.retries_left - 1) as u8,
                ..self
            }
        } else {
            RetryOrchestrator {
                state: RetryState::Failed,
                failure: Some(PathError::NoNameserverReachable),
                ..self
            }
        }
    }

    /// The machine after the backoff has been waited out: a new race
    /// starts.
    pub open spec fn spec_backoff_elapsed(self) -> RetryOrchestrator {
        RetryOrchestrator {
            state: RetryState::Resolving,
            races_started: (self.races_started + 1) as u8,
            ..self
        }
    }

    /// Races started never exceed one more than the full retry budget,
    /// and a failure is recorded exactly when the attempt has failed.
    pub open spec fn wf(self) -> bool {
        &&& self.races_started >= 1
        &&& self.races_started + self.retries_left <= 1 + MAX_RETRIES
        &&& (self.state is Retrying ==> self.races_started + self.retries_left <= MAX_RETRIES)
        &&& (self.state is Failed <==> self.failure is Some)
    }

    /// Begin a discovery attempt: the first race is under way.
    pub fn new() -> (r: RetryOrchestrator)
        ensures
            r == RetryOrchestrator::spec_new(),
            r.wf(),
    {
        RetryOrchestrator {
            state: RetryState::Resolving,
            retries_left: MAX_RETRIES,
            races_started: 1,
            failure: None,
        }
    }

    /// The running race failed. Moves to `Retrying` while budget
    /// remains, else to `Failed`.
    pub fn on_race_failure(&mut self)
        requires
            old(self).state is Resolving,
            old(self).wf(),
        ensures
            *final(self) == old(self).spec_race_failure(),
            final(self).wf(),
    {
        if self.retries_left > 0 {
            self.retries_left = self.retries_left - 1;
            self.state = RetryState::Retrying;
        } else {
            self.state = RetryState::Failed;
            self.failure = Some(PathError::NoNameserverReachable);
        }
    }

    /// The caller has waited [`BACKOFF_MS`] milliseconds; a new race
    /// starts.
    pub fn on_backoff_elapsed(&mut self)
        requires
            old(self).state is Retrying,
            old(self).wf(),
        ensures
            *final(self) == old(self).spec_backoff_elapsed(),
            final(self).wf(),
    {
        self.races_started = self.races_started + 1;
        self.state = RetryState::Resolving;
    }

    /// The running race was won; the WAN query begins.
    pub fn on_race_success(&mut self)
        requires
            old(self).state is Resolving,
            old(self).wf(),
        ensures
            *final(self) == (RetryOrchestrator { state: RetryState::Querying, ..*old(self) }),
            final(self).wf(),
    {
        self.state = RetryState::Querying;
    }

    /// The WAN query answered; discovery succeeded.
    pub fn on_query_success(&mut self)
        requires
            old(self).state is Querying,
            old(self).wf(),
        ensures
            *final(self) == (RetryOrchestrator { state: RetryState::Succeeded, ..*old(self) }),
            final(self).wf(),
    {
        self.state = RetryState::Succeeded;
    }

    /// The WAN query failed. Query failures are not retried: the
    /// attempt fails at once with the lookup failure, whatever retry
    /// budget remains.
    pub fn on_query_failure(&mut self)
        requires
            old(self).state is Querying,
            old(self).wf(),
        ensures
            *final(self) == (RetryOrchestrator {
                state: RetryState::Failed,
                failure: Some(PathError::LookupFailed),
                ..*old(self)
            }),
            final(self).wf(),
    {
        self.state = RetryState::Failed;
        self.failure = Some(PathError::LookupFailed);
    }
}

/// The machine after `k` whole failure-and-backoff rounds.
pub open spec fn after_failed_rounds(m: RetryOrchestrator, k: nat) -> RetryOrchestrator
    decreases k,
{
    if k == 0 {
        m
    } else {
        after_failed_rounds(m.spec_race_failure().spec_backoff_elapsed(), (k - 1) as nat)
    }
}

/// When every race fails, the machine runs exactly four races — the
/// first plus [`MAX_RETRIES`] retries, each after one backoff — and only
/// then fails: after each of the first three failures it is retrying,
/// and the fourth failure is final.
pub proof fn lemma_all_failures_make_four_attempts()
    ensures
        forall|k: nat|
            k < MAX_RETRIES ==> (#[trigger] after_failed_rounds(
                RetryOrchestrator::spec_new(),
                k,
            )).spec_race_failure().state is Retrying,
        after_failed_rounds(RetryOrchestrator::spec_new(), MAX_RETRIES as nat).races_started == 1
            + MAX_RETRIES,
        after_failed_rounds(RetryOrchestrator::spec_new(), MAX_RETRIES as nat).state
            is Resolving,
        after_failed_rounds(
            RetryOrchestrator::spec_new(),
            MAX_RETRIES as nat,
        ).spec_race_failure().state is Failed,
        after_failed_rounds(
            RetryOrchestrator::spec_new(),
            MAX_RETRIES as nat,
        ).spec_race_failure().failure == Some(PathError::NoNameserverReachable),
{
    reveal_with_fuel(after_failed_rounds, 5);
    let m0 = RetryOrchestrator::spec_new();
    let m1 = after_failed_rounds(m0, 1);
    let m2 = after_failed_rounds(m0, 2);
    let m3 = after_failed_rounds(m0, 3);
    assert(after_failed_rounds(m0, 0) == m0);
    assert(m1 == m0.spec_race_failure().spec_backoff_elapsed());
    assert(m1.races_started == 2 && m1.retries_left == 2 && m1.state is Resolving);
    assert(m2.races_started == 3 && m2.retries_left == 1 && m2.state is Resolving);
    assert(m3.races_started == 4 && m3.retries_left == 0 && m3.state is Resolving);
    assert forall|k: nat| k < MAX_RETRIES implies (#[trigger] after_failed_rounds(
        m0,
        k,
    )).spec_race_failure().state is Retrying by {
        if k == 0 {
        } else if k == 1 {
        } else {
            assert(k == 2);
        }
    }
}

} // verus!
