//! The run's state machine: tracks the settling of concurrent download
//! and deployment tasks and decides when the new local state file may be
//! persisted.
//!
//! Persisting is allowed only after every launched task has settled with
//! no failure recorded, so a failed run never replaces the previous state
//! file. A failure never cancels siblings: the machine keeps counting
//! settlements and reports the abort only at the end.

use vstd::prelude::*;

verus! {

/// Which part of the run is in flight.
#[derive(Debug, Clone, Copy, PartialEq, Eq, Structural)]
pub enum RunPhase {
    Downloading,
    Deploying,
    Finished,
}

/// One task settling: a physical download or one hash's deployment,
/// successful or not.
#[derive(Debug, Clone, Copy, PartialEq, Eq, Structural)]
pub enum RunEvent {
    DownloadSettled { ok: bool },
    DeploySettled { ok: bool },
}

/// What the caller must do next.
#[derive(Debug, Clone, Copy, PartialEq, Eq, Structural)]
pub enum RunAction {
    /// Keep waiting for more tasks to settle.
    Wait,
    /// All downloads succeeded: begin deploying.
    StartDeploy,
    /// Everything succeeded: write the new local state file.
    Persist,
    /// Some task failed: stop without touching the local state file.
    Abort,
}

/// The run's state: the phase, how many tasks of each kind are still
/// unsettled, and whether any settled task failed.
#[derive(Debug, Clone, Copy, PartialEq, Eq, Structural)]
pub struct RunState {
    pub phase: RunPhase,
    pub downloads_left: usize,
    pub deploys_left: usize,
    pub failed: bool,
}

/// The action decided from a state whose current phase has no unsettled
/// task left: move on, persist, or abort.
pub open spec fn spec_settle_action(s: RunState) -> RunAction {
    if s.failed {
        RunAction::Abort
    } else if s.phase is Downloading && s.deploys_left > 0 {
        RunAction::StartDeploy
    } else {
        RunAction::Persist
    }
}

/// The transition for one settling event. An event that does not match
/// the phase, or arrives with no task left, changes nothing.
pub open spec fn spec_step(s: RunState, e: RunEvent) -> (RunState, RunAction) {
    match e {
        RunEvent::DownloadSettled { ok } => {
            if !(s.phase is Downloading) || s.downloads_left == 0 {
                (s, RunAction::Wait)
            } else {
                let s1 = RunState {
                    downloads_left: (s.downloads_left - 1) as usize,
                    failed: s.failed || !ok,
                    ..s
                };
                if s1.downloads_left > 0 {
                    (s1, RunAction::Wait)
                } else {
                    let a = spec_settle_action(s1);
                    let phase = if a is StartDeploy {
                        RunPhase::Deploying
                    } else {
                        RunPhase::Finished
                    };
                    (RunState { phase, ..s1 }, a)
                }
            }
        },
        RunEvent::DeploySettled { ok } => {
            if !(s.phase is Deploying) || s.deploys_left == 0 {
                (s, RunAction::Wait)
            } else {
                let s1 = RunState {
                    deploys_left: (s.deploys_left - 1) as usize,
                    failed: s.failed || !ok,
                    ..s
                };
                if s1.deploys_left > 0 {
                    (s1, RunAction::Wait)
                } else {
                    let a = if s1.failed {
                        RunAction::Abort
                    } else {
                        RunAction::Persist
                    };
                    (RunState { phase: RunPhase::Finished, ..s1 }, a)
                }
            }
        },
    }
}

impl RunState {
    /// A fresh run with the given task counts, ready to download.
    pub fn new_run(n_downloads: usize, n_deploys: usize) -> (r: RunState)
        ensures
            r == (RunState {
                phase: RunPhase::Downloading,
                downloads_left: n_downloads,
                deploys_left: n_deploys,
                failed: false,
            }),
    {
        RunState {
            phase: RunPhase::Downloading,
            downloads_left: n_downloads,
            deploys_left: n_deploys,
            failed: false,
        }
    }

    /// The action for a run that has nothing to settle in its current
    /// phase: an empty download round moves straight on, an empty
    /// deployment round straight to persisting.
    pub fn initial_action(&mut self) -> (r: RunAction)
        requires
            old(self).phase is Downloading,
            old(self).downloads_left == 0,
            !old(self).failed,
        ensures
            r == spec_settle_action(*old(self)),
            final(self).failed == old(self).failed,
            final(self).downloads_left == old(self).downloads_left,
            final(self).deploys_left == old(self).deploys_left,
            r is StartDeploy ==> final(self).phase is Deploying,
            r is Persist ==> final(self).phase is Finished,
    {
        if self.deploys_left > 0 {
            self.phase = RunPhase::Deploying;
            RunAction::StartDeploy
        } else {
            self.phase = RunPhase::Finished;
            RunAction::Persist
        }
    }

    /// Records one task settling and returns what to do next.
    pub fn on_event(&mut self, event: RunEvent) -> (r: RunAction)
        ensures
            (*final(self), r) == spec_step(*old(self), event),
    {
        match event {
            RunEvent::DownloadSettled { ok } => {
                if !(matches!(self.phase, RunPhase::Downloading)) || self.downloads_left == 0 {
                    RunAction::Wait
                } else {
                    self.downloads_left = self.downloads_left - 1;
                    self.failed = self.failed || !ok;
                    if self.downloads_left > 0 {
                        RunAction::Wait
                    } else if self.failed {
                        self.phase = RunPhase::Finished;
                        RunAction::Abort
                    } else if self.deploys_left > 0 {
                        self.phase = RunPhase::Deploying;
                        RunAction::StartDeploy
                    } else {
                        self.phase = RunPhase::Finished;
                        RunAction::Persist
                    }
                }
            },
            RunEvent::DeploySettled { ok } => {
                if !(matches!(self.phase, RunPhase::Deploying)) || self.deploys_left == 0 {
                    RunAction::Wait
                } else {
                    self.deploys_left = self.deploys_left - 1;
                    self.failed = self.failed || !ok;
                    if self.deploys_left > 0 {
                        RunAction::Wait
                    } else if self.failed {
                        self.phase = RunPhase::Finished;
                        RunAction::Abort
                    } else {
                        self.phase = RunPhase::Finished;
                        RunAction::Persist
                    }
                }
            },
        }
    }
}

/// Whether an event reports a failed task.
pub open spec fn event_failed(e: RunEvent) -> bool {
    match e {
        RunEvent::DownloadSettled { ok } => !ok,
        RunEvent::DeploySettled { ok } => !ok,
    }
}

/// Whether folding the events over the machine ever returns `Persist`.
pub open spec fn emits_persist(s: RunState, events: Seq<RunEvent>) -> bool
    decreases events.len(),
{
    if events.len() == 0 {
        false
    } else {
        let (s1, a) = spec_step(s, events.first());
        a is Persist || emits_persist(s1, events.drop_first())
    }
}

/// An event sequence the run can actually produce: each event matches
/// the phase and count of the state it arrives in.
pub open spec fn valid_events(s: RunState, events: Seq<RunEvent>) -> bool
    decreases events.len(),
{
    if events.len() == 0 {
        true
    } else {
        let fits = match events.first() {
            RunEvent::DownloadSettled { .. } => s.phase is Downloading && s.downloads_left > 0,
            RunEvent::DeploySettled { .. } => s.phase is Deploying && s.deploys_left > 0,
        };
        fits && valid_events(spec_step(s, events.first()).0, events.drop_first())
    }
}

/// Once a failure is recorded, the machine never again asks to persist:
/// the failure flag is never cleared, and a failed settle-out aborts.
pub proof fn lemma_failed_never_persists(s: RunState, events: Seq<RunEvent>)
    requires
        s.failed,
    ensures
        !emits_persist(s, events),
    decreases events.len(),
{
    if events.len() > 0 {
        let (s1, a) = spec_step(s, events.first());
        assert(s1.failed);
        assert(!(a is Persist));
        lemma_failed_never_persists(s1, events.drop_first());
    }
}

/// Atomicity of state: on any run whose events include one failed task,
/// the machine never asks for the local state file to be written, so the
/// previous state file stays untouched.
pub proof fn lemma_no_persist_on_failure(s: RunState, events: Seq<RunEvent>, i: int)
    requires
        valid_events(s, events),
        0 <= i < events.len(),
        event_failed(events[i]),
    ensures
        !emits_persist(s, events),
    decreases events.len(),
{
    let (s1, a) = spec_step(s, events.first());
    if i == 0 {
        assert(s1.failed);
        assert(!(a is Persist));
        lemma_failed_never_persists(s1, events.drop_first());
    } else {
        // A later event is still to come, so this one cannot have been the
        // final settling that permits persisting: after `Persist` the
        // machine is finished and accepts no further event.
        assert(events.drop_first()[i - 1] == events[i]);
        lemma_no_persist_on_failure(s1, events.drop_first(), i - 1);
        if a is Persist {
            assert(s1.phase is Finished);
            assert(events.drop_first().len() > 0);
            assert(!valid_events(s1, events.drop_first()));
        }
    }
}

} // verus!
