//! The health-check scheduler as a state machine.
//!
//! The driver waits for ticks, lists endpoints, probes them and writes samples;
//! after each of these it hands the outcome to [`Scheduler::step`], which says
//! what to do next. A failure of one endpoint never ends a sweep, and a tick
//! that comes while a sweep is running is not acted on.
use vstd::prelude::*;
use crate::error::ApiError;
use crate::incident::UNREACHABLE_STATUS;
use crate::website::Website;

verus! {

/// Where the scheduler stands in its cycle.
#[derive(Clone, Copy, Debug, PartialEq, Eq)]
pub enum Phase {
    /// Between sweeps, waiting for a tick.
    Idle,
    /// Waiting for the list of endpoints.
    Listing,
    /// Waiting for the probe of the current endpoint.
    Probing,
    /// Waiting for the sample of the current endpoint to be written.
    Recording,
}

/// An outcome that the driver hands back.
pub enum Event {
    /// The tick timer fired.
    Tick,
    /// The endpoint source answered.
    Listed(Result<Vec<Website>, String>),
    /// The probe of the current endpoint finished: the HTTP status, or why no
    /// response came.
    Probed(Result<u16, String>),
    /// The write of the current sample finished.
    Written(Result<(), String>),
}

/// What the driver is asked to do next.
#[derive(Clone, Debug, PartialEq, Eq)]
pub enum Action {
    /// Nothing: the event did not fit the phase.
    Nothing,
    /// Wait for the next tick.
    WaitForTick,
    /// Fetch the current list of endpoints.
    ListWebsites,
    /// Send one GET to this URL.
    Probe { url: String },
    /// Record a sample with this status for this alias, observed now.
    Record { alias: String, status: u16 },
}

/// An action, and a failure to report if one happened.
pub struct Step {
    pub action: Action,
    pub report: Option<ApiError>,
}

/// The scheduler's state: its phase, the snapshot of endpoints of the current
/// sweep, and the index of the endpoint being handled.
pub struct Scheduler {
    pub phase: Phase,
    pub websites: Vec<Website>,
    pub next: usize,
}

/// The status recorded for a probe outcome: the HTTP status when a response
/// came, the unreachable status otherwise.
pub open spec fn status_of(outcome: Result<u16, String>) -> u16 {
    match outcome {
        Ok(code) => code,
        Err(_) => UNREACHABLE_STATUS,
    }
}

impl Scheduler {
    /// While an endpoint is being handled, it is one of the snapshot.
    pub open spec fn wf(&self) -> bool {
        (self.phase == Phase::Probing || self.phase == Phase::Recording) ==> self.next
            < self.websites@.len()
    }

    /// A scheduler waiting for its first tick.
    pub fn new() -> (r: Scheduler)
        ensures
            r.wf(),
            r.phase == Phase::Idle,
            r.websites@.len() == 0,
    {
        Scheduler { phase: Phase::Idle, websites: Vec::new(), next: 0 }
    }

    /// Takes the outcome of the last action and decides the next one.
    pub fn step(&mut self, event: Event) -> (r: Step)
        requires
            old(self).wf(),
        ensures
            final(self).wf(),
            match (old(self).phase, event) {
                (Phase::Idle, Event::Tick) => {
                    &&& final(self).phase == Phase::Listing
                    &&& r.action == Action::ListWebsites
                    &&& r.report is None
                },
                (Phase::Listing, Event::Listed(Err(e))) => {
                    &&& final(self).phase == Phase::Idle
                    &&& r.action == Action::WaitForTick
                    &&& r.report == Some(ApiError::EndpointSourceFailure(e))
                },
                (Phase::Listing, Event::Listed(Ok(ws))) => {
                    &&& final(self).websites@ == ws@
                    &&& final(self).next == 0
                    &&& r.report is None
                    &&& if ws@.len() == 0 {
                        final(self).phase == Phase::Idle && r.action == Action::WaitForTick
                    } else {
                        final(self).phase == Phase::Probing && r.action == (Action::Probe {
                            url: ws@[0].url,
                        })
                    }
                },
                (Phase::Probing, Event::Probed(outcome)) => {
                    &&& final(self).phase == Phase::Recording
                    &&& final(self).websites@ == old(self).websites@
                    &&& final(self).next == old(self).next
                    &&& r.action == (Action::Record {
                        alias: old(self).websites@[old(self).next as int].alias,
                        status: status_of(outcome),
                    })
                    &&& r.report == match outcome {
                        Ok(_) => None,
                        Err(e) => Some(ApiError::ProbeFailure(e)),
                    }
                },
                (Phase::Recording, Event::Written(w)) => {
                    &&& final(self).websites@ == old(self).websites@
                    &&& final(self).next == old(self).next + 1
                    &&& r.report == match w {
                        Ok(_) => None,
                        Err(e) => Some(ApiError::StoreWriteFailure(e)),
                    }
                    &&& if old(self).next + 1 < old(self).websites@.len() {
                        final(self).phase == Phase::Probing && r.action == (Action::Probe {
                            url: old(self).websites@[old(self).next + 1].url,
                        })
                    } else {
                        final(self).phase == Phase::Idle && r.action == Action::WaitForTick
                    }
                },
                _ => {
                    &&& final(self).phase == old(self).phase
                    &&& final(self).websites@ == old(self).websites@
                    &&& final(self).next == old(self).next
                    &&& r.action == Action::Nothing
                    &&& r.report is None
                },
            },
    {
        match (self.phase, event) {
            (Phase::Idle, Event::Tick) => {
                self.phase = Phase::Listing;
                Step { action: Action::ListWebsites, report: None }
            },
            (Phase::Listing, Event::Listed(Err(e))) => {
                self.phase = Phase::Idle;
                Step { action: Action::WaitForTick, report: Some(ApiError::EndpointSourceFailure(e)) }
            },
            (Phase::Listing, Event::Listed(Ok(ws))) => {
                self.websites = ws;
                self.next = 0;
                if self.websites.len() == 0 {
                    self.phase = Phase::Idle;
                    Step { action: Action::WaitForTick, report: None }
                } else {
                    self.phase = Phase::Probing;
                    let url = self.websites[0].url.clone();
                    Step { action: Action::Probe { url }, report: None }
                }
            },
            (Phase::Probing, Event::Probed(outcome)) => {
                self.phase = Phase::Recording;
                let alias = self.websites[self.next].alias.clone();
                match outcome {
                    Ok(code) => Step { action: Action::Record { alias, status: code }, report: None },
                    Err(e) => Step {
                        action: Action::Record { alias, status: UNREACHABLE_STATUS },
                        report: Some(ApiError::ProbeFailure(e)),
                    },
                }
            },
            (Phase::Recording, Event::Written(w)) => {
                let report = match w {
                    Ok(_) => None,
                    Err(e) => Some(ApiError::StoreWriteFailure(e)),
                };
                let count = self.websites.len();
                self.next = self.next + 1;
                if self.next < count {
                    self.phase = Phase::Probing;
                    let url = self.websites[self.next].url.clone();
                    Step { action: Action::Probe { url }, report }
                } else {
                    self.phase = Phase::Idle;
                    Step { action: Action::WaitForTick, report }
                }
            },
            _ => Step { action: Action::Nothing, report: None },
        }
    }
}

} // verus!
