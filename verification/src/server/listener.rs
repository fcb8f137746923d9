//! Accepting connections and draining their tasks.
use crate::octets;
use crate::octets::{append_text, copy};
use vstd::prelude::*;

verus! {

/// How long open connections and tunnels may take to end on shutdown, in milliseconds.
pub const CONNECTION_DRAIN_TIMEOUT: u64 = 800;

/// The most connections that are served at a time.
pub const MAX_CONNECTIONS: usize = 64;

/// Why an address could not be bound.
#[derive(Debug, Clone, Copy, PartialEq, Eq, Structural)]
pub enum BindFailure {
    AddressInUse,
    AddressUnavailable,
    PermissionDenied,
    Other,
}

pub open spec fn bind_category(failure: BindFailure) -> Seq<char> {
    match failure {
        BindFailure::AddressInUse => "address_in_use"@,
        BindFailure::AddressUnavailable => "address_unavailable"@,
        BindFailure::PermissionDenied => "permission_denied"@,
        BindFailure::Other => "io_error"@,
    }
}

impl BindFailure {
    /// The startup error of a failed bind.
    pub fn message(self) -> (r: Vec<u8>)
        ensures
            r@ == octets::octets("startup_listener_bind_failed:"@) + octets::octets(
                bind_category(self),
            ),
    {
        let category: &str = match self {
            BindFailure::AddressInUse => "address_in_use",
            BindFailure::AddressUnavailable => "address_unavailable",
            BindFailure::PermissionDenied => "permission_denied",
            BindFailure::Other => "io_error",
        };
        let mut out: Vec<u8> = copy("startup_listener_bind_failed:".as_bytes());
        append_text(&mut out, category);
        out
    }
}

/// What happened to the listener.
#[derive(Debug, Clone, Copy, PartialEq, Eq, Structural)]
pub enum ServeEvent {
    Shutdown,
    /// A connection that was being served ended.
    Ended,
    Accepted,
    AcceptFailed,
}

/// What the listener does next.
#[derive(Debug, Clone, Copy, PartialEq, Eq, Structural)]
pub enum ServeAction {
    /// Wait for the next event.
    Continue,
    /// Serve the connection that was accepted.
    Serve,
    /// Close the connection that was accepted and wait for the next event.
    Close,
    /// Drain the connections and end well.
    Stop,
    /// Drain the connections and end with `listener_accept_failed`.
    Fail,
}

/// The connections that are being served.
#[derive(Debug, Clone, Copy, PartialEq, Eq, Structural)]
pub struct Serving {
    active: usize,
}

impl View for Serving {
    type V = nat;

    closed spec fn view(&self) -> nat {
        self.active as nat
    }
}

/// What an event makes the listener do while so many connections are served.
pub open spec fn serve_action(active: nat, event: ServeEvent) -> ServeAction {
    match event {
        ServeEvent::Shutdown => ServeAction::Stop,
        ServeEvent::Ended => ServeAction::Continue,
        ServeEvent::Accepted => if active < MAX_CONNECTIONS {
            ServeAction::Serve
        } else {
            ServeAction::Close
        },
        ServeEvent::AcceptFailed => ServeAction::Fail,
    }
}

/// How many connections are served after an event.
pub open spec fn served_after(active: nat, event: ServeEvent) -> nat {
    match event {
        ServeEvent::Ended => if active > 0 {
            (active - 1) as nat
        } else {
            0
        },
        ServeEvent::Accepted => if active < MAX_CONNECTIONS {
            active + 1
        } else {
            active
        },
        _ => active,
    }
}

impl Serving {
    #[verifier::type_invariant]
    spec fn well_formed(self) -> bool {
        self.active <= MAX_CONNECTIONS
    }

    pub fn new() -> (r: Serving)
        ensures
            r@ == 0,
    {
        Serving { active: 0 }
    }

    /// Decides what an event leads to. Never more than the limit are served.
    pub fn happened(&mut self, event: ServeEvent) -> (r: ServeAction)
        ensures
            r == serve_action(old(self)@, event),
            final(self)@ == served_after(old(self)@, event),
            final(self)@ <= MAX_CONNECTIONS,
    {
        proof {
            use_type_invariant(&*self);
        }
        match event {
            ServeEvent::Shutdown => ServeAction::Stop,
            ServeEvent::Ended => {
                if self.active > 0 {
                    self.active = self.active - 1;
                }
                ServeAction::Continue
            },
            ServeEvent::Accepted => {
                if self.active < MAX_CONNECTIONS {
                    self.active = self.active + 1;
                    ServeAction::Serve
                } else {
                    ServeAction::Close
                }
            },
            ServeEvent::AcceptFailed => ServeAction::Fail,
        }
    }
}

/// How the serving of one connection ended.
#[derive(Debug, Clone, Copy, PartialEq, Eq, Structural)]
pub enum ConnectionEnd {
    Completed,
    Failed,
    /// Shutdown was requested while the connection was served.
    Shutdown,
}

/// What is done with the tunnels of a connection that ended.
#[derive(Debug, Clone, Copy, PartialEq, Eq, Structural)]
pub enum TunnelPhase {
    /// They run on and are observed until shutdown.
    Observe,
    /// They are drained.
    Drain,
}

/// A connection that ends normally does not end its tunnels.
pub fn tunnel_phase(end: ConnectionEnd) -> (r: TunnelPhase)
    ensures
        r == (match end {
            ConnectionEnd::Completed => TunnelPhase::Observe,
            _ => TunnelPhase::Drain,
        }),
{
    match end {
        ConnectionEnd::Completed => TunnelPhase::Observe,
        ConnectionEnd::Failed | ConnectionEnd::Shutdown => TunnelPhase::Drain,
    }
}

/// How a task ended.
#[derive(Debug, Clone, Copy, PartialEq, Eq, Structural)]
pub enum TaskResult {
    Completed,
    Failed,
    Cancelled,
    Panicked,
}

/// How the end of a task is counted.
#[derive(Debug, Clone, Copy, PartialEq, Eq, Structural)]
pub enum TunnelOutcome {
    Completed,
    Failed,
    JoinFailed,
    Aborted,
}

/// The outcome of a task. Only a task that was aborted may be cancelled without that being a
/// failure.
pub open spec fn task_outcome(joined: TaskResult, aborted: bool) -> TunnelOutcome {
    match joined {
        TaskResult::Completed => TunnelOutcome::Completed,
        TaskResult::Failed => TunnelOutcome::Failed,
        TaskResult::Cancelled => if aborted {
            TunnelOutcome::Aborted
        } else {
            TunnelOutcome::JoinFailed
        },
        TaskResult::Panicked => TunnelOutcome::JoinFailed,
    }
}

/// The outcome of a task, and whether it is reported.
pub fn report_task_result(joined: TaskResult, aborted: bool) -> (r: (TunnelOutcome, bool))
    ensures
        r.0 == task_outcome(joined, aborted),
        r.1 == (r.0 == TunnelOutcome::Failed || r.0 == TunnelOutcome::JoinFailed),
{
    match joined {
        TaskResult::Completed => (TunnelOutcome::Completed, false),
        TaskResult::Failed => (TunnelOutcome::Failed, true),
        TaskResult::Cancelled => if aborted {
            (TunnelOutcome::Aborted, false)
        } else {
            (TunnelOutcome::JoinFailed, true)
        },
        TaskResult::Panicked => (TunnelOutcome::JoinFailed, true),
    }
}

/// How the tasks of a drain ended.
#[derive(Debug, Clone, Copy, PartialEq, Eq, Structural)]
pub struct DrainSummary {
    pub completed: usize,
    pub failed: usize,
    pub join_failed: usize,
    pub aborted: usize,
}

/// The number of tasks that a summary counts.
pub open spec fn counted(s: DrainSummary) -> int {
    s.completed + s.failed + s.join_failed + s.aborted
}

/// A summary with one more outcome.
pub open spec fn recorded(s: DrainSummary, outcome: TunnelOutcome) -> DrainSummary {
    match outcome {
        TunnelOutcome::Completed => DrainSummary { completed: (s.completed + 1) as usize, ..s },
        TunnelOutcome::Failed => DrainSummary { failed: (s.failed + 1) as usize, ..s },
        TunnelOutcome::JoinFailed => DrainSummary { join_failed: (s.join_failed + 1) as usize, ..s },
        TunnelOutcome::Aborted => DrainSummary { aborted: (s.aborted + 1) as usize, ..s },
    }
}

impl Default for DrainSummary {
    fn default() -> (r: DrainSummary)
        ensures
            r == (DrainSummary { completed: 0, failed: 0, join_failed: 0, aborted: 0 }),
    {
        DrainSummary { completed: 0, failed: 0, join_failed: 0, aborted: 0 }
    }
}

impl DrainSummary {
    /// Counts one more outcome.
    pub fn record(&mut self, outcome: TunnelOutcome)
        requires
            counted(*old(self)) < usize::MAX,
        ensures
            *final(self) == recorded(*old(self), outcome),
            counted(*final(self)) == counted(*old(self)) + 1,
    {
        match outcome {
            TunnelOutcome::Completed => {
                self.completed += 1;
            },
            TunnelOutcome::Failed => {
                self.failed += 1;
            },
            TunnelOutcome::JoinFailed => {
                self.join_failed += 1;
            },
            TunnelOutcome::Aborted => {
                self.aborted += 1;
            },
        }
    }
}

/// What a drain does next.
#[derive(Debug, Clone, Copy, PartialEq, Eq, Structural)]
pub enum DrainAction {
    /// Wait for a task to end, up to the deadline.
    JoinUntilDeadline,
    /// Wait for an aborted task to end.
    Join,
    Done,
}

/// Waits briefly for tasks, then aborts those that remain and observes every one of them.
#[derive(Debug, Clone, Copy, PartialEq, Eq, Structural)]
pub struct Drain {
    remaining: usize,
    aborting: bool,
    summary: DrainSummary,
}

pub struct DrainModel {
    pub remaining: nat,
    pub aborting: bool,
    pub summary: DrainSummary,
}

impl View for Drain {
    type V = DrainModel;

    closed spec fn view(&self) -> DrainModel {
        DrainModel {
            remaining: self.remaining as nat,
            aborting: self.aborting,
            summary: self.summary,
        }
    }
}

/// The number of tasks that a drain began with.
pub open spec fn drain_total(d: DrainModel) -> int {
    counted(d.summary) + d.remaining
}

impl Drain {
    #[verifier::type_invariant]
    spec fn well_formed(self) -> bool {
        counted(self.summary) + self.remaining <= usize::MAX
    }

    pub fn new(tasks: usize) -> (r: Drain)
        ensures
            r@.remaining == tasks,
            !r@.aborting,
            counted(r@.summary) == 0,
            drain_total(r@) == tasks,
    {
        Drain { remaining: tasks, aborting: false, summary: DrainSummary::default() }
    }

    pub fn action(&self) -> (r: DrainAction)
        ensures
            r == (if self@.remaining == 0 {
                DrainAction::Done
            } else if self@.aborting {
                DrainAction::Join
            } else {
                DrainAction::JoinUntilDeadline
            }),
    {
        if self.remaining == 0 {
            DrainAction::Done
        } else if self.aborting {
            DrainAction::Join
        } else {
            DrainAction::JoinUntilDeadline
        }
    }

    /// The deadline passed: every task that remains is to be aborted.
    pub fn deadline(&mut self)
        ensures
            final(self)@ == (DrainModel { aborting: true, ..old(self)@ }),
    {
        proof {
            use_type_invariant(&*self);
        }
        self.aborting = true;
    }

    /// A task ended. Whether that is reported is returned. Every task is counted exactly once.
    pub fn joined(&mut self, result: TaskResult) -> (r: bool)
        requires
            old(self)@.remaining > 0,
        ensures
            ({
                let outcome = task_outcome(result, old(self)@.aborting);
                &&& final(self)@.summary == recorded(old(self)@.summary, outcome)
                &&& r == (outcome == TunnelOutcome::Failed || outcome == TunnelOutcome::JoinFailed)
            }),
            final(self)@.remaining == old(self)@.remaining - 1,
            final(self)@.aborting == old(self)@.aborting,
            drain_total(final(self)@) == drain_total(old(self)@),
    {
        proof {
            use_type_invariant(&*self);
        }
        let (outcome, reported) = report_task_result(result, self.aborting);
        let mut summary: DrainSummary = self.summary;
        summary.record(outcome);
        *self =
        Drain { remaining: self.remaining - 1, aborting: self.aborting, summary };
        reported
    }

    pub fn summary(&self) -> (r: DrainSummary)
        ensures
            r == self@.summary,
    {
        self.summary
    }
}

/// No event takes the number of connections over the limit, and a connection that is accepted at
/// the limit is closed.
pub proof fn the_connection_limit_holds(active: nat, event: ServeEvent)
    requires
        active <= MAX_CONNECTIONS,
    ensures
        served_after(active, event) <= MAX_CONNECTIONS,
        serve_action(MAX_CONNECTIONS as nat, ServeEvent::Accepted) == ServeAction::Close,
{
}

} // verus!
