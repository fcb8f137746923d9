//! The order in which the proxy starts.
use crate::octets;
use crate::octets::copy;
use crate::server::listener;
use crate::server::listener::BindFailure;
use vstd::prelude::*;

verus! {

/// A step of the startup.
#[derive(Debug, Clone, Copy, PartialEq, Eq, Structural)]
pub enum Stage {
    /// Load the public policy strictly.
    PublicPolicy,
    /// Load the local policy strictly.
    LocalPolicy,
    /// Open the denial log.
    DenialLog,
    /// Bind the listener.
    Bind,
    /// Load the credential of the broker.
    BrokerToken,
    /// Complete the startup exchange with the broker.
    BrokerReady,
}

/// Why the startup failed.
#[derive(Debug, Clone, Copy, PartialEq, Eq, Structural)]
pub enum StartupError {
    PublicPolicy,
    LocalPolicy,
    DenialLog,
    Bind(BindFailure),
    BrokerToken,
    BrokerReady,
}

/// The text of a startup error.
pub open spec fn startup_text(error: StartupError) -> Seq<u8> {
    match error {
        StartupError::PublicPolicy => octets::octets("startup_public_policy_invalid"@),
        StartupError::LocalPolicy => octets::octets("startup_local_policy_invalid"@),
        StartupError::DenialLog => octets::octets("startup_denial_log_unavailable"@),
        StartupError::Bind(failure) => octets::octets("startup_listener_bind_failed:"@)
            + octets::octets(listener::bind_category(failure)),
        StartupError::BrokerToken => octets::octets("startup_broker_token_invalid"@),
        StartupError::BrokerReady => octets::octets("startup_broker_readiness_failed"@),
    }
}

impl StartupError {
    pub fn message(self) -> (r: Vec<u8>)
        ensures
            r@ == startup_text(self),
    {
        match self {
            StartupError::PublicPolicy => copy("startup_public_policy_invalid".as_bytes()),
            StartupError::LocalPolicy => copy("startup_local_policy_invalid".as_bytes()),
            StartupError::DenialLog => copy("startup_denial_log_unavailable".as_bytes()),
            StartupError::Bind(failure) => failure.message(),
            StartupError::BrokerToken => copy("startup_broker_token_invalid".as_bytes()),
            StartupError::BrokerReady => copy("startup_broker_readiness_failed".as_bytes()),
        }
    }
}

/// The steps of a startup in their order. Those for the broker and the local policy are taken only
/// where local routing is configured.
pub open spec fn stages(local: bool) -> Seq<Stage> {
    if local {
        seq![
            Stage::PublicPolicy,
            Stage::LocalPolicy,
            Stage::DenialLog,
            Stage::Bind,
            Stage::BrokerToken,
            Stage::BrokerReady,
        ]
    } else {
        seq![Stage::PublicPolicy, Stage::DenialLog, Stage::Bind]
    }
}

/// How a startup stands.
#[derive(Debug, Clone, Copy, PartialEq, Eq, Structural)]
pub enum Progress {
    /// The step has to be taken.
    Take(Stage),
    /// Every step succeeded: the proxy may serve.
    Serve,
    /// Shutdown was requested: the proxy ends well without having served.
    Stopped,
    Failed(StartupError),
}

/// What became of a step.
#[derive(Debug, Clone, Copy, PartialEq, Eq, Structural)]
pub enum StageEvent {
    Shutdown,
    Succeeded,
    Failed,
    /// The listener could not be bound.
    BindFailed(BindFailure),
}

/// The error of a step that failed.
pub open spec fn stage_error(stage: Stage, event: StageEvent) -> StartupError {
    match stage {
        Stage::PublicPolicy => StartupError::PublicPolicy,
        Stage::LocalPolicy => StartupError::LocalPolicy,
        Stage::DenialLog => StartupError::DenialLog,
        Stage::Bind => StartupError::Bind(
            match event {
                StageEvent::BindFailed(failure) => failure,
                _ => BindFailure::Other,
            },
        ),
        Stage::BrokerToken => StartupError::BrokerToken,
        Stage::BrokerReady => StartupError::BrokerReady,
    }
}

/// The step after a step, or service.
pub open spec fn after(stage: Stage, local: bool) -> Progress {
    match stage {
        Stage::PublicPolicy => Progress::Take(
            if local {
                Stage::LocalPolicy
            } else {
                Stage::DenialLog
            },
        ),
        Stage::LocalPolicy => Progress::Take(Stage::DenialLog),
        Stage::DenialLog => Progress::Take(Stage::Bind),
        Stage::Bind => if local {
            Progress::Take(Stage::BrokerToken)
        } else {
            Progress::Serve
        },
        Stage::BrokerToken => Progress::Take(Stage::BrokerReady),
        Stage::BrokerReady => Progress::Serve,
    }
}

/// How a startup stands after an event. What is over stays over.
pub open spec fn progressed(progress: Progress, local: bool, event: StageEvent) -> Progress {
    match progress {
        Progress::Take(stage) => match event {
            StageEvent::Shutdown => Progress::Stopped,
            StageEvent::Succeeded => after(stage, local),
            _ => Progress::Failed(stage_error(stage, event)),
        },
        _ => progress,
    }
}

/// The startup of the proxy.
#[derive(Debug, Clone, Copy, PartialEq, Eq, Structural)]
pub struct Bootstrap {
    pub local: bool,
    pub progress: Progress,
}

/// Begins a startup. A shutdown that was requested before stops it at once.
pub fn bootstrap(local: bool, shutdown_requested: bool) -> (r: Bootstrap)
    ensures
        r.local == local,
        r.progress == (if shutdown_requested {
            Progress::Stopped
        } else {
            Progress::Take(Stage::PublicPolicy)
        }),
{
    if shutdown_requested {
        Bootstrap { local, progress: Progress::Stopped }
    } else {
        Bootstrap { local, progress: Progress::Take(Stage::PublicPolicy) }
    }
}

fn error_of(stage: Stage, event: StageEvent) -> (r: StartupError)
    ensures
        r == stage_error(stage, event),
{
    match stage {
        Stage::PublicPolicy => StartupError::PublicPolicy,
        Stage::LocalPolicy => StartupError::LocalPolicy,
        Stage::DenialLog => StartupError::DenialLog,
        Stage::Bind => match event {
            StageEvent::BindFailed(failure) => StartupError::Bind(failure),
            _ => StartupError::Bind(BindFailure::Other),
        },
        Stage::BrokerToken => StartupError::BrokerToken,
        Stage::BrokerReady => StartupError::BrokerReady,
    }
}

impl Bootstrap {
    /// Takes note of what became of the step.
    pub fn happened(&mut self, event: StageEvent)
        ensures
            final(self).local == old(self).local,
            final(self).progress == progressed(old(self).progress, old(self).local, event),
    {
        if let Progress::Take(stage) = self.progress {
            self.progress = match event {
                StageEvent::Shutdown => Progress::Stopped,
                StageEvent::Succeeded => match stage {
                    Stage::PublicPolicy => if self.local {
                        Progress::Take(Stage::LocalPolicy)
                    } else {
                        Progress::Take(Stage::DenialLog)
                    },
                    Stage::LocalPolicy => Progress::Take(Stage::DenialLog),
                    Stage::DenialLog => Progress::Take(Stage::Bind),
                    Stage::Bind => if self.local {
                        Progress::Take(Stage::BrokerToken)
                    } else {
                        Progress::Serve
                    },
                    Stage::BrokerToken => Progress::Take(Stage::BrokerReady),
                    Stage::BrokerReady => Progress::Serve,
                },
                _ => Progress::Failed(error_of(stage, event)),
            };
        }
    }
}

/// How a startup stands after a list of events.
pub open spec fn run(local: bool, events: Seq<StageEvent>) -> Progress
    decreases events.len(),
{
    if events.len() == 0 {
        Progress::Take(Stage::PublicPolicy)
    } else {
        progressed(run(local, events.drop_last()), local, events.last())
    }
}

/// How far successes alone lead.
pub open spec fn reached(local: bool, steps: nat) -> Progress {
    if steps < stages(local).len() {
        Progress::Take(stages(local)[steps as int])
    } else {
        Progress::Serve
    }
}

/// The number of events up to the first that is no success.
pub open spec fn successes(events: Seq<StageEvent>) -> nat
    decreases events.len(),
{
    if events.len() == 0 {
        0
    } else {
        let before = successes(events.drop_last());
        if before == events.len() - 1 && events.last() == StageEvent::Succeeded {
            events.len()
        } else {
            before
        }
    }
}

/// The proxy serves only after every step of the startup succeeded, in order; and while all steps
/// succeed, the next one is taken.
pub proof fn service_needs_every_stage(local: bool, events: Seq<StageEvent>)
    ensures
        successes(events) <= events.len(),
        successes(events) == events.len() ==> run(local, events) == reached(local, events.len()),
        run(local, events) == Progress::Serve ==> successes(events) >= stages(local).len(),
        successes(events) < events.len() ==> !(run(local, events) is Take),
    decreases events.len(),
{
    if events.len() > 0 {
        service_needs_every_stage(local, events.drop_last());
    }
}

} // verus!
