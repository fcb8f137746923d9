use vhrn::server::listener::{
    report_task_result, tunnel_phase, BindFailure, ConnectionEnd, Drain, DrainAction, DrainSummary,
    ServeAction, ServeEvent, Serving, TaskResult, TunnelOutcome, TunnelPhase,
    CONNECTION_DRAIN_TIMEOUT, MAX_CONNECTIONS,
};
use vhrn::startup::{bootstrap, Progress, Stage, StageEvent, StartupError};

fn drained() -> DrainSummary {
    let mut drain = Drain::new(4);
    assert_eq!(drain.action(), DrainAction::JoinUntilDeadline);
    assert!(!drain.joined(TaskResult::Completed));
    assert!(drain.joined(TaskResult::Failed));
    assert!(drain.joined(TaskResult::Panicked));
    assert_eq!(drain.action(), DrainAction::JoinUntilDeadline);
    drain.deadline();
    assert_eq!(drain.action(), DrainAction::Join);
    assert!(!drain.joined(TaskResult::Cancelled));
    assert_eq!(drain.action(), DrainAction::Done);
    drain.summary()
}

#[test]
fn drain_observes_every_tunnel_result_and_aborts_pending_tasks() {
    let summary = drained();
    assert_eq!(summary.completed, 1);
    assert_eq!(summary.failed, 1);
    assert_eq!(summary.join_failed, 1);
    assert_eq!(summary.aborted, 1);
}

#[test]
fn connection_drain_observes_every_result_and_aborts_pending_tasks() {
    let summary = drained();
    assert_eq!(summary.completed, 1);
    assert_eq!(summary.failed, 1);
    assert_eq!(summary.join_failed, 1);
    assert_eq!(summary.aborted, 1);
    assert_eq!(
        summary.completed + summary.failed + summary.join_failed + summary.aborted,
        4,
        "every task is counted once"
    );
    let mut counted = DrainSummary::default();
    counted.record(TunnelOutcome::Aborted);
    assert_eq!(counted.aborted, 1);
}

#[test]
fn admission_limit_rejects_the_sixty_fifth_connection() {
    let mut serving = Serving::new();
    for _ in 0..MAX_CONNECTIONS {
        assert_eq!(serving.happened(ServeEvent::Accepted), ServeAction::Serve);
    }
    assert_eq!(serving.happened(ServeEvent::Accepted), ServeAction::Close);
    assert_eq!(serving.happened(ServeEvent::Ended), ServeAction::Continue);
    assert_eq!(serving.happened(ServeEvent::Accepted), ServeAction::Serve);
    assert_eq!(serving.happened(ServeEvent::AcceptFailed), ServeAction::Fail);
    assert_eq!(serving.happened(ServeEvent::Shutdown), ServeAction::Stop);
}

#[test]
fn tasks_that_were_not_aborted_must_not_be_cancelled() {
    assert_eq!(
        report_task_result(TaskResult::Cancelled, false),
        (TunnelOutcome::JoinFailed, true)
    );
    assert_eq!(report_task_result(TaskResult::Cancelled, true), (TunnelOutcome::Aborted, false));
    assert_eq!(tunnel_phase(ConnectionEnd::Completed), TunnelPhase::Observe);
    assert_eq!(tunnel_phase(ConnectionEnd::Failed), TunnelPhase::Drain);
    assert_eq!(tunnel_phase(ConnectionEnd::Shutdown), TunnelPhase::Drain);
    assert_eq!(CONNECTION_DRAIN_TIMEOUT, 800);
}

#[test]
fn bind_failures_have_categories() {
    for (failure, expected) in [
        (BindFailure::AddressInUse, "startup_listener_bind_failed:address_in_use"),
        (BindFailure::AddressUnavailable, "startup_listener_bind_failed:address_unavailable"),
        (BindFailure::PermissionDenied, "startup_listener_bind_failed:permission_denied"),
        (BindFailure::Other, "startup_listener_bind_failed:io_error"),
    ] {
        assert_eq!(failure.message(), expected.as_bytes());
        assert_eq!(StartupError::Bind(failure).message(), expected.as_bytes());
    }
}

#[test]
fn startup_takes_every_stage_in_turn() {
    let mut local = bootstrap(true, false);
    for stage in [
        Stage::PublicPolicy,
        Stage::LocalPolicy,
        Stage::DenialLog,
        Stage::Bind,
        Stage::BrokerToken,
        Stage::BrokerReady,
    ] {
        assert_eq!(local.progress, Progress::Take(stage));
        local.happened(StageEvent::Succeeded);
    }
    assert_eq!(local.progress, Progress::Serve);

    let mut public = bootstrap(false, false);
    for stage in [Stage::PublicPolicy, Stage::DenialLog, Stage::Bind] {
        assert_eq!(public.progress, Progress::Take(stage));
        public.happened(StageEvent::Succeeded);
    }
    assert_eq!(public.progress, Progress::Serve);
}

#[test]
fn startup_failures_have_one_text_each() {
    let stages = [
        (0, "startup_public_policy_invalid"),
        (1, "startup_local_policy_invalid"),
        (2, "startup_denial_log_unavailable"),
        (4, "startup_broker_token_invalid"),
        (5, "startup_broker_readiness_failed"),
    ];
    for (successes, expected) in stages {
        let mut run = bootstrap(true, false);
        for _ in 0..successes {
            run.happened(StageEvent::Succeeded);
        }
        run.happened(StageEvent::Failed);
        match run.progress {
            Progress::Failed(error) => assert_eq!(error.message(), expected.as_bytes()),
            other => panic!("a failure, not {other:?}"),
        }
        run.happened(StageEvent::Succeeded);
        assert!(matches!(run.progress, Progress::Failed(_)));
    }
    assert_eq!(bootstrap(true, true).progress, Progress::Stopped);
    let mut run = bootstrap(false, false);
    run.happened(StageEvent::Shutdown);
    assert_eq!(run.progress, Progress::Stopped);
}
