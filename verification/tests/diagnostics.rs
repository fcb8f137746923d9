use vhrn::diagnostics::{
    civil_time, health, render_denial, render_denial_diagnostic, rfc3339, AuditResult, AuditState,
    DenialDestination, Health,
};
use vhrn::domain::policy::reader::{load_local_strict, load_public_strict, StrictFile};
use vhrn::domain::policy::Mode;
use vhrn::domain::target::{classify, LoopbackAuthority, Target};

fn public_destination() -> DenialDestination {
    let Target::PublicHttp(target) = classify(b"GET", b"http://denied.example/") else {
        panic!("public target");
    };
    DenialDestination::public(&target)
}

fn strict(path: &str, contents: &str) -> StrictFile {
    StrictFile { path: path.to_owned(), contents: Ok(contents.to_owned()) }
}

fn text(bytes: Vec<u8>) -> String {
    String::from_utf8(bytes).unwrap()
}

#[test]
fn denial_output_appends_exact_bytes_and_disabled_is_typed() {
    let destination = public_destination();
    let mut log = b"preexisting\n".to_vec();
    let mut state = AuditState::new();
    log.extend(render_denial("2026-01-02T03:04:05Z", &destination));
    assert_eq!(state.record(Some(true)), AuditResult::Recorded);
    log.extend(render_denial("2026-01-02T03:04:06Z", &destination));
    assert_eq!(state.record(Some(true)), AuditResult::Recorded);
    assert_eq!(
        log,
        b"preexisting\n2026-01-02T03:04:05Z\tdenied.example\n2026-01-02T03:04:06Z\tdenied.example\n"
    );
    assert_eq!(state.record(None), AuditResult::Disabled);
}

#[test]
fn append_failure_is_sticky_until_a_required_append_succeeds() {
    let mut state = AuditState::new();
    assert_eq!(state.record(Some(false)), AuditResult::AppendFailed);
    assert!(state.append_failed);
    assert_eq!(state.record(Some(false)), AuditResult::AppendFailed);
    assert!(state.append_failed);
    assert_eq!(
        health(false, true, None, true, state.append_failed),
        Health::Unhealthy,
        "an open probe cannot clear stickiness"
    );
    assert_eq!(state.record(None), AuditResult::Disabled);
    assert!(state.append_failed);
    assert_eq!(state.record(Some(true)), AuditResult::Recorded);
    assert!(!state.append_failed);
}

#[test]
fn health_probes_live_policy_log_stickiness_and_shutdown() {
    let layers = [strict("/public", "allowed.example\n")];
    let valid = |mode: &str| load_public_strict(&layers, &strict("/mode", mode)).is_ok();
    let mut audit = AuditState::new();
    assert_eq!(health(false, valid("enforce\n"), None, true, audit.append_failed), Health::Healthy);
    assert_eq!(health(false, valid("invalid\n"), None, true, audit.append_failed), Health::Unhealthy);
    assert_eq!(health(false, valid("enforce\n"), None, true, audit.append_failed), Health::Healthy);
    assert_eq!(audit.record(Some(false)), AuditResult::AppendFailed);
    assert_eq!(health(false, valid("enforce\n"), None, true, audit.append_failed), Health::Unhealthy);
    assert_eq!(audit.record(Some(true)), AuditResult::Recorded);
    assert_eq!(health(false, valid("enforce\n"), None, true, audit.append_failed), Health::Healthy);
    assert_eq!(health(true, valid("enforce\n"), None, true, audit.append_failed), Health::Unhealthy);

    assert_eq!(health(false, true, None, true, false), Health::Healthy);
    assert_eq!(health(false, false, None, true, false), Health::Unhealthy);
    assert_eq!(health(false, true, None, true, true), Health::Unhealthy);
    assert_eq!(health(false, true, None, false, false), Health::Unhealthy);
    assert_eq!(health(true, true, None, true, false), Health::Unhealthy);
}

#[test]
fn local_policy_is_part_of_health() {
    let valid = |second: &str| {
        let layers =
            [strict("/local-one", ""), strict("/local-two", second), strict("/local-three", "")];
        Some(load_local_strict(&layers).is_ok())
    };
    assert_eq!(health(false, true, valid(""), true, false), Health::Healthy);
    assert_eq!(health(false, true, valid("bad authority\n"), true, false), Health::Unhealthy);
    assert_eq!(health(false, true, Some(true), true, false), Health::Healthy);
    assert_eq!(health(false, true, Some(false), true, false), Health::Unhealthy);
}

#[test]
fn diagnostics_are_bounded_and_redacted() {
    let destination = public_destination();
    let line = text(render_denial("2026-01-02T03:04:05Z", &destination));
    assert_eq!(line, "2026-01-02T03:04:05Z\tdenied.example\n");
    let value = line.trim_end().split('\t').nth(1).unwrap();
    assert!(!value.contains(char::is_whitespace));
    assert_eq!(
        text(render_denial_diagnostic(&destination, Mode::Report)),
        "vhrn-proxy: denial target=denied.example mode=report"
    );
    assert_eq!(
        text(render_denial_diagnostic(&destination, Mode::Enforce)),
        "vhrn-proxy: denial target=denied.example mode=enforce"
    );
}

#[test]
fn destinations_use_normalized_host_or_canonical_local_authority() {
    let Target::PublicHttp(public) = classify(b"GET", b"http://DENIED.EXAMPLE.:8080/") else {
        panic!("public target");
    };
    assert_eq!(text(render_denial("t", &DenialDestination::public(&public))), "t\tdenied.example\n");

    let Target::LocalHttp(local) = classify(b"GET", b"http://LOCALHOST:080/") else {
        panic!("local target");
    };
    assert_eq!(text(render_denial("t", &DenialDestination::local(&local))), "t\tlocalhost:80\n");
    let authority = LoopbackAuthority::parse("LOCALHOST:080").unwrap();
    assert_eq!(
        text(render_denial("t", &DenialDestination::authority(&authority))),
        "t\tlocalhost:80\n"
    );
}

#[test]
fn civil_time_boundaries_are_stable() {
    assert_eq!(civil_time(0), (1970, 1, 1, 0, 0, 0));
    assert_eq!(civil_time(951_782_400), (2000, 2, 29, 0, 0, 0));
}

#[test]
fn timestamps_are_twenty_octets_in_utc() {
    assert_eq!(text(rfc3339(0)), "1970-01-01T00:00:00Z");
    assert_eq!(text(rfc3339(951_827_696)), "2000-02-29T12:34:56Z");
    assert_eq!(text(rfc3339(4_107_542_399)), "2100-02-28T23:59:59Z");
    assert_eq!(text(rfc3339(4_107_542_400)), "2100-03-01T00:00:00Z");
}
