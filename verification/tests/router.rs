use hyper::HeaderMap;
use vhrn::connect::broker::BrokerError;
use vhrn::connect::forward::{forward_error, ForwardErrorKind};
use vhrn::connect::public::{
    OpenAction, OpenEvent, Opening, PublicConnectError, ResolvedAddress,
};
use vhrn::diagnostics::{render_denial, AuditResult, DenialDestination, Health};
use vhrn::domain::policy::{LayerFile, Mode};
use vhrn::domain::target::{classify, LocalTarget, PublicTarget, Target};
use vhrn::ip::IpAddress;
use vhrn::server::http1::{BodyFraming, IngressError};
use vhrn::server::response::{failure, ProxyFailure, ProxyResponse};
use vhrn::server::router::{
    asterisk, authorize, authorize_local, authorize_public, broker_failure, connect_http1, direct,
    direct_reading, dispatch_local, dispatch_public, forward_failure, handle_connect, handle_http1,
    ingress_failure, judge_local, judge_public, public_failure, read_status_mode, Admission, AuthorizedPublic, AuthorizedRoute,
    ConnectRoute, DirectReading, Handling, Http1Outcome, LocalForward, PublicForward, Reply,
};
use vhrn::server::streaming::{body_rest, BodyRest};

#[test]
fn only_an_oversized_head_is_told_apart_from_a_bad_request() {
    assert_eq!(ingress_failure(IngressError::HeadersTooLarge), ProxyFailure::HeadersTooLarge);
    for error in [
        IngressError::BadRequest,
        IngressError::UnsupportedVersion,
        IngressError::Incomplete,
    ] {
        assert_eq!(ingress_failure(error), ProxyFailure::BadRequest);
    }
}

#[test]
fn a_body_behind_an_expectation_is_not_waited_for() {
    for expect in [false, true] {
        assert_eq!(body_rest(true, BodyFraming::Chunked, expect), BodyRest::Done);
        assert_eq!(body_rest(false, BodyFraming::NoBody, expect), BodyRest::Done);
    }
    assert_eq!(body_rest(false, BodyFraming::Chunked, true), BodyRest::Leave);
    assert_eq!(body_rest(false, BodyFraming::ContentLength(4), true), BodyRest::Leave);
    assert_eq!(body_rest(false, BodyFraming::Chunked, false), BodyRest::Drain);
    assert_eq!(body_rest(false, BodyFraming::ContentLength(4), false), BodyRest::Drain);
}

fn file(path: &str, contents: &str) -> LayerFile {
    LayerFile { path: path.to_string(), contents: Some(contents.to_string()) }
}

fn public(method: &str, raw: &str) -> (PublicTarget, bool) {
    match authorize(classify(method.as_bytes(), raw.as_bytes())) {
        Admission::PublicPolicy { public, connect } => (public, connect),
        _ => panic!("a public target"),
    }
}

fn local(method: &str, raw: &str) -> (LocalTarget, bool) {
    match authorize(classify(method.as_bytes(), raw.as_bytes())) {
        Admission::LocalPolicy { local, connect } => (local, connect),
        _ => panic!("a local target"),
    }
}

/// Judges and authorizes a public target, with the outcome of the audit that is asked for.
fn admitted(
    method: &str,
    raw: &str,
    allowlist: &str,
    mode: &str,
    audit: AuditResult,
) -> (Result<AuthorizedRoute, ProxyFailure>, Option<Mode>) {
    let (target, connect) = public(method, raw);
    let (verdict, asked, _) =
        judge_public(&target, &[file("/allowlist", allowlist)], &file("/mode", mode));
    let outcome = if asked.is_some() { audit } else { AuditResult::Disabled };
    (authorize_public(target, connect, verdict, outcome), asked)
}

fn answered(handling: Handling) -> (ProxyResponse, Http1Outcome) {
    match handling {
        Handling::Answered(Http1Outcome { reply: Reply::Own(response), body_consumed, reusable }) => {
            let copy = ProxyResponse {
                status: response.status,
                headers: response.headers.clone(),
                body: response.body.clone(),
            };
            (copy, Http1Outcome { reply: Reply::Own(response), body_consumed, reusable })
        },
        _ => panic!("an answer of the proxy's own"),
    }
}

fn own(outcome: &Http1Outcome) -> &ProxyResponse {
    match &outcome.reply {
        Reply::Own(response) => response,
        Reply::Origin { .. } => panic!("an answer of the proxy's own"),
    }
}

fn authorized(raw: &str, mode: Mode, already_audited: bool) -> AuthorizedPublic {
    AuthorizedPublic { target: public("GET", raw).0, effective_mode: mode, already_audited }
}

#[test]
fn broker_failures_map_to_safe_response_classes() {
    for error in [BrokerError::Rejected, BrokerError::Unavailable] {
        assert_eq!(broker_failure(error), ProxyFailure::BadGateway);
    }
    assert_eq!(broker_failure(BrokerError::DeadlineExceeded), ProxyFailure::GatewayTimeout);
    assert_eq!(broker_failure(BrokerError::Cancelled), ProxyFailure::ServiceUnavailable);
    assert_eq!(broker_failure(BrokerError::Exhausted), ProxyFailure::ServiceUnavailable);
}

#[test]
fn denied_public_request_does_not_poll_its_body() {
    let (route, asked) = admitted(
        "GET",
        "http://denied.example/",
        "allowed.example\n",
        "enforce\n",
        AuditResult::Recorded,
    );
    assert_eq!(asked, Some(Mode::Enforce));
    let (response, outcome) = answered(handle_http1(b"GET", route));
    assert_eq!(response.status, 403);
    assert!(!outcome.body_consumed);
    assert!(outcome.reusable);
    assert_eq!(response.body, b"blocked by vhrn egress policy: denied.example\n");
}

#[test]
fn unsafe_dns_answer_audits_once_and_never_dials() {
    let target = authorized("http://ALLOWED.Example./", Mode::Enforce, false);
    let opening = Opening::begin(&target.target);
    assert!(matches!(opening.action(), OpenAction::Resolve { .. }));
    let opening = opening.happened(OpenEvent::Resolved(vec![
        ResolvedAddress::unscoped(IpAddress::V4([8, 8, 8, 8])),
        ResolvedAddress::unscoped(IpAddress::V4([127, 0, 0, 1])),
    ]));
    assert_eq!(opening.action(), OpenAction::Failed(PublicConnectError::PolicyDenied));
    let record = render_denial("time", &DenialDestination::public(&target.target));
    assert!(record.ends_with(b"\tallowed.example\n"));
    let (outcome, audit) = dispatch_public(
        &target,
        PublicForward::Connect(PublicConnectError::PolicyDenied),
        false,
    );
    assert_eq!(own(&outcome).status, 403);
    assert_eq!(own(&outcome).body, b"blocked by vhrn egress policy: allowed.example\n");
    assert_eq!(audit, Some(Mode::Enforce));
}

#[test]
fn unsafe_literal_audits_once_without_resolution_or_dial() {
    let (route, asked) =
        admitted("GET", "http://10.0.0.1/", "10.0.0.1\n", "open\n", AuditResult::Recorded);
    assert_eq!(asked, None);
    let Handling::ForwardPublic(target) = handle_http1(b"GET", route) else {
        panic!("a public route");
    };
    let (refusal, audit) = public_failure(PublicConnectError::PolicyDenied, &target);
    assert_eq!(
        Opening::begin(&target.target).action(),
        OpenAction::Failed(PublicConnectError::PolicyDenied)
    );
    assert_eq!(refusal, ProxyFailure::PublicDenied(b"10.0.0.1".to_vec()));
    assert_eq!(failure(&refusal, false).status, 403);
    assert_eq!(audit, Some(Mode::Open));
    let record = render_denial("time", &DenialDestination::public(&target.target));
    assert!(record.ends_with(b"\t10.0.0.1\n"));
}

#[test]
fn report_mode_address_denial_does_not_duplicate_its_prior_audit() {
    let (route, asked) = admitted(
        "GET",
        "http://allowed.example/",
        "other.example\n",
        "report\n",
        AuditResult::Recorded,
    );
    assert_eq!(asked, Some(Mode::Report));
    let Handling::ForwardPublic(target) = handle_http1(b"GET", route) else {
        panic!("a public route");
    };
    assert!(target.already_audited);
    let (refusal, audit) = public_failure(PublicConnectError::PolicyDenied, &target);
    assert_eq!(failure(&refusal, false).status, 403);
    assert_eq!(audit, None);
    let record = render_denial("time", &DenialDestination::public(&target.target));
    assert!(record.ends_with(b"\tallowed.example\n"));
}

#[test]
fn transport_failures_map_without_denial_records() {
    let target = authorized("http://allowed.example/", Mode::Enforce, false);
    let resolving = Opening::begin(&target.target).happened(OpenEvent::ResolutionFailed);
    assert_eq!(resolving.action(), OpenAction::Failed(PublicConnectError::Unavailable));
    let mut dialling = Opening::begin(&target.target).happened(OpenEvent::Resolved(vec![
        ResolvedAddress::unscoped(IpAddress::V4([8, 8, 8, 8])),
        ResolvedAddress::unscoped(IpAddress::V4([1, 1, 1, 1])),
    ]));
    let mut dials = 0;
    while let OpenAction::Dial { .. } = dialling.action() {
        dials += 1;
        dialling = dialling.happened(OpenEvent::DialFailed);
    }
    assert_eq!(dials, 2);
    assert_eq!(dialling.action(), OpenAction::Failed(PublicConnectError::Unavailable));
    for (error, status) in [
        (PublicConnectError::Unavailable, 502),
        (PublicConnectError::DeadlineExceeded, 504),
        (PublicConnectError::Cancelled, 503),
        (PublicConnectError::Exhausted, 503),
    ] {
        let (outcome, audit) = dispatch_public(&target, PublicForward::Connect(error), false);
        assert_eq!(own(&outcome).status, status);
        assert_eq!(audit, None);
    }
}

#[test]
fn malformed_and_https_targets_have_no_authorization_or_network_side_effects() {
    for (raw, expected) in [
        ("https://allowed.example/path", b"HTTPS requires CONNECT\n".as_slice()),
        ("ftp://allowed.example/path", b"bad request\n"),
    ] {
        let Admission::Refused(refusal) = authorize(classify(b"GET", raw.as_bytes())) else {
            panic!("refused: {raw}");
        };
        let (response, outcome) = answered(handle_http1(b"GET", Err(refusal)));
        assert_eq!(response.status, 400, "{raw}");
        assert_eq!(response.headers["connection"], "close");
        assert_eq!(response.body, expected, "{raw}");
        assert!(!outcome.body_consumed);
        assert!(!outcome.reusable);
    }
    for (name, value) in
        [("content-length", "0"), ("transfer-encoding", "chunked"), ("expect", "100-continue")]
    {
        let mut headers = HeaderMap::new();
        headers.insert(name, value.parse().unwrap());
        let refusal = handle_connect(&headers).err().unwrap();
        assert_eq!(failure(&refusal, false).status, 400);
    }
    assert!(handle_connect(&HeaderMap::new()).is_ok());
}

#[test]
fn invalid_public_policy_is_an_exact_enforced_denial_before_body_polling() {
    let (route, asked) = admitted(
        "GET",
        "http://allowed.example/",
        "bad!policy\n",
        "open\n",
        AuditResult::Recorded,
    );
    assert_eq!(asked, Some(Mode::Enforce));
    let (response, outcome) = answered(handle_http1(b"GET", route));
    assert_eq!(response.status, 403);
    assert!(!outcome.body_consumed);
    assert_eq!(response.body, b"blocked by vhrn egress policy: allowed.example\n");
}

#[test]
fn local_denial_is_exact_and_does_not_poll_the_body() {
    let (target, connect) = local("GET", "http://LOCALHOST:0080/");
    let (granted, _, _) = judge_local(&target, None);
    assert!(!granted);
    let (response, outcome) =
        answered(handle_http1(b"GET", authorize_local(target, connect, granted)));
    assert_eq!(response.status, 403);
    assert!(!outcome.body_consumed);
    assert_eq!(response.body, b"blocked by vhrn local policy: localhost:80\n");
}

#[test]
fn local_grants_route() {
    let layers = [file("/0", "localhost:80\n"), file("/1", ""), file("/2", "")];
    let (target, connect) = local("GET", "http://localhost/path");
    let (granted, asked, _) = judge_local(&target, Some(&layers));
    assert!(granted);
    assert_eq!(asked, None);
    assert!(matches!(
        handle_http1(b"GET", authorize_local(target, connect, granted)),
        Handling::ForwardLocal(_)
    ));
}

fn direct_target(path: &str) -> vhrn::domain::target::DirectTarget {
    match classify(b"GET", path.as_bytes()) {
        Target::Direct(target) => target,
        _ => panic!("a direct target"),
    }
}

#[test]
fn healthz_does_not_poll_its_body() {
    let target = direct_target("/healthz");
    assert_eq!(direct_reading(b"GET", &target), DirectReading::Health);
    assert_eq!(direct(b"GET", &target, Health::Healthy, None).status, 200);
    assert_eq!(direct(b"GET", &target, Health::Unhealthy, None).status, 503);
    assert!(matches!(
        handle_http1(b"GET", Ok(AuthorizedRoute::Direct(target))),
        Handling::Direct(_)
    ));
}

#[test]
fn status_rereads_only_mode_and_fails_closed_when_mode_is_invalid() {
    let target = direct_target("/__status");
    assert_eq!(direct_reading(b"GET", &target), DirectReading::Mode);
    for (contents, status, expected) in [
        (None, 503, "enforce"),
        (Some("open\n"), 200, "open"),
        (Some("unknown\n"), 503, "enforce"),
        (Some("open\nreport\n"), 503, "enforce"),
    ] {
        let mode = match contents {
            Some(text) => read_status_mode(true, text.len() as u64, text.as_bytes()),
            None => None,
        };
        let response = direct(b"GET", &target, Health::Healthy, mode);
        assert_eq!(response.status, status);
        assert_eq!(response.body, format!("{{\"mode\":\"{expected}\"}}\n").as_bytes());
    }
    assert_eq!(read_status_mode(false, 4, b"open"), None);
    assert_eq!(read_status_mode(true, 4, b"open"), Some(Mode::Open));
}

#[test]
fn enforce_denial_stays_forbidden_when_audit_write_fails() {
    let (route, _) = admitted(
        "GET",
        "http://denied.example/",
        "allowed.example\n",
        "enforce\n",
        AuditResult::AppendFailed,
    );
    assert_eq!(answered(handle_http1(b"GET", route)).0.status, 403);
}

#[test]
fn report_mode_audit_write_failure_is_503_and_never_dials() {
    let (route, asked) = admitted(
        "GET",
        "http://denied.example/",
        "allowed.example\n",
        "report\n",
        AuditResult::AppendFailed,
    );
    assert_eq!(asked, Some(Mode::Report));
    let (response, _) = answered(handle_http1(b"GET", route));
    assert_eq!(response.status, 503);
    assert_eq!(response.headers["connection"], "close");
    assert_eq!(response.body, b"proxy temporarily unavailable\n");
}

#[test]
fn report_mode_connect_audit_write_failure_is_503_and_never_resolves() {
    let (route, _) = admitted(
        "CONNECT",
        "denied.example:443",
        "allowed.example\n",
        "report\n",
        AuditResult::AppendFailed,
    );
    let refusal = connect_http1(route, true).err().unwrap();
    let response = failure(&refusal, false);
    assert_eq!(response.status, 503);
    assert_eq!(response.headers["connection"], "close");
    assert_eq!(response.body, b"proxy temporarily unavailable\n");
}

#[test]
fn connect_routes_are_tunnels_only() {
    let (route, _) = admitted(
        "CONNECT",
        "allowed.example:443",
        "allowed.example\n",
        "enforce\n",
        AuditResult::Recorded,
    );
    assert!(matches!(connect_http1(route, false), Ok(ConnectRoute::Public(_))));
    let (route, _) = admitted(
        "GET",
        "http://allowed.example/",
        "allowed.example\n",
        "enforce\n",
        AuditResult::Recorded,
    );
    assert_eq!(connect_http1(route, true).err().unwrap(), ProxyFailure::BadRequest);
}

#[test]
fn a_local_tunnel_needs_a_connector() {
    let local = || match authorize(classify(b"CONNECT", b"127.0.0.1:8080")) {
        Admission::LocalPolicy { local, connect } => authorize_local(local, connect, true),
        _ => panic!("a local target"),
    };
    assert!(matches!(connect_http1(local(), true), Ok(ConnectRoute::Local(_))));
    assert_eq!(
        connect_http1(local(), false).err().unwrap(),
        ProxyFailure::LocalDenied(b"127.0.0.1:8080".to_vec())
    );
}

#[test]
fn exchange_failures_answer_by_kind() {
    for (kind, status) in [
        (ForwardErrorKind::BadRequest, 400),
        (ForwardErrorKind::BadGateway, 502),
        (ForwardErrorKind::Cancelled, 503),
        (ForwardErrorKind::ClientDisconnected, 503),
    ] {
        let outcome = forward_failure(forward_error(kind, true), false);
        assert_eq!(own(&outcome).status, status);
        assert!(outcome.body_consumed);
    }
}

#[test]
fn forwarded_responses_go_on_without_hop_fields() {
    let target = authorized("http://allowed.example/", Mode::Enforce, false);
    let mut headers = HeaderMap::new();
    headers.insert("x-origin", "1".parse().unwrap());
    let (outcome, audit) = dispatch_public(
        &target,
        PublicForward::Forwarded { status: 201, headers, request_complete: true },
        false,
    );
    assert_eq!(audit, None);
    assert!(outcome.body_consumed);
    match outcome.reply {
        Reply::Origin { status, headers, body } => {
            assert_eq!(status, 201);
            assert_eq!(headers["x-origin"], "1");
            assert!(body);
        },
        Reply::Own(_) => panic!("an origin's response"),
    }
}

#[test]
fn local_destinations_need_a_connector() {
    let (target, _) = local("GET", "http://localhost:80/");
    let outcome = dispatch_local(&target, LocalForward::NoConnector, false);
    assert_eq!(own(&outcome).status, 403);
    let outcome = dispatch_local(&target, LocalForward::Connect(BrokerError::Rejected), false);
    assert_eq!(own(&outcome).status, 502);
}

#[test]
fn asterisk_is_for_options_only() {
    assert_eq!(asterisk(b"OPTIONS").status, 204);
    assert_eq!(asterisk(b"GET").status, 400);
}

#[test]
fn direct_paths_allow_reading_only() {
    let target = direct_target("/healthz");
    assert_eq!(direct_reading(b"POST", &target), DirectReading::Nothing);
    let refused = direct(b"POST", &target, Health::Healthy, None);
    assert_eq!(refused.status, 405);
    assert!(refused.headers.contains_key("allow"));
    let absent = direct(b"GET", &direct_target("/elsewhere"), Health::Healthy, None);
    assert_eq!(absent.status, 404);
}
