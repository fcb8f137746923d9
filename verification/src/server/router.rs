//! Authorization of request heads and the answers to requests.
use crate::connect::broker::BrokerError;
use crate::connect::forward::{ForwardError, ForwardErrorKind};
use crate::connect::public::PublicConnectError;
use crate::diagnostics::{AuditResult, Health};
use crate::domain::policy;
use crate::domain::policy::{LayerFile, Mode, PublicDecision};
use crate::domain::target;
use crate::domain::target::{DirectTarget, LocalTarget, PublicTarget, Target};
use crate::fields;
use crate::fields::{contains_key, Fields};
use crate::headers;
use crate::octets;
use crate::octets::{append_text, copy, is_text};
use crate::server::http1;
use crate::server::http1::IngressError;
use crate::server::response;
use crate::server::response::{failure, fixed, put, represented, ProxyFailure, ProxyResponse};
use hyper::HeaderMap;
use vstd::prelude::*;
use vstd::utf8::*;

verus! {

/// The most octets of a mode file that a status request reads.
pub const MAX_MODE_BYTES: u64 = 8;

/// A public destination that may be reached, and how that was decided.
#[derive(Debug)]
pub struct AuthorizedPublic {
    pub target: PublicTarget,
    pub effective_mode: Mode,
    pub already_audited: bool,
}

pub struct AuthorizedModel {
    pub target: target::PublicModel,
    pub effective_mode: Mode,
    pub already_audited: bool,
}

impl View for AuthorizedPublic {
    type V = AuthorizedModel;

    open spec fn view(&self) -> AuthorizedModel {
        AuthorizedModel {
            target: self.target@,
            effective_mode: self.effective_mode,
            already_audited: self.already_audited,
        }
    }
}

/// Where a request that was let through goes.
#[derive(Debug)]
pub enum AuthorizedRoute {
    Direct(DirectTarget),
    Asterisk,
    PublicHttp(AuthorizedPublic),
    LocalHttp(LocalTarget),
    PublicConnect(AuthorizedPublic),
    LocalConnect(LocalTarget),
}

pub enum RouteModel {
    Direct(Seq<u8>),
    Asterisk,
    PublicHttp(AuthorizedModel),
    LocalHttp(target::LocalModel),
    PublicConnect(AuthorizedModel),
    LocalConnect(target::LocalModel),
}

impl View for AuthorizedRoute {
    type V = RouteModel;

    open spec fn view(&self) -> RouteModel {
        match self {
            AuthorizedRoute::Direct(t) => RouteModel::Direct(t@),
            AuthorizedRoute::Asterisk => RouteModel::Asterisk,
            AuthorizedRoute::PublicHttp(p) => RouteModel::PublicHttp(p@),
            AuthorizedRoute::LocalHttp(t) => RouteModel::LocalHttp(t@),
            AuthorizedRoute::PublicConnect(p) => RouteModel::PublicConnect(p@),
            AuthorizedRoute::LocalConnect(t) => RouteModel::LocalConnect(t@),
        }
    }
}

/// A route or a refusal, as models.
pub open spec fn routed(r: Result<AuthorizedRoute, ProxyFailure>) -> Result<
    RouteModel,
    response::FailureModel,
> {
    match r {
        Ok(route) => Ok(route@),
        Err(refusal) => Err(refusal@),
    }
}

/// What has to be known before a target can be routed.
#[derive(Debug)]
pub enum Admission {
    /// Nothing: the target is routed.
    Routed(AuthorizedRoute),
    /// Nothing: the target is refused.
    Refused(ProxyFailure),
    /// The public policy.
    PublicPolicy { public: PublicTarget, connect: bool },
    /// The local policy.
    LocalPolicy { local: LocalTarget, connect: bool },
}

/// Looks at a target alone. Only a public or local destination has a policy read for it.
pub fn authorize(target: Target) -> (r: Admission)
    ensures
        match target@ {
            target::TargetModel::Direct(path) => r matches Admission::Routed(route) && route@
                == RouteModel::Direct(path),
            target::TargetModel::Asterisk => r matches Admission::Routed(route) && route@
                == RouteModel::Asterisk,
            target::TargetModel::HttpsAbsoluteRejected => r matches Admission::Refused(refusal)
                && refusal@ == response::FailureModel::HttpsRequiresConnect,
            target::TargetModel::Malformed => r matches Admission::Refused(refusal) && refusal@
                == response::FailureModel::BadRequest,
            target::TargetModel::PublicHttp(t) => r matches Admission::PublicPolicy {
                public,
                connect,
            } && public@ == t && !connect,
            target::TargetModel::PublicConnect(t) => r matches Admission::PublicPolicy {
                public,
                connect,
            } && public@ == t && connect,
            target::TargetModel::LocalHttp(t) => r matches Admission::LocalPolicy { local, connect }
                && local@ == t && !connect,
            target::TargetModel::LocalConnect(t) => r matches Admission::LocalPolicy {
                local,
                connect,
            } && local@ == t && connect,
        },
{
    match target {
        Target::Direct(target) => Admission::Routed(AuthorizedRoute::Direct(target)),
        Target::Asterisk => Admission::Routed(AuthorizedRoute::Asterisk),
        Target::HttpsAbsoluteRejected => Admission::Refused(ProxyFailure::HttpsRequiresConnect),
        Target::Malformed => Admission::Refused(ProxyFailure::BadRequest),
        Target::PublicHttp(target) => Admission::PublicPolicy { public: target, connect: false },
        Target::PublicConnect(target) => Admission::PublicPolicy { public: target, connect: true },
        Target::LocalHttp(target) => Admission::LocalPolicy { local: target, connect: false },
        Target::LocalConnect(target) => Admission::LocalPolicy { local: target, connect: true },
    }
}

/// What the public policy says of a host: `None` where it cannot be read.
pub open spec fn public_verdict(
    layers: Seq<policy::LayerModel>,
    mode: policy::LayerModel,
    host: target::HostModel,
) -> Option<PublicDecision> {
    match policy::public_snapshot(layers, mode) {
        Ok((snapshot, _)) => Some(
            policy::decision_for(snapshot.mode, policy::host_granted(snapshot.public, host)),
        ),
        Err(_) => None,
    }
}

/// The mode under which a denial is recorded, where one is. A policy that cannot be read enforces.
pub open spec fn public_audit(verdict: Option<PublicDecision>) -> Option<Mode> {
    match verdict {
        None => Some(Mode::Enforce),
        Some(decision) => if !decision.allowed || decision.record_denial {
            Some(decision.mode)
        } else {
            None
        },
    }
}

/// Where a public request goes, given what the policy says and what became of the denial record.
pub open spec fn public_route(
    target: target::PublicModel,
    connect: bool,
    verdict: Option<PublicDecision>,
    audit: AuditResult,
) -> Result<RouteModel, response::FailureModel> {
    let denied = response::FailureModel::PublicDenied(target::host_text(target.host));
    match verdict {
        None => Err(denied),
        Some(decision) => if !decision.allowed {
            Err(denied)
        } else if decision.record_denial && audit == AuditResult::AppendFailed {
            Err(response::FailureModel::ReportLogUnavailable)
        } else {
            let public = AuthorizedModel {
                target,
                effective_mode: decision.mode,
                already_audited: decision.record_denial,
            };
            Ok(
                if connect {
                    RouteModel::PublicConnect(public)
                } else {
                    RouteModel::PublicHttp(public)
                },
            )
        },
    }
}

/// Reads the public policy for a destination: the decision, the mode under which its denial is to
/// be recorded, and what is to be reported.
pub fn judge_public(target: &PublicTarget, layers: &[LayerFile], mode: &LayerFile) -> (r: (
    Option<PublicDecision>,
    Option<Mode>,
    Option<String>,
))
    ensures
        r.0 == public_verdict(policy::layer_models(layers@), mode@, target@.host),
        r.1 == public_audit(r.0),
        policy::optional_text(r.2) == (match policy::public_snapshot(
            policy::layer_models(layers@),
            mode@,
        ) {
            Ok((_, warning)) => warning,
            Err(error) => Some(error),
        }),
{
    match policy::decide_public(layers, mode, target.host()) {
        Ok((decision, warning)) => {
            let audit: Option<Mode> = if !decision.allowed || decision.record_denial {
                Some(decision.mode)
            } else {
                None
            };
            (Some(decision), audit, warning)
        },
        Err(error) => (None, Some(Mode::Enforce), Some(error)),
    }
}

/// Routes or refuses a public request. A denial that has to be recorded before the request may go
/// on, and was not, refuses it.
pub fn authorize_public(
    target: PublicTarget,
    connect: bool,
    verdict: Option<PublicDecision>,
    audit: AuditResult,
) -> (r: Result<AuthorizedRoute, ProxyFailure>)
    ensures
        routed(r) == public_route(target@, connect, verdict, audit),
{
    let decision: PublicDecision = match verdict {
        Some(decision) => decision,
        None => {
            return Err(ProxyFailure::PublicDenied(target.host().text()));
        },
    };
    if !decision.allowed {
        return Err(ProxyFailure::PublicDenied(target.host().text()));
    }
    let already_audited: bool = decision.record_denial;
    if already_audited {
        match audit {
            AuditResult::AppendFailed => {
                return Err(ProxyFailure::ReportLogUnavailable);
            },
            AuditResult::Recorded | AuditResult::Disabled => {},
        }
    }
    let public = AuthorizedPublic { target, effective_mode: decision.mode, already_audited };
    if connect {
        Ok(AuthorizedRoute::PublicConnect(public))
    } else {
        Ok(AuthorizedRoute::PublicHttp(public))
    }
}

/// The local policy grants the authority. Without local routing, or where the policy cannot be
/// read, it grants nothing.
pub open spec fn local_granted(
    layers: Option<Seq<policy::LayerModel>>,
    authority: target::LoopbackModel,
) -> bool {
    match layers {
        None => false,
        Some(layers) => match policy::local_snapshot(layers) {
            Ok(snapshot) => snapshot.local.contains(authority),
            Err(_) => false,
        },
    }
}

/// Where a local request goes.
pub open spec fn local_route(target: target::LocalModel, connect: bool, granted: bool) -> Result<
    RouteModel,
    response::FailureModel,
> {
    if !granted {
        Err(response::FailureModel::LocalDenied(target::loopback_text(target.authority)))
    } else if connect {
        Ok(RouteModel::LocalConnect(target))
    } else {
        Ok(RouteModel::LocalHttp(target))
    }
}

/// Reads the local policy for a destination: whether it is granted, the mode under which a denial
/// is to be recorded, and what is to be reported.
pub fn judge_local(target: &LocalTarget, layers: Option<&[LayerFile; 3]>) -> (r: (
    bool,
    Option<Mode>,
    Option<String>,
))
    ensures
        r.0 == local_granted(
            match layers {
                Some(layers) => Some(policy::layer_models(layers@)),
                None => None,
            },
            target@.authority,
        ),
        r.1 == (if r.0 {
            None
        } else {
            Some(Mode::Enforce)
        }),
        policy::optional_text(r.2) == (match layers {
            Some(layers) => match policy::local_snapshot(policy::layer_models(layers@)) {
                Ok(_) => None,
                Err(error) => Some(error),
            },
            None => None,
        }),
{
    match layers {
        None => (false, Some(Mode::Enforce), None),
        Some(layers) => match policy::decide_local(layers, target.canonical_authority()) {
            Ok(true) => (true, None, None),
            Ok(false) => (false, Some(Mode::Enforce), None),
            Err(error) => (false, Some(Mode::Enforce), Some(error)),
        },
    }
}

/// Routes or refuses a local request.
pub fn authorize_local(target: LocalTarget, connect: bool, granted: bool) -> (r: Result<
    AuthorizedRoute,
    ProxyFailure,
>)
    ensures
        routed(r) == local_route(target@, connect, granted),
{
    if !granted {
        return Err(ProxyFailure::LocalDenied(target.canonical_authority().text()));
    }
    if connect {
        Ok(AuthorizedRoute::LocalConnect(target))
    } else {
        Ok(AuthorizedRoute::LocalHttp(target))
    }
}

/// A public request is routed only where the policy could be read and either grants the host or
/// runs in a mode that lets every host pass.
pub proof fn a_routed_public_request_was_allowed(
    target: target::PublicModel,
    connect: bool,
    layers: Seq<policy::LayerModel>,
    mode: policy::LayerModel,
    audit: AuditResult,
)
    ensures
        public_route(target, connect, public_verdict(layers, mode, target.host), audit) is Ok ==> (
        policy::public_snapshot(layers, mode) matches Ok((snapshot, _)) && (policy::host_granted(
            snapshot.public,
            target.host,
        ) || snapshot.mode != Mode::Enforce)),
{
}

/// In enforce mode a host that the policy does not grant is refused by name, whatever became of
/// the denial record.
pub proof fn an_enforced_denial_is_exact(
    target: target::PublicModel,
    connect: bool,
    layers: Seq<policy::LayerModel>,
    mode: policy::LayerModel,
    audit: AuditResult,
)
    requires
        policy::public_snapshot(layers, mode) matches Ok((snapshot, _)) && snapshot.mode
            == Mode::Enforce && !policy::host_granted(snapshot.public, target.host),
    ensures
        public_route(target, connect, public_verdict(layers, mode, target.host), audit) == Err::<
            RouteModel,
            response::FailureModel,
        >(response::FailureModel::PublicDenied(target::host_text(target.host))),
{
}

/// A policy that cannot be read refuses every public request by name and records the denial as
/// enforced.
pub proof fn an_unreadable_policy_denies(
    target: target::PublicModel,
    connect: bool,
    layers: Seq<policy::LayerModel>,
    mode: policy::LayerModel,
    audit: AuditResult,
)
    requires
        policy::public_snapshot(layers, mode) is Err,
    ensures
        public_audit(public_verdict(layers, mode, target.host)) == Some(Mode::Enforce),
        public_route(target, connect, public_verdict(layers, mode, target.host), audit) == Err::<
            RouteModel,
            response::FailureModel,
        >(response::FailureModel::PublicDenied(target::host_text(target.host))),
{
}

/// In report mode a request that would have been denied goes on only once the denial is recorded
/// or no log is configured.
pub proof fn a_reported_request_was_recorded(
    target: target::PublicModel,
    connect: bool,
    layers: Seq<policy::LayerModel>,
    mode: policy::LayerModel,
)
    requires
        policy::public_snapshot(layers, mode) matches Ok((snapshot, _)) && snapshot.mode
            == Mode::Report && !policy::host_granted(snapshot.public, target.host),
    ensures
        public_route(
            target,
            connect,
            public_verdict(layers, mode, target.host),
            AuditResult::AppendFailed,
        ) == Err::<RouteModel, response::FailureModel>(
            response::FailureModel::ReportLogUnavailable,
        ),
        public_route(
            target,
            connect,
            public_verdict(layers, mode, target.host),
            AuditResult::Recorded,
        ) is Ok,
{
}

/// The kind of a route follows the kind of its target: a tunnel is opened only for CONNECT.
pub proof fn a_route_keeps_its_kind(
    public: target::PublicModel,
    local: target::LocalModel,
    connect: bool,
    verdict: Option<PublicDecision>,
    audit: AuditResult,
    granted: bool,
)
    ensures
        public_route(public, connect, verdict, audit) matches Ok(route) ==> (if connect {
            route is PublicConnect
        } else {
            route is PublicHttp
        }),
        local_route(local, connect, granted) matches Ok(route) ==> (if connect {
            route is LocalConnect
        } else {
            route is LocalHttp
        }),
{
}

/// The answer to a request: one that the proxy makes, or one that an origin made.
#[derive(Debug)]
pub enum Reply {
    Own(ProxyResponse),
    /// The head as the client gets it, and whether the body goes with it.
    Origin { status: u16, headers: HeaderMap, body: bool },
}

/// The answer to a request, whether the request body was used up, and whether the connection may
/// carry another request.
#[derive(Debug)]
pub struct Http1Outcome {
    pub reply: Reply,
    pub body_consumed: bool,
    pub reusable: bool,
}

/// The outcome answers with a failure.
pub open spec fn fails_with(o: Http1Outcome, f: response::FailureModel, head: bool) -> bool {
    o.reply matches Reply::Own(r) && response::is_failure_response(r, f, head)
}

pub open spec fn head_method() -> Seq<u8> {
    octets::octets("HEAD"@)
}

/// What is still to be done for a request.
#[derive(Debug)]
pub enum Handling {
    Answered(Http1Outcome),
    /// Answer with `direct`; the body stays unread and the connection stays usable.
    Direct(DirectTarget),
    /// Forward to a public origin and answer with `dispatch_public`.
    ForwardPublic(AuthorizedPublic),
    /// Forward to a local origin and answer with `dispatch_local`.
    ForwardLocal(LocalTarget),
}

/// A refusal leaves the connection usable only where it is a denial.
pub open spec fn is_denial(f: response::FailureModel) -> bool {
    f is PublicDenied || f is LocalDenied
}

/// Decides what is done for a request that was routed or refused. A CONNECT route does not belong
/// here.
pub fn handle_http1(method: &[u8], route: Result<AuthorizedRoute, ProxyFailure>) -> (r: Handling)
    ensures
        match routed(route) {
            Err(refusal) => r matches Handling::Answered(o) && fails_with(
                o,
                refusal,
                method@ == head_method(),
            ) && !o.body_consumed && o.reusable == is_denial(refusal),
            Ok(RouteModel::Direct(path)) => r matches Handling::Direct(t) && t@ == path,
            Ok(RouteModel::Asterisk) => r matches Handling::Answered(o) && (o.reply matches Reply::Own(
                answer,
            ) && is_asterisk_response(answer, method@)) && !o.body_consumed && o.reusable == (method@
                == octets::octets("OPTIONS"@)),
            Ok(RouteModel::PublicHttp(public)) => r matches Handling::ForwardPublic(p) && p@
                == public,
            Ok(RouteModel::LocalHttp(local)) => r matches Handling::ForwardLocal(t) && t@ == local,
            Ok(_) => r matches Handling::Answered(o) && fails_with(
                o,
                response::FailureModel::BadRequest,
                method@ == head_method(),
            ) && !o.body_consumed && !o.reusable,
        },
{
    let head: bool = is_text(method, "HEAD");
    match route {
        Err(refusal) => {
            let reusable: bool = refusal.is_denial();
            Handling::Answered(
                Http1Outcome {
                    reply: Reply::Own(failure(&refusal, head)),
                    body_consumed: false,
                    reusable,
                },
            )
        },
        Ok(AuthorizedRoute::Direct(target)) => Handling::Direct(target),
        Ok(AuthorizedRoute::Asterisk) => Handling::Answered(
            Http1Outcome {
                reply: Reply::Own(asterisk(method)),
                body_consumed: false,
                reusable: is_text(method, "OPTIONS"),
            },
        ),
        Ok(AuthorizedRoute::PublicHttp(public)) => Handling::ForwardPublic(public),
        Ok(AuthorizedRoute::LocalHttp(target)) => Handling::ForwardLocal(target),
        Ok(_) => Handling::Answered(
            Http1Outcome {
                reply: Reply::Own(failure(&ProxyFailure::BadRequest, head)),
                body_consumed: false,
                reusable: false,
            },
        ),
    }
}

/// A tunnel request that announces a body, or waits for leave to send one.
pub open spec fn is_framed(f: Fields) -> bool {
    ||| fields::has(f, http1::key("transfer-encoding"@))
    ||| fields::has(f, http1::key("expect"@))
    ||| fields::has(f, http1::key("content-length"@))
}

/// Judges the fields of a tunnel request before anything else is looked at: one with a body of its
/// own is a bad request.
pub fn handle_connect(headers: &HeaderMap) -> (r: Result<(), ProxyFailure>)
    ensures
        match r {
            Ok(_) => !is_framed(fields::contents(*headers)),
            Err(refusal) => is_framed(fields::contents(*headers)) && refusal@
                == response::FailureModel::BadRequest,
        },
{
    if contains_key(headers, "transfer-encoding") || contains_key(headers, "expect")
        || contains_key(headers, "content-length") {
        Err(ProxyFailure::BadRequest)
    } else {
        Ok(())
    }
}

/// Where a tunnel leads.
#[derive(Debug)]
pub enum ConnectRoute {
    Public(AuthorizedPublic),
    Local(LocalTarget),
}

/// Decides where a CONNECT request that was routed or refused leads. Only a CONNECT route makes a
/// tunnel, and a local one only where there is a connector to the broker.
pub fn connect_http1(route: Result<AuthorizedRoute, ProxyFailure>, connector: bool) -> (r: Result<
    ConnectRoute,
    ProxyFailure,
>)
    ensures
        match routed(route) {
            Err(refusal) => r matches Err(f) && f@ == refusal,
            Ok(RouteModel::PublicConnect(public)) => r matches Ok(ConnectRoute::Public(p)) && p@
                == public,
            Ok(RouteModel::LocalConnect(local)) => if connector {
                r matches Ok(ConnectRoute::Local(t)) && t@ == local
            } else {
                r matches Err(f) && f@ == response::FailureModel::LocalDenied(
                    target::loopback_text(local.authority),
                )
            },
            Ok(_) => r matches Err(f) && f@ == response::FailureModel::BadRequest,
        },
{
    match route {
        Err(refusal) => Err(refusal),
        Ok(AuthorizedRoute::PublicConnect(public)) => Ok(ConnectRoute::Public(public)),
        Ok(AuthorizedRoute::LocalConnect(target)) => if connector {
            Ok(ConnectRoute::Local(target))
        } else {
            Err(ProxyFailure::LocalDenied(target.canonical_authority().text()))
        },
        Ok(_) => Err(ProxyFailure::BadRequest),
    }
}

/// The failure that a failed local connection is answered with.
pub open spec fn broker_failure_of(error: BrokerError) -> response::FailureModel {
    match error {
        BrokerError::DeadlineExceeded => response::FailureModel::GatewayTimeout,
        BrokerError::Cancelled | BrokerError::Exhausted => response::FailureModel::ServiceUnavailable,
        BrokerError::Rejected
        | BrokerError::Unavailable
        | BrokerError::OriginFailure => response::FailureModel::BadGateway,
    }
}

/// The failure that a request which cannot be taken in is answered with.
pub fn ingress_failure(error: IngressError) -> (r: ProxyFailure)
    ensures
        r@ == (match error {
            IngressError::HeadersTooLarge => response::FailureModel::HeadersTooLarge,
            IngressError::BadRequest
            | IngressError::UnsupportedVersion
            | IngressError::Incomplete => response::FailureModel::BadRequest,
        }),
{
    match error {
        IngressError::HeadersTooLarge => ProxyFailure::HeadersTooLarge,
        IngressError::BadRequest
        | IngressError::UnsupportedVersion
        | IngressError::Incomplete => ProxyFailure::BadRequest,
    }
}

pub fn broker_failure(error: BrokerError) -> (r: ProxyFailure)
    ensures
        r@ == broker_failure_of(error),
{
    match error {
        BrokerError::DeadlineExceeded => ProxyFailure::GatewayTimeout,
        BrokerError::Cancelled | BrokerError::Exhausted => ProxyFailure::ServiceUnavailable,
        BrokerError::Rejected
        | BrokerError::Unavailable
        | BrokerError::OriginFailure => ProxyFailure::BadGateway,
    }
}

/// The failure that a failed public connection is answered with.
pub open spec fn public_failure_of(error: PublicConnectError, host: target::HostModel) ->
    response::FailureModel {
    match error {
        PublicConnectError::PolicyDenied => response::FailureModel::PublicDenied(
            target::host_text(host),
        ),
        PublicConnectError::DeadlineExceeded => response::FailureModel::GatewayTimeout,
        PublicConnectError::Cancelled
        | PublicConnectError::Exhausted => response::FailureModel::ServiceUnavailable,
        PublicConnectError::Unavailable => response::FailureModel::BadGateway,
    }
}

/// The mode under which a failed public connection is recorded as a denial, where it is one and was
/// not recorded before.
pub open spec fn failure_audit(error: PublicConnectError, public: AuthorizedModel) -> Option<Mode> {
    if error == PublicConnectError::PolicyDenied && !public.already_audited {
        Some(public.effective_mode)
    } else {
        None
    }
}

pub fn public_failure(error: PublicConnectError, public: &AuthorizedPublic) -> (r: (
    ProxyFailure,
    Option<Mode>,
))
    ensures
        r.0@ == public_failure_of(error, public@.target.host),
        r.1 == failure_audit(error, public@),
{
    if error.is_policy_denial() {
        let audit: Option<Mode> = if public.already_audited {
            None
        } else {
            Some(public.effective_mode)
        };
        return (ProxyFailure::PublicDenied(public.target.host().text()), audit);
    }
    let failure: ProxyFailure = match error {
        PublicConnectError::DeadlineExceeded => ProxyFailure::GatewayTimeout,
        PublicConnectError::Cancelled
        | PublicConnectError::Exhausted => ProxyFailure::ServiceUnavailable,
        _ => ProxyFailure::BadGateway,
    };
    (failure, None)
}

/// A destination is recorded as denied at most once: where the decision recorded it, a failed
/// connection does not.
pub proof fn a_denial_is_recorded_once(
    target: target::PublicModel,
    connect: bool,
    verdict: Option<PublicDecision>,
    audit: AuditResult,
    error: PublicConnectError,
)
    ensures
        public_route(target, connect, verdict, audit) matches Ok(route) ==> (match route {
            RouteModel::PublicHttp(public) | RouteModel::PublicConnect(public) => !(public_audit(
                verdict,
            ) is Some && failure_audit(error, public) is Some),
            _ => true,
        }),
{
}

/// The failure of an exchange as the client sees it.
pub open spec fn exchange_failure_of(kind: ForwardErrorKind) -> response::FailureModel {
    match kind {
        ForwardErrorKind::BadRequest => response::FailureModel::BadRequest,
        ForwardErrorKind::BadGateway => response::FailureModel::BadGateway,
        ForwardErrorKind::Cancelled
        | ForwardErrorKind::ClientDisconnected => response::FailureModel::ServiceUnavailable,
    }
}

/// The exchange ended because this side or the client gave up.
pub open spec fn given_up(kind: ForwardErrorKind) -> bool {
    kind == ForwardErrorKind::Cancelled || kind == ForwardErrorKind::ClientDisconnected
}

/// The answer to a failed exchange.
pub open spec fn is_exchange_failure(o: Http1Outcome, error: ForwardError, head: bool) -> bool {
    &&& fails_with(o, exchange_failure_of(error.kind), head)
    &&& o.body_consumed == error.request_complete
    &&& o.reusable == (error.request_complete && !given_up(error.kind))
}

pub fn forward_failure(error: ForwardError, head: bool) -> (r: Http1Outcome)
    ensures
        is_exchange_failure(r, error, head),
{
    let (kind, given_up): (ProxyFailure, bool) = match error.kind {
        ForwardErrorKind::BadRequest => (ProxyFailure::BadRequest, false),
        ForwardErrorKind::BadGateway => (ProxyFailure::BadGateway, false),
        ForwardErrorKind::Cancelled
        | ForwardErrorKind::ClientDisconnected => (ProxyFailure::ServiceUnavailable, true),
    };
    Http1Outcome {
        reply: Reply::Own(failure(&kind, head)),
        body_consumed: error.request_complete,
        reusable: error.request_complete && !given_up,
    }
}

/// What became of forwarding a request to a public origin.
#[derive(Debug)]
pub enum PublicForward {
    Forwarded { status: u16, headers: HeaderMap, request_complete: bool },
    Connect(PublicConnectError),
    Exchange(ForwardError),
}

/// What became of forwarding a request to a local origin.
#[derive(Debug)]
pub enum LocalForward {
    NoConnector,
    Forwarded { status: u16, headers: HeaderMap, request_complete: bool },
    Connect(BrokerError),
    Exchange(ForwardError),
}

/// An origin response as the client gets it. The connection stays usable where the request was
/// sent in full.
pub open spec fn is_forwarded(
    o: Http1Outcome,
    status: u16,
    headers: fields::Fields,
    request_complete: bool,
    head: bool,
) -> bool {
    &&& o.reply matches Reply::Origin { status: sent, headers: fields, body } && sent == status
        && fields::contents(fields) == (match headers::nominations_of(headers) {
        Some(nominated) => headers::sanitized(headers, nominated),
        None => headers,
    }) && body == !head
    &&& o.body_consumed == request_complete
    &&& o.reusable == request_complete
}

fn forwarded(status: u16, headers: HeaderMap, request_complete: bool, head: bool) -> (r:
    Http1Outcome)
    ensures
        is_forwarded(r, status, fields::contents(headers), request_complete, head),
{
    let (headers, body) = response::origin(headers, head);
    Http1Outcome {
        reply: Reply::Origin { status, headers, body },
        body_consumed: request_complete,
        reusable: request_complete,
    }
}

/// Answers a request that was forwarded to a public origin, and says under which mode a denial is
/// to be recorded.
pub fn dispatch_public(public: &AuthorizedPublic, result: PublicForward, head: bool) -> (r: (
    Http1Outcome,
    Option<Mode>,
))
    ensures
        match result {
            PublicForward::Forwarded { status, headers, request_complete } => is_forwarded(
                r.0,
                status,
                fields::contents(headers),
                request_complete,
                head,
            ) && r.1 is None,
            PublicForward::Connect(error) => fails_with(
                r.0,
                public_failure_of(error, public@.target.host),
                head,
            ) && !r.0.body_consumed && r.0.reusable && r.1 == failure_audit(error, public@),
            PublicForward::Exchange(error) => is_exchange_failure(r.0, error, head) && r.1 is None,
        },
{
    match result {
        PublicForward::Forwarded { status, headers, request_complete } => (
            forwarded(status, headers, request_complete, head),
            None,
        ),
        PublicForward::Connect(error) => {
            let (reason, audit) = public_failure(error, public);
            (
                Http1Outcome {
                    reply: Reply::Own(failure(&reason, head)),
                    body_consumed: false,
                    reusable: true,
                },
                audit,
            )
        },
        PublicForward::Exchange(error) => (forward_failure(error, head), None),
    }
}

/// Answers a request that was forwarded to a local origin.
pub fn dispatch_local(target: &LocalTarget, result: LocalForward, head: bool) -> (r: Http1Outcome)
    ensures
        match result {
            LocalForward::NoConnector => fails_with(
                r,
                response::FailureModel::LocalDenied(target::loopback_text(target@.authority)),
                head,
            ) && !r.body_consumed && r.reusable,
            LocalForward::Forwarded { status, headers, request_complete } => is_forwarded(
                r,
                status,
                fields::contents(headers),
                request_complete,
                head,
            ),
            LocalForward::Connect(error) => fails_with(r, broker_failure_of(error), head)
                && !r.body_consumed && r.reusable,
            LocalForward::Exchange(error) => is_exchange_failure(r, error, head),
        },
{
    match result {
        LocalForward::NoConnector => Http1Outcome {
            reply: Reply::Own(
                failure(&ProxyFailure::LocalDenied(target.canonical_authority().text()), head),
            ),
            body_consumed: false,
            reusable: true,
        },
        LocalForward::Forwarded { status, headers, request_complete } => forwarded(
            status,
            headers,
            request_complete,
            head,
        ),
        LocalForward::Connect(error) => Http1Outcome {
            reply: Reply::Own(failure(&broker_failure(error), head)),
            body_consumed: false,
            reusable: true,
        },
        LocalForward::Exchange(error) => forward_failure(error, head),
    }
}

/// What a request for a path on the proxy itself has to read.
#[derive(Debug, Clone, Copy, PartialEq, Eq, Structural)]
pub enum DirectReading {
    Nothing,
    Health,
    Mode,
}

/// The answer to a request for a path on the proxy itself.
pub struct DirectAnswer {
    pub status: u16,
    pub kind: Seq<u8>,
    pub text: Seq<u8>,
    pub allow: bool,
    pub body: bool,
}

pub open spec fn json_kind() -> Seq<u8> {
    octets::octets("application/json"@)
}

pub open spec fn plain_answer(status: u16, text: Seq<u8>, head: bool) -> DirectAnswer {
    DirectAnswer { status, kind: response::plain_text(), text, allow: false, body: !head }
}

pub open spec fn status_text(mode: Mode) -> Seq<u8> {
    octets::octets("{\"mode\":\""@) + octets::octets(policy::mode_text(mode)) + octets::octets(
        "\"}\n"@,
    )
}

/// The method reads: GET or HEAD.
pub open spec fn is_reading(method: Seq<u8>) -> bool {
    method == octets::octets("GET"@) || method == head_method()
}

pub open spec fn health_path() -> Seq<u8> {
    octets::octets("/healthz"@)
}

pub open spec fn status_path() -> Seq<u8> {
    octets::octets("/__status"@)
}

/// The answer for a path. The status of a mode that cannot be read is `enforce`, and unavailable.
pub open spec fn direct_answer(
    method: Seq<u8>,
    path: Seq<u8>,
    health: Health,
    mode: Option<Mode>,
) -> DirectAnswer {
    let head = method == head_method();
    if (path == health_path() || path == status_path()) && !is_reading(method) {
        DirectAnswer {
            status: 405,
            kind: response::plain_text(),
            text: octets::octets("method not allowed\n"@),
            allow: true,
            body: true,
        }
    } else if path == health_path() {
        match health {
            Health::Healthy => plain_answer(200, octets::octets("ok\n"@), head),
            Health::Unhealthy => plain_answer(503, octets::octets("unhealthy\n"@), head),
        }
    } else if path == status_path() {
        DirectAnswer {
            status: if mode is Some {
                200
            } else {
                503
            },
            kind: json_kind(),
            text: status_text(
                match mode {
                    Some(mode) => mode,
                    None => Mode::Enforce,
                },
            ),
            allow: false,
            body: !head,
        }
    } else {
        plain_answer(404, octets::octets("404 page not found\n"@), head)
    }
}

/// What the answer for a path depends on.
pub open spec fn reading_for(method: Seq<u8>, path: Seq<u8>) -> DirectReading {
    if !is_reading(method) {
        DirectReading::Nothing
    } else if path == health_path() {
        DirectReading::Health
    } else if path == status_path() {
        DirectReading::Mode
    } else {
        DirectReading::Nothing
    }
}

/// A response that gives an answer.
pub open spec fn is_direct_response(r: ProxyResponse, a: DirectAnswer) -> bool {
    let represented = response::representation_fields(Some(a.kind), a.text.len());
    &&& r.status == a.status
    &&& fields::contents(r.headers) == if a.allow {
        fields::appended(represented, allow_name(), octets::octets("GET, HEAD"@))
    } else {
        represented
    }
    &&& r.body@ == if a.body {
        a.text
    } else {
        Seq::empty()
    }
}

pub open spec fn allow_name() -> Seq<u8> {
    octets::octets("allow"@)
}

proof fn lemma_router_literals()
    ensures
        octets::lower(allow_name()) == allow_name(),
        fields::is_field_name(allow_name()),
        fields::is_field_value(octets::octets("GET, HEAD"@)),
        fields::is_field_value(octets::octets("GET, HEAD, OPTIONS, CONNECT"@)),
        fields::is_field_value(json_kind()),
        fields::is_field_value(response::plain_text()),
{
    reveal_strlit("allow");
    reveal_strlit("GET, HEAD");
    reveal_strlit("GET, HEAD, OPTIONS, CONNECT");
    reveal_strlit("application/json");
    reveal_strlit("text/plain; charset=utf-8");
    headers::lemma_plain_name("allow"@);
    is_ascii_chars_encode_utf8("GET, HEAD"@);
    is_ascii_chars_encode_utf8("GET, HEAD, OPTIONS, CONNECT"@);
    is_ascii_chars_encode_utf8("application/json"@);
    is_ascii_chars_encode_utf8("text/plain; charset=utf-8"@);
}

/// Says what has to be read before a path on the proxy itself can be answered.
pub fn direct_reading(method: &[u8], target: &DirectTarget) -> (r: DirectReading)
    ensures
        r == reading_for(method@, target@),
{
    let path: &[u8] = target.path_and_query();
    if !is_text(method, "GET") && !is_text(method, "HEAD") {
        DirectReading::Nothing
    } else if is_text(path, "/healthz") {
        DirectReading::Health
    } else if is_text(path, "/__status") {
        DirectReading::Mode
    } else {
        DirectReading::Nothing
    }
}

/// Answers a request for a path on the proxy itself.
pub fn direct(method: &[u8], target: &DirectTarget, health: Health, mode: Option<Mode>) -> (r:
    ProxyResponse)
    ensures
        is_direct_response(r, direct_answer(method@, target@, health, mode)),
{
    proof {
        lemma_router_literals();
    }
    let head: bool = is_text(method, "HEAD");
    let path: &[u8] = target.path_and_query();
    let healthz: bool = is_text(path, "/healthz");
    let status: bool = is_text(path, "/__status");
    let plain: Option<&str> = Some("text/plain; charset=utf-8");
    if (healthz || status) && !is_text(method, "GET") && !head {
        let mut response: ProxyResponse = represented(
            405,
            plain,
            "method not allowed\n".as_bytes(),
            false,
        );
        put(&mut response.headers, "allow", "GET, HEAD".as_bytes());
        return response;
    }
    if healthz {
        return match health {
            Health::Healthy => represented(200, plain, "ok\n".as_bytes(), head),
            Health::Unhealthy => represented(503, plain, "unhealthy\n".as_bytes(), head),
        };
    }
    if status {
        let (code, mode): (u16, Mode) = match mode {
            Some(mode) => (200, mode),
            None => (503, Mode::Enforce),
        };
        let mut text: Vec<u8> = copy("{\"mode\":\"".as_bytes());
        append_text(&mut text, mode.as_str());
        append_text(&mut text, "\"}\n");
        return represented(code, Some("application/json"), text.as_slice(), head);
    }
    represented(404, plain, "404 page not found\n".as_bytes(), head)
}

/// The answer for a path depends on nothing but what was to be read for it.
pub proof fn only_the_asked_reading_matters(
    method: Seq<u8>,
    path: Seq<u8>,
    health: Health,
    other_health: Health,
    mode: Option<Mode>,
    other_mode: Option<Mode>,
)
    requires
        reading_for(method, path) == DirectReading::Health ==> health == other_health,
        reading_for(method, path) == DirectReading::Mode ==> mode == other_mode,
    ensures
        direct_answer(method, path, health, mode) == direct_answer(
            method,
            path,
            other_health,
            other_mode,
        ),
{
    lemma_paths_differ();
}

proof fn lemma_paths_differ()
    ensures
        health_path() != status_path(),
{
    reveal_strlit("/healthz");
    reveal_strlit("/__status");
    is_ascii_chars_encode_utf8("/healthz"@);
    is_ascii_chars_encode_utf8("/__status"@);
    assert(health_path().len() == 8);
    assert(status_path().len() == 9);
}

/// The mode that the octets of a mode file name, with or without a line feed.
pub open spec fn status_mode_of(bytes: Seq<u8>) -> Option<Mode> {
    if bytes == octets::octets("enforce"@) || bytes == octets::octets("enforce\n"@) {
        Some(Mode::Enforce)
    } else if bytes == octets::octets("report"@) || bytes == octets::octets("report\n"@) {
        Some(Mode::Report)
    } else if bytes == octets::octets("open"@) || bytes == octets::octets("open\n"@) {
        Some(Mode::Open)
    } else {
        None
    }
}

/// The mode that a status request reports for a mode file: `None` where it is no regular file, is
/// too long, or names no mode.
pub fn read_status_mode(regular: bool, length: u64, bytes: &[u8]) -> (r: Option<Mode>)
    ensures
        r == (if regular && length <= MAX_MODE_BYTES {
            status_mode_of(bytes@)
        } else {
            None
        }),
{
    if !regular || length > MAX_MODE_BYTES {
        return None;
    }
    if is_text(bytes, "enforce") || is_text(bytes, "enforce\n") {
        Some(Mode::Enforce)
    } else if is_text(bytes, "report") || is_text(bytes, "report\n") {
        Some(Mode::Report)
    } else if is_text(bytes, "open") || is_text(bytes, "open\n") {
        Some(Mode::Open)
    } else {
        None
    }
}

/// The answer to a request for `*`.
pub open spec fn is_asterisk_response(r: ProxyResponse, method: Seq<u8>) -> bool {
    if method != octets::octets("OPTIONS"@) {
        response::is_failure_response(
            r,
            response::FailureModel::BadRequest,
            method == head_method(),
        )
    } else {
        &&& r.status == 204
        &&& r.body@ == Seq::<u8>::empty()
        &&& fields::contents(r.headers) == fields::appended(
            fields::no_fields(),
            allow_name(),
            octets::octets("GET, HEAD, OPTIONS, CONNECT"@),
        )
    }
}

/// Answers a request for `*`.
pub fn asterisk(method: &[u8]) -> (r: ProxyResponse)
    ensures
        is_asterisk_response(r, method@),
{
    proof {
        lemma_router_literals();
    }
    if !is_text(method, "OPTIONS") {
        return failure(&ProxyFailure::BadRequest, is_text(method, "HEAD"));
    }
    let none: [u8; 0] = [];
    let mut response: ProxyResponse = fixed(204, None, none.as_slice());
    assert(response.body@ =~= Seq::empty());
    put(&mut response.headers, "allow", "GET, HEAD, OPTIONS, CONNECT".as_bytes());
    response
}

} // verus!
