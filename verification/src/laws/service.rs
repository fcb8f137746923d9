//! How the service starts, keeps connections and hands bodies on.
use crate::connect::forward;
use crate::connect::pool;
use crate::connect::tls;
use crate::domain::policy;
use crate::domain::policy::{EntryModel, LayerModel, SnapshotModel};
use crate::domain::policy::reader;
use crate::domain::policy::reader::StrictModel;
use crate::domain::target::{LoopbackHostModel, LoopbackModel};
use crate::fields;
use crate::fields::Fields;
use crate::headers::HttpVersion;
use crate::ip;
use crate::ip::IpModel;
use crate::octets;
use crate::server::http1::{OriginBodyFraming, OriginHeadModel, OriginTransferCoding};
use crate::server::listener;
use crate::server::listener::{BindFailure, ServeAction, ServeEvent, TaskResult};
use crate::server::relay;
use crate::server::relay::DirectionModel;
use crate::server::streaming;
use crate::startup;
use crate::startup::{Progress, Stage, StageEvent, StartupError};
use crate::text;
use vstd::prelude::*;

verus! {

/// A strict file that was read, as a layer.
pub open spec fn as_layer(f: StrictModel) -> LayerModel {
    LayerModel {
        path: f.path,
        contents: match f.contents {
            Ok(text) => Some(text),
            Err(_) => None,
        },
    }
}

pub open spec fn as_layers(files: Seq<StrictModel>) -> Seq<LayerModel> {
    Seq::new(files.len(), |i: int| as_layer(files[i]))
}

proof fn lemma_strict_domains(files: Seq<StrictModel>, i: int, acc: Set<EntryModel>)
    requires
        0 <= i <= files.len(),
    ensures
        reader::strict_domains_from(files, i, acc) is Ok <==> policy::domain_layers_from(
            as_layers(files),
            i,
            acc,
        ) is Ok,
        reader::strict_domains_from(files, i, acc) is Ok ==> reader::strict_domains_from(
            files,
            i,
            acc,
        )->Ok_0 == policy::domain_layers_from(as_layers(files), i, acc)->Ok_0,
    decreases files.len() - i,
{
    if i < files.len() {
        assert(as_layers(files)[i] == as_layer(files[i]));
        match files[i].contents {
            Ok(contents) => match policy::domain_layer(text::lines(contents)) {
                Some(entries) => {
                    lemma_strict_domains(files, i + 1, acc.union(entries));
                },
                None => {},
            },
            Err(_) => {},
        }
    }
}

proof fn lemma_strict_locals(files: Seq<StrictModel>, i: int, acc: Set<LoopbackModel>)
    requires
        0 <= i <= files.len(),
    ensures
        reader::strict_locals_from(files, i, acc) is Ok <==> policy::local_layers_from(
            as_layers(files),
            i,
            acc,
        ) is Ok,
        reader::strict_locals_from(files, i, acc) is Ok ==> reader::strict_locals_from(
            files,
            i,
            acc,
        )->Ok_0 == policy::local_layers_from(as_layers(files), i, acc)->Ok_0,
    decreases files.len() - i,
{
    if i < files.len() {
        assert(as_layers(files)[i] == as_layer(files[i]));
        match files[i].contents {
            Ok(contents) => match policy::local_layer(text::lines(contents)) {
                Some(entries) => {
                    lemma_strict_locals(files, i + 1, acc.union(entries));
                },
                None => {},
            },
            Err(_) => {},
        }
    }
}

/// What the proxy starts with is what it decides by: the policy that passes at startup is the policy
/// that is read later from the same files, and it comes without a warning. What gives a warning later
/// does not pass at startup.
pub proof fn what_passes_at_startup_decides_later(files: Seq<StrictModel>, mode: StrictModel)
    ensures
        reader::strict_public(files, mode) is Ok <==> (policy::public_snapshot(
            as_layers(files),
            as_layer(mode),
        ) matches Ok((_, warning)) && warning is None),
        reader::strict_public(files, mode) matches Ok(s) ==> policy::public_snapshot(
            as_layers(files),
            as_layer(mode),
        ) == Ok::<(SnapshotModel, Option<Seq<char>>), Seq<char>>((s, None)),
        reader::strict_locals_from(files, 0, Set::empty()) is Ok <==> policy::local_snapshot(
            as_layers(files),
        ) is Ok,
        reader::strict_locals_from(files, 0, Set::empty()) is Ok ==> policy::local_snapshot(
            as_layers(files),
        )->Ok_0.local == reader::strict_locals_from(files, 0, Set::empty())->Ok_0,
{
    lemma_strict_domains(files, 0, Set::empty());
    lemma_strict_locals(files, 0, Set::empty());
}

/// A connection is kept for less than its lifetime: from the moment on that it was idle for all of it,
/// it is dead. A clock that went back kills nothing.
pub proof fn a_connection_lives_for_its_lifetime(idle_since: u64, lifetime: u64, now: u64)
    ensures
        pool::is_live(idle_since, lifetime, now) <==> now < idle_since + lifetime || now < idle_since,
{
}

/// The startup goes through its steps in order, and local routing adds the local policy behind the
/// public one and the broker behind the listener. Each step that fails has its own words.
pub proof fn a_startup_goes_in_order(local: bool)
    ensures
        startup::after(Stage::PublicPolicy, true) == Progress::Take(Stage::LocalPolicy),
        startup::after(Stage::PublicPolicy, false) == Progress::Take(Stage::DenialLog),
        startup::after(Stage::LocalPolicy, local) == Progress::Take(Stage::DenialLog),
        startup::after(Stage::DenialLog, local) == Progress::Take(Stage::Bind),
        startup::after(Stage::Bind, true) == Progress::Take(Stage::BrokerToken),
        startup::after(Stage::Bind, false) is Serve,
        startup::after(Stage::BrokerToken, local) == Progress::Take(Stage::BrokerReady),
        startup::after(Stage::BrokerReady, local) is Serve,
        startup::startup_text(StartupError::PublicPolicy) == octets::octets(
            "startup_public_policy_invalid"@,
        ),
        startup::startup_text(StartupError::LocalPolicy) == octets::octets(
            "startup_local_policy_invalid"@,
        ),
        startup::startup_text(StartupError::DenialLog) == octets::octets(
            "startup_denial_log_unavailable"@,
        ),
        startup::startup_text(StartupError::BrokerToken) == octets::octets(
            "startup_broker_token_invalid"@,
        ),
        startup::startup_text(StartupError::BrokerReady) == octets::octets(
            "startup_broker_readiness_failed"@,
        ),
        startup::startup_text(StartupError::Bind(BindFailure::AddressInUse)) == octets::octets(
            "startup_listener_bind_failed:"@,
        ) + octets::octets("address_in_use"@),
        startup::startup_text(StartupError::Bind(BindFailure::AddressUnavailable))
            == octets::octets("startup_listener_bind_failed:"@) + octets::octets(
            "address_unavailable"@,
        ),
        startup::startup_text(StartupError::Bind(BindFailure::PermissionDenied)) == octets::octets(
            "startup_listener_bind_failed:"@,
        ) + octets::octets("permission_denied"@),
        startup::startup_text(StartupError::Bind(BindFailure::Other)) == octets::octets(
            "startup_listener_bind_failed:"@,
        ) + octets::octets("io_error"@),
{
}

/// A shutdown stops a startup at any step, a failure fails it for that step, and what is over stays
/// over.
pub proof fn a_startup_ends_where_it_fails(
    stage: Stage,
    local: bool,
    failure: BindFailure,
    event: StageEvent,
    error: StartupError,
)
    ensures
        startup::progressed(Progress::Take(stage), local, StageEvent::Shutdown) is Stopped,
        startup::progressed(Progress::Take(Stage::Bind), local, StageEvent::BindFailed(failure))
            == Progress::Failed(StartupError::Bind(failure)),
        startup::progressed(Progress::Take(Stage::PublicPolicy), local, StageEvent::Failed)
            == Progress::Failed(StartupError::PublicPolicy),
        startup::progressed(Progress::Take(Stage::LocalPolicy), local, StageEvent::Failed)
            == Progress::Failed(StartupError::LocalPolicy),
        startup::progressed(Progress::Take(Stage::DenialLog), local, StageEvent::Failed)
            == Progress::Failed(StartupError::DenialLog),
        startup::progressed(Progress::Take(Stage::BrokerToken), local, StageEvent::Failed)
            == Progress::Failed(StartupError::BrokerToken),
        startup::progressed(Progress::Take(Stage::BrokerReady), local, StageEvent::Failed)
            == Progress::Failed(StartupError::BrokerReady),
        startup::progressed(Progress::Stopped, local, event) is Stopped,
        startup::progressed(Progress::Serve, local, event) is Serve,
        startup::progressed(Progress::Failed(error), local, event) == Progress::Failed(error),
{
}

/// The listener serves 64 connections at a time and closes the next one at once; each that ends makes
/// room for one.
pub proof fn the_listener_counts_its_connections(active: nat)
    requires
        active <= 64,
    ensures
        listener::serve_action(active, ServeEvent::Accepted) == (if active < 64 {
            ServeAction::Serve
        } else {
            ServeAction::Close
        }),
        active < 64 ==> listener::served_after(
            listener::served_after(active, ServeEvent::Accepted),
            ServeEvent::Ended,
        ) == active,
        listener::served_after(64, ServeEvent::Accepted) == 64,
        active > 0 ==> listener::served_after(active, ServeEvent::Ended) == active - 1,
        listener::serve_action(active, ServeEvent::Shutdown) is Stop,
        listener::serve_action(active, ServeEvent::AcceptFailed) is Fail,
        listener::serve_action(active, ServeEvent::Ended) is Continue,
{
}

/// A task that was told to end may be cut off; any other that is cut off, and any that panics, failed
/// to join.
pub proof fn only_an_aborted_task_may_be_cut_off(aborted: bool)
    ensures
        listener::task_outcome(TaskResult::Completed, aborted) is Completed,
        listener::task_outcome(TaskResult::Failed, aborted) is Failed,
        listener::task_outcome(TaskResult::Panicked, aborted) is JoinFailed,
        listener::task_outcome(TaskResult::Cancelled, true) is Aborted,
        listener::task_outcome(TaskResult::Cancelled, false) is JoinFailed,
{
}

/// A direction of a tunnel writes what it has before it reads on, and tells the other side of the end
/// only once everything is written.
pub proof fn a_direction_writes_before_it_reads(d: DirectionModel)
    ensures
        relay::copy_action(d) is Read <==> !d.finished && d.pending.len() == 0 && !d.ended,
        relay::copy_action(d) is Write <==> !d.finished && d.pending.len() > 0,
        relay::copy_action(d) is Finish <==> !d.finished && d.pending.len() == 0 && d.ended,
        relay::copy_action(d) is Done <==> d.finished,
{
}

/// A response that switches protocols does not go on, and to an HTTP/1.0 client neither does a body
/// in a coding that cannot be told there. Chunks alone are taken apart.
pub proof fn only_what_a_client_understands_goes_on(client: HttpVersion, response: OriginHeadModel)
    ensures
        response.status == 101 ==> forward::unforwardable(client, response),
        client == HttpVersion::Http11 && response.status != 101 ==> !forward::unforwardable(
            client,
            response,
        ),
        response.status != 101 && response.framing == OriginBodyFraming::NoBody
            ==> !forward::unforwardable(client, response),
        response.status != 101 && (response.transfer_coding == OriginTransferCoding::Absent
            || response.transfer_coding == (OriginTransferCoding::FinalChunked { has_prior: false }))
            ==> !forward::unforwardable(client, response),
        client == HttpVersion::Http10 && response.framing != OriginBodyFraming::NoBody && (
        response.transfer_coding == OriginTransferCoding::FinalNonChunked
            || response.transfer_coding == (OriginTransferCoding::FinalChunked { has_prior: true }))
            ==> forward::unforwardable(client, response),
{
}

/// A client finds the end of what is relayed by chunks or by a length, and else by the end of the
/// connection. Without a body there is nothing to find.
pub proof fn a_client_finds_the_end_of_a_body(headers: Fields, carried: bool)
    ensures
        ({
            let coded = fields::has(headers, octets::octets("transfer-encoding"@));
            let counted = fields::has(headers, octets::octets("content-length"@));
            let form = streaming::body_form(headers, carried);
            &&& form.chunked <==> carried && coded
            &&& form.delimited <==> !carried || coded || counted
        }),
{
    crate::laws::responses::lemma_message_keys();
}

/// A local origin shows its certificate for the address that was asked for, or for `localhost`.
pub proof fn a_local_origin_is_known_by_its_address(o: Seq<u8>)
    ensures
        tls::identity_of(LoopbackHostModel::Ipv4(o)) == Some(IpModel::V4(o)),
        tls::identity_of(LoopbackHostModel::Ipv6Loopback) == Some(
            IpModel::V6(seq![0u16, 0u16, 0u16, 0u16, 0u16, 0u16, 0u16, 1u16]),
        ),
        tls::identity_of(LoopbackHostModel::Localhost) is None,
        tls::local_name(LoopbackHostModel::Localhost) == "localhost"@,
        tls::local_name(LoopbackHostModel::Ipv6Loopback) == "::1"@,
        tls::local_name(LoopbackHostModel::Ipv4(o)) == octets::ascii_chars(ip::ipv4_text(o)),
{
    assert(tls::loopback_groups() =~= seq![0u16, 0u16, 0u16, 0u16, 0u16, 0u16, 0u16, 1u16]);
}

/// An octet of a dotted quad is written without zeros in front and is at most 255.
pub proof fn an_octet_has_no_zeros_in_front(n: nat, s: Seq<u8>)
    ensures
        ip::octet_value(octets::digits_of(n)) == (if n <= 255 {
            Some(n as u8)
        } else {
            None
        }),
        s.len() > 0 ==> ip::octet_value(seq!['0' as u8] + s) is None,
        ip::octet_value(s) is Some ==> s.len() > 0 && octets::all_digits(s),
{
    octets::lemma_digits_of(n);
    octets::lemma_digits_len(n);
    if n >= 10 {
        lemma_first_digit(n);
    }
    if s.len() > 0 {
        assert((seq![48u8] + s)[0] == 48);
    }
}

proof fn lemma_first_digit(n: nat)
    requires
        n >= 1,
    ensures
        octets::digits_of(n)[0] != 48,
    decreases n,
{
    if n >= 10 {
        lemma_first_digit(n / 10);
        octets::lemma_digits_of(n / 10);
        assert(octets::digits_of(n)[0] == octets::digits_of(n / 10)[0]);
    }
}

} // verus!
