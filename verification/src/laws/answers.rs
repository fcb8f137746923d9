//! What the proxy itself answers.
use crate::connect::broker;
use crate::connect::broker::{BrokerError, ResponseStep};
use crate::connect::forward::{ForwardError, ForwardErrorKind};
use crate::connect::public::PublicConnectError;
use crate::diagnostics::Health;
use crate::domain::policy::Mode;
use crate::domain::target;
use crate::domain::target::HostModel;
use crate::fields;
use crate::fields::Fields;
use crate::headers;
use crate::octets;
use crate::server::response;
use crate::server::response::{FailureModel, ProxyResponse};
use crate::server::router;
use crate::server::router::{DirectReading, Http1Outcome, Reply};
use vstd::prelude::*;
use vstd::utf8::*;

verus! {

/// The four names that the proxy's own answers use are different names.
proof fn lemma_own_names()
    ensures
        octets::octets("content-type"@).len() == 12,
        octets::octets("content-length"@).len() == 14,
        octets::octets("connection"@).len() == 10,
        octets::octets("allow"@).len() == 5,
{
    reveal_strlit("content-type");
    reveal_strlit("content-length");
    reveal_strlit("connection");
    reveal_strlit("allow");
    is_ascii_chars_encode_utf8("content-type"@);
    is_ascii_chars_encode_utf8("content-length"@);
    is_ascii_chars_encode_utf8("connection"@);
    is_ascii_chars_encode_utf8("allow"@);
}

/// The status tells whose fault a failure is: 4xx is the client's, 403 is the policy's, 431 is a head
/// that is too large; 502, 503 and 504 are an origin that answers wrongly, a proxy that cannot, and
/// time that ran out.
pub proof fn a_status_tells_whose_fault_it_is(f: FailureModel)
    ensures
        response::failure_status(f) == 403 <==> f is PublicDenied || f is LocalDenied,
        response::failure_status(f) == 400 <==> f is BadRequest || f is HttpsRequiresConnect,
        response::failure_status(f) == 431 <==> f is HeadersTooLarge,
        response::failure_status(f) == 502 <==> f is BadGateway,
        response::failure_status(f) == 503 <==> f is ServiceUnavailable || f is ReportLogUnavailable,
        response::failure_status(f) == 504 <==> f is GatewayTimeout,
{
}

/// A denial names the destination between its own words and a line feed, and names the kind of
/// policy; every other failure has its fixed words.
pub proof fn a_denial_names_its_destination(host: Seq<u8>)
    ensures
        response::failure_text(FailureModel::PublicDenied(host)) == octets::octets(
            "blocked by vhrn egress policy: "@,
        ) + host + octets::octets("\n"@),
        response::failure_text(FailureModel::LocalDenied(host)) == octets::octets(
            "blocked by vhrn local policy: "@,
        ) + host + octets::octets("\n"@),
        response::failure_text(FailureModel::BadRequest) == octets::octets("bad request\n"@),
        response::failure_text(FailureModel::HeadersTooLarge) == octets::octets(
            "request header fields too large\n"@,
        ),
        response::failure_text(FailureModel::HttpsRequiresConnect) == octets::octets(
            "HTTPS requires CONNECT\n"@,
        ),
        response::failure_text(FailureModel::ServiceUnavailable) == octets::octets(
            "proxy temporarily unavailable\n"@,
        ),
        response::failure_text(FailureModel::ReportLogUnavailable) == response::failure_text(
            FailureModel::ServiceUnavailable,
        ),
        response::failure_text(FailureModel::BadGateway) == octets::octets("bad gateway\n"@),
        response::failure_text(FailureModel::GatewayTimeout) == octets::octets("gateway timeout\n"@),
{
}

/// A failure is plain text of the announced length. Its connection ends unless it is a denial or the
/// origin's fault. A HEAD request gets the same fields without the text.
pub proof fn a_failure_is_a_complete_answer(r: ProxyResponse, f: FailureModel, head: bool)
    requires
        response::is_failure_response(r, f, head),
    ensures
        ({
            let h = fields::contents(r.headers);
            let text = response::bounded_text(response::failure_text(f));
            &&& r.status == response::failure_status(f)
            &&& fields::values_of(h, octets::octets("content-type"@)) == seq![
                octets::octets("text/plain; charset=utf-8"@),
            ]
            &&& fields::values_of(h, octets::octets("content-length"@)) == seq![
                octets::digits_of(text.len()),
            ]
            &&& fields::values_of(h, octets::octets("connection"@)) == (if f is PublicDenied
                || f is LocalDenied || f is BadGateway || f is GatewayTimeout {
                Seq::<Seq<u8>>::empty()
            } else {
                seq![octets::octets("close"@)]
            })
            &&& head ==> r.body@.len() == 0
            &&& !head ==> r.body@ == text
        }),
{
    lemma_own_names();
    let h = fields::contents(r.headers);
    let none = fields::no_fields();
    assert(Seq::<Seq<u8>>::empty().push(octets::octets("close"@)) =~= seq![octets::octets("close"@)]);
    let text = response::bounded_text(response::failure_text(f));
    assert(Seq::<Seq<u8>>::empty().push(octets::digits_of(text.len())) =~= seq![
        octets::digits_of(text.len()),
    ]);
    assert(Seq::<Seq<u8>>::empty().push(octets::octets("text/plain; charset=utf-8"@)) =~= seq![
        octets::octets("text/plain; charset=utf-8"@),
    ]);
}

/// The text of a failure is sent as it is where it is one line of at most 1024 octets.
pub proof fn a_bounded_line_is_sent_as_it_is(s: Seq<u8>)
    ensures
        1 <= s.len() <= 1024 && s.last() == 10 && (forall|i: int|
            0 <= i < s.len() - 1 ==> #[trigger] s[i] != 10 && s[i] != 13) ==> response::bounded_text(
            s,
        ) == s,
        s.len() > 1024 ==> response::bounded_text(s) == octets::octets("proxy error\n"@),
{
}

/// What the proxy says of itself: its health and its mode to a reader, that other methods are not
/// allowed there, and that there is nothing else.
pub proof fn the_proxy_answers_for_itself(
    method: Seq<u8>,
    path: Seq<u8>,
    health: Health,
    mode: Option<Mode>,
)
    ensures
        ({
            let a = router::direct_answer(method, path, health, mode);
            let get = octets::octets("GET"@);
            let head = octets::octets("HEAD"@);
            let reads = method == get || method == head;
            let healthz = path == octets::octets("/healthz"@);
            let status = path == octets::octets("/__status"@);
            &&& !healthz && !status ==> a.status == 404 && a.text == octets::octets(
                "404 page not found\n"@,
            ) && a.body == (method != head) && !a.allow
            &&& (healthz || status) && !reads ==> a.status == 405 && a.allow && a.body && a.text
                == octets::octets("method not allowed\n"@)
            &&& healthz && reads && health == Health::Healthy ==> a.status == 200 && a.text
                == octets::octets("ok\n"@) && a.body == (method == get) && !a.allow
            &&& healthz && reads && health == Health::Unhealthy ==> a.status == 503 && a.text
                == octets::octets("unhealthy\n"@) && a.body == (method == get) && !a.allow
            &&& status && !healthz && reads ==> a.status == (if mode is Some {
                200u16
            } else {
                503u16
            }) && a.body == (method == get) && !a.allow && a.kind == octets::octets(
                "application/json"@,
            ) && a.text == octets::octets("{\"mode\":\""@) + octets::octets(
                match mode {
                    Some(Mode::Report) => "report"@,
                    Some(Mode::Open) => "open"@,
                    _ => "enforce"@,
                },
            ) + octets::octets("\"}\n"@)
            &&& !status ==> a.kind == octets::octets("text/plain; charset=utf-8"@)
        }),
{
    reveal_strlit("GET");
    reveal_strlit("HEAD");
    is_ascii_chars_encode_utf8("GET"@);
    is_ascii_chars_encode_utf8("HEAD"@);
    assert(octets::octets("GET"@).len() == 3);
    assert(octets::octets("HEAD"@).len() == 4);
}

/// A reader of the health or of the mode makes the proxy look at the one or the other, and nothing
/// else does.
pub proof fn only_a_reader_makes_the_proxy_look(method: Seq<u8>, path: Seq<u8>)
    ensures
        ({
            let reads = method == octets::octets("GET"@) || method == octets::octets("HEAD"@);
            &&& router::reading_for(method, path) == DirectReading::Health <==> reads && path
                == octets::octets("/healthz"@)
            &&& router::reading_for(method, path) == DirectReading::Mode <==> reads && path
                == octets::octets("/__status"@) && path != octets::octets("/healthz"@)
        }),
{
}

/// The status page tells a mode only by its exact name, with or without one line feed.
pub proof fn the_status_page_reads_exact_names(bytes: Seq<u8>)
    ensures
        router::status_mode_of(bytes) == Some(Mode::Open) <==> bytes == octets::octets("open"@)
            || bytes == octets::octets("open\n"@),
        router::status_mode_of(bytes) == Some(Mode::Report) <==> bytes == octets::octets("report"@)
            || bytes == octets::octets("report\n"@),
        router::status_mode_of(bytes) == Some(Mode::Enforce) <==> bytes == octets::octets(
            "enforce"@,
        ) || bytes == octets::octets("enforce\n"@),
{
    reveal_strlit("open");
    reveal_strlit("open\n");
    reveal_strlit("report");
    reveal_strlit("report\n");
    reveal_strlit("enforce");
    reveal_strlit("enforce\n");
    is_ascii_chars_encode_utf8("open"@);
    is_ascii_chars_encode_utf8("open\n"@);
    is_ascii_chars_encode_utf8("report"@);
    is_ascii_chars_encode_utf8("report\n"@);
    is_ascii_chars_encode_utf8("enforce"@);
    is_ascii_chars_encode_utf8("enforce\n"@);
    assert(octets::octets("open"@).len() == 4);
    assert(octets::octets("open\n"@).len() == 5);
    assert(octets::octets("report"@).len() == 6);
    assert(octets::octets("report\n"@).len() == 7);
    assert(octets::octets("enforce"@).len() == 7);
    assert(octets::octets("enforce\n"@).len() == 8);
    assert(octets::octets("report\n"@)[6] == 10);
    assert(octets::octets("enforce"@)[6] == 101);
}

/// What stands behind a connection that failed is told apart: a policy denial is answered as one and
/// names the host, running out of time is a timeout, giving up is unavailability, and anything else
/// is the origin's fault.
pub proof fn a_failed_connection_is_answered_in_kind(host: HostModel)
    ensures
        router::public_failure_of(PublicConnectError::PolicyDenied, host)
            == FailureModel::PublicDenied(target::host_text(host)),
        router::public_failure_of(PublicConnectError::DeadlineExceeded, host) is GatewayTimeout,
        router::public_failure_of(PublicConnectError::Cancelled, host) is ServiceUnavailable,
        router::public_failure_of(PublicConnectError::Exhausted, host) is ServiceUnavailable,
        router::public_failure_of(PublicConnectError::Unavailable, host) is BadGateway,
        router::broker_failure_of(BrokerError::DeadlineExceeded) is GatewayTimeout,
        router::broker_failure_of(BrokerError::Cancelled) is ServiceUnavailable,
        router::broker_failure_of(BrokerError::Exhausted) is ServiceUnavailable,
        router::broker_failure_of(BrokerError::Rejected) is BadGateway,
        router::broker_failure_of(BrokerError::Unavailable) is BadGateway,
        router::broker_failure_of(BrokerError::OriginFailure) is BadGateway,
{
}

/// A connection is used again behind a failed exchange only where the request was sent in full and
/// nobody gave up.
pub proof fn a_failed_exchange_frees_the_connection(o: Http1Outcome, error: ForwardError, head: bool)
    requires
        router::is_exchange_failure(o, error, head),
    ensures
        o.reusable <==> error.request_complete && error.kind != ForwardErrorKind::Cancelled
            && error.kind != ForwardErrorKind::ClientDisconnected,
        o.body_consumed == error.request_complete,
        o.reply matches Reply::Own(r) && r.status == (match error.kind {
            ForwardErrorKind::BadRequest => 400u16,
            ForwardErrorKind::BadGateway => 502u16,
            _ => 503u16,
        }),
{
}

/// A tunnel request may announce no body and wait for nothing.
pub proof fn a_tunnel_request_has_no_body(f: Fields)
    ensures
        router::is_framed(f) <==> fields::has(f, octets::octets("transfer-encoding"@)) || fields::has(
            f,
            octets::octets("content-length"@),
        ) || fields::has(f, octets::octets("expect"@)),
{
    crate::laws::responses::lemma_message_keys();
}

/// The broker says yes by `OK` on a line; the octet that came along with it, if any, belongs to the
/// stream. As long as that line may still come, more is read; anything else is a refusal.
pub proof fn the_broker_says_yes_by_its_line(rest: Seq<u8>, received: Seq<u8>)
    ensures
        broker::response_of(seq![79u8, 75u8, 10u8] + rest) == ResponseStep::Accepted(
            if rest.len() > 0 {
                Some(rest[0])
            } else {
                None
            },
        ),
        received.len() >= 4 && received.subrange(0, 3) != seq![79u8, 75u8, 10u8]
            ==> broker::response_of(received) is Rejected,
        received.len() < 3 ==> broker::response_of(received) is NeedInput,
        received.len() == 3 && received != seq![79u8, 75u8, 10u8] && received != seq![
            78u8,
            79u8,
            10u8,
        ] ==> broker::response_of(received) is NeedInput,
        broker::response_of(seq![78u8, 79u8, 10u8]) is Rejected,
{
    reveal_strlit("OK\n");
    reveal_strlit("ERR\n");
    reveal_strlit("NO\n");
    is_ascii_chars_encode_utf8("OK\n"@);
    is_ascii_chars_encode_utf8("ERR\n"@);
    is_ascii_chars_encode_utf8("NO\n"@);
    let ok = octets::octets("OK\n"@);
    assert(ok =~= seq![79u8, 75u8, 10u8]);
    assert(octets::octets("NO\n"@) =~= seq![78u8, 79u8, 10u8]);
    assert(octets::octets("ERR\n"@).len() == 4);
    let s = seq![79u8, 75u8, 10u8] + rest;
    assert(s.subrange(0, 3) =~= ok);
    if rest.len() > 0 {
        assert(s[3] == rest[0]);
    }
    if received.len() == 3 {
        assert(received.subrange(0, 3) =~= received);
    }
    let no = seq![78u8, 79u8, 10u8];
    assert(no.subrange(0, 3) =~= no);
    assert(no[0] != ok[0]);
}

} // verus!
