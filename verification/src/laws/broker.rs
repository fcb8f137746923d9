//! Credentials, broker frames, and who may go where.
use crate::boundary;
use crate::boundary::{BrokerFrameError, RequestModel};
use crate::connect::broker;
use crate::diagnostics::AuditResult;
use crate::domain::policy;
use crate::domain::policy::{Mode, PublicDecision};
use crate::domain::target;
use crate::fields;
use crate::octets;
use crate::server::http1;
use crate::server::response::FailureModel;
use crate::server::router;
use crate::server::router::{AuthorizedModel, RouteModel};
use crate::text;
use vstd::prelude::*;
use vstd::utf8::*;

verus! {

/// A credential is 64 digits of a hexadecimal number in lower case, and every such text is one.
pub proof fn a_credential_is_lower_hexadecimal(s: Seq<u8>)
    ensures
        boundary::is_broker_token(s) <==> s.len() == 64 && forall|i: int|
            0 <= i < 64 ==> (48 <= #[trigger] s[i] <= 57 || 97 <= s[i] <= 102),
{
}

/// A text with a separator is its first piece, the separator, and the rest with the other pieces.
proof fn lemma_first_piece(s: Seq<u8>, sep: u8)
    ensures
        octets::pieces(s, sep).len() >= 1,
        octets::pieces(s, sep).len() == 1 ==> s == octets::pieces(s, sep)[0],
        octets::pieces(s, sep).len() > 1 ==> {
            let first = octets::pieces(s, sep)[0];
            let rest = s.skip(first.len() as int + 1);
            s == first.push(sep) + rest && octets::pieces(rest, sep) == octets::pieces(
                s,
                sep,
            ).drop_first()
        },
{
    let at = octets::first_at(s, sep, 0);
    octets::lemma_first_at(s, sep, 0);
    if 0 <= at < s.len() {
        let first = s.subrange(0, at);
        let rest = s.subrange(at + 1, s.len() as int);
        assert(octets::pieces(s, sep)[0] == first);
        assert(s.skip(at + 1) =~= rest);
        assert(s =~= first.push(sep) + rest);
        assert(octets::pieces(s, sep).drop_first() =~= octets::pieces(rest, sep));
        lemma_some_piece(rest, sep);
    }
}

proof fn lemma_some_piece(s: Seq<u8>, sep: u8)
    ensures
        octets::pieces(s, sep).len() >= 1,
    decreases s.len(),
{
    let at = octets::first_at(s, sep, 0);
    if 0 <= at < s.len() {
        lemma_some_piece(s.subrange(at + 1, s.len() as int), sep);
    }
}

proof fn lemma_frame_texts()
    ensures
        octets::octets("VHRN-BROKER/1 READY "@) == octets::octets("VHRN-BROKER/1"@).push(32u8)
            + octets::octets("READY"@).push(32u8),
        octets::octets("VHRN-BROKER/1 CONNECT "@) == octets::octets("VHRN-BROKER/1"@).push(32u8)
            + octets::octets("CONNECT"@).push(32u8),
        octets::octets(" "@) == seq![32u8],
        octets::octets("\n"@) == seq![10u8],
{
    reveal_strlit("VHRN-BROKER/1 READY ");
    reveal_strlit("VHRN-BROKER/1 CONNECT ");
    reveal_strlit("VHRN-BROKER/1");
    reveal_strlit("READY");
    reveal_strlit("CONNECT");
    reveal_strlit(" ");
    reveal_strlit("\n");
    is_ascii_chars_encode_utf8("VHRN-BROKER/1 READY "@);
    is_ascii_chars_encode_utf8("VHRN-BROKER/1 CONNECT "@);
    is_ascii_chars_encode_utf8("VHRN-BROKER/1"@);
    is_ascii_chars_encode_utf8("READY"@);
    is_ascii_chars_encode_utf8("CONNECT"@);
    is_ascii_chars_encode_utf8(" "@);
    is_ascii_chars_encode_utf8("\n"@);
    assert(octets::octets("VHRN-BROKER/1 READY "@) =~= octets::octets("VHRN-BROKER/1"@).push(32u8)
        + octets::octets("READY"@).push(32u8));
    assert(octets::octets("VHRN-BROKER/1 CONNECT "@) =~= octets::octets("VHRN-BROKER/1"@).push(32u8)
        + octets::octets("CONNECT"@).push(32u8));
    assert(octets::octets(" "@) =~= seq![32u8]);
    assert(octets::octets("\n"@) =~= seq![10u8]);
}

/// A broker takes a request in one spelling only: the protocol, what is asked for, the credential,
/// and for a stream the canonical authority, with single spaces between them and one line feed at
/// the end, in at most 256 octets.
pub proof fn a_frame_has_one_spelling(frame: Seq<u8>)
    ensures
        match boundary::request_of(frame) {
            Ok(RequestModel::Ready(token)) => {
                &&& boundary::is_broker_token(token)
                &&& frame.len() <= 256
                &&& frame == octets::octets("VHRN-BROKER/1 READY "@) + token + octets::octets("\n"@)
            },
            Ok(RequestModel::Connect { token, authority }) => {
                &&& boundary::is_broker_token(token)
                &&& frame.len() <= 256
                &&& frame == octets::octets("VHRN-BROKER/1 CONNECT "@) + token + octets::octets(
                    " "@,
                ) + target::loopback_text(authority) + octets::octets("\n"@)
            },
            Err(BrokerFrameError::Oversized) => frame.len() > 256,
            Err(BrokerFrameError::Malformed) => frame.len() <= 256,
        },
        frame.len() > 256 ==> boundary::request_of(frame) is Err,
{
    if boundary::request_of(frame) is Ok {
        let line = frame.drop_last();
        let sep = ' ' as u8;
        let p = octets::pieces(line, sep);
        let second = line.skip(p[0].len() as int + 1);
        let third = second.skip(p[1].len() as int + 1);
        lemma_frame_texts();
        lemma_first_piece(line, sep);
        lemma_first_piece(second, sep);
        lemma_first_piece(third, sep);
        assert(p.drop_first()[0] == p[1]);
        assert(p.drop_first().drop_first()[0] == p[2]);
        assert(frame =~= line.push(10u8));
        match boundary::request_of(frame)->Ok_0 {
            RequestModel::Ready(token) => {
                assert(p[2] == token);
                assert(third == token);
                assert(frame =~= octets::octets("VHRN-BROKER/1 READY "@) + token + octets::octets(
                    "\n"@,
                ));
            },
            RequestModel::Connect { token, authority } => {
                let fourth = third.skip(p[2].len() as int + 1);
                lemma_first_piece(fourth, sep);
                assert(p.drop_first().drop_first().drop_first()[0] == p[3]);
                assert(fourth == target::loopback_text(authority));
                assert(frame =~= octets::octets("VHRN-BROKER/1 CONNECT "@) + token + octets::octets(
                    " "@,
                ) + target::loopback_text(authority) + octets::octets("\n"@));
            },
        }
    }
}

/// What the proxy sends to a broker is what the broker takes: the frame in its one spelling.
pub proof fn a_sent_frame_is_the_one_that_is_taken(
    token: Seq<u8>,
    authority: target::LoopbackModel,
)
    requires
        boundary::is_broker_token(token),
        target::is_loopback(authority),
    ensures
        broker::ready_wire(token) == octets::octets("VHRN-BROKER/1 READY "@) + token
            + octets::octets("\n"@),
        boundary::request_of(broker::ready_wire(token)) == Ok::<RequestModel, BrokerFrameError>(
            RequestModel::Ready(token),
        ),
        broker::connect_wire(token, authority) == octets::octets("VHRN-BROKER/1 CONNECT "@) + token
            + octets::octets(" "@) + target::loopback_text(authority) + octets::octets("\n"@),
        boundary::request_of(broker::connect_wire(token, authority)) == Ok::<
            RequestModel,
            BrokerFrameError,
        >(RequestModel::Connect { token, authority }),
{
    broker::ready_frame_reads_back(token);
    broker::connect_frame_reads_back(token, authority);
}

/// A diagnostic shows of a request what it is and where it goes, and in place of the credential that
/// one was there.
pub proof fn a_shown_request_hides_its_credential(token: Seq<u8>, port: u16)
    ensures
        boundary::request_debug(RequestModel::Ready(token)) == octets::octets(
            "Ready(BrokerToken([REDACTED]))"@,
        ),
        boundary::request_debug(
            RequestModel::Connect {
                token,
                authority: target::LoopbackModel {
                    host: target::LoopbackHostModel::Localhost,
                    port,
                },
            },
        ) == octets::octets("Connect { token: BrokerToken([REDACTED]), authority: "@) + (
        octets::octets("LoopbackAuthority { host: "@) + octets::octets("Localhost"@)
            + octets::octets(", port: "@) + octets::digits_of(port as nat) + octets::octets(" }"@))
            + octets::octets(" }"@),
{
}

/// A local request goes on where it is granted and nowhere else, and keeps its destination and its
/// path. A refusal names the destination.
pub proof fn a_local_request_needs_its_grant(
    local: target::LocalModel,
    connect: bool,
    granted: bool,
)
    ensures
        router::local_route(local, connect, granted) == (if !granted {
            Err::<RouteModel, FailureModel>(
                FailureModel::LocalDenied(target::loopback_text(local.authority)),
            )
        } else if connect {
            Ok(RouteModel::LocalConnect(local))
        } else {
            Ok(RouteModel::LocalHttp(local))
        }),
        !router::local_granted(None, local.authority),
{
}

/// A public request that the policy lets pass goes on to the host that was asked for, under the mode
/// that let it pass. It is stopped only where its denial had to be recorded and could not be.
pub proof fn what_the_policy_lets_pass_goes_on(
    public: target::PublicModel,
    connect: bool,
    decision: PublicDecision,
    audit: AuditResult,
)
    requires
        decision.allowed,
    ensures
        ({
            let sent = AuthorizedModel {
                target: public,
                effective_mode: decision.mode,
                already_audited: decision.record_denial,
            };
            let r = router::public_route(public, connect, Some(decision), audit);
            if decision.record_denial && audit == AuditResult::AppendFailed {
                r == Err::<RouteModel, FailureModel>(FailureModel::ReportLogUnavailable)
            } else if connect {
                r == Ok::<RouteModel, FailureModel>(RouteModel::PublicConnect(sent))
            } else {
                r == Ok::<RouteModel, FailureModel>(RouteModel::PublicHttp(sent))
            }
        }),
        router::public_audit(Some(decision)) == (if decision.record_denial {
            Some(decision.mode)
        } else {
            None
        }),
{
}

/// What the policy does not let pass is refused and recorded.
pub proof fn what_the_policy_stops_is_recorded(
    public: target::PublicModel,
    connect: bool,
    decision: PublicDecision,
    audit: AuditResult,
)
    requires
        !decision.allowed,
    ensures
        router::public_route(public, connect, Some(decision), audit) == Err::<
            RouteModel,
            FailureModel,
        >(FailureModel::PublicDenied(target::host_text(public.host))),
        router::public_audit(Some(decision)) == Some(decision.mode),
{
}

/// A host that is granted passes in every mode, and leaves no record. Another one is stopped in
/// enforce mode, passes with a record in report mode, and passes without one in open mode.
pub proof fn a_mode_decides_for_what_is_not_granted(mode: Mode)
    ensures
        policy::decision_for(mode, true) == (PublicDecision {
            allowed: true,
            record_denial: false,
            mode,
        }),
        policy::decision_for(Mode::Enforce, false) == (PublicDecision {
            allowed: false,
            record_denial: true,
            mode: Mode::Enforce,
        }),
        policy::decision_for(Mode::Report, false) == (PublicDecision {
            allowed: true,
            record_denial: true,
            mode: Mode::Report,
        }),
        policy::decision_for(Mode::Open, false) == (PublicDecision {
            allowed: true,
            record_denial: false,
            mode: Mode::Open,
        }),
{
}

/// The value of a parameter is a token, or stands between quotes. Between quotes a quote or a
/// backslash needs a backslash before it.
pub proof fn a_parameter_value_is_a_token_or_quoted(v: Seq<u8>, q: Seq<u8>)
    requires
        forall|i: int|
            0 <= i < q.len() ==> (#[trigger] q[i] == 9 || q[i] >= 32) && q[i] != 127 && q[i] != 34
                && q[i] != 92,
    ensures
        fields::is_token(v) ==> http1::is_parameter_value(v),
        http1::is_parameter_value(seq![34u8] + q + seq![34u8]),
        http1::is_parameter_value(seq![34u8] + (q + seq![92u8, 34u8]) + seq![34u8]),
        !http1::is_parameter_value(seq![34u8] + (q + seq![34u8]) + seq![34u8]),
        !http1::is_parameter_value(seq![34u8] + (q + seq![92u8]) + seq![34u8]),
        !http1::is_parameter_value(seq![34u8] + q),
        http1::is_parameter_value(v) && !fields::is_token(v) ==> v.len() >= 2 && v[0] == 34
            && v.last() == 34,
{
    lemma_inside(q, q, 0);
    let escaped = q + seq![92u8, 34u8];
    let broken = q + seq![34u8];
    let open = q + seq![92u8];
    lemma_inside(escaped, q, 0);
    lemma_inside(broken, q, 0);
    lemma_inside(open, q, 0);
    let n = q.len() as int;
    assert(escaped[n] == 92 && escaped[n + 1] == 34);
    assert(!http1::quoted_inside(escaped, n + 2, true));
    assert(http1::quoted_inside(escaped, n + 2, false));
    assert(http1::quoted_inside(escaped, n + 1, true));
    assert(http1::quoted_inside(escaped, n, false));
    assert(!http1::quoted_inside(broken, n, false)) by {
        assert(broken[n] == 34);
    }
    assert(!http1::quoted_inside(open, n, false)) by {
        assert(open[n] == 92);
        assert(!http1::quoted_inside(open, n + 1, true));
    }
    lemma_quotes(q);
    lemma_quotes(escaped);
    lemma_quotes(broken);
    lemma_quotes(open);
    let half = seq![34u8] + q;
    assert(half[0] == 34);
    assert(!fields::is_token_octet(34u8));
    if half.len() >= 2 {
        assert(half.last() == q.last());
        assert(q[q.len() - 1] != 34);
    }
}

/// Between quotes nothing but the inside counts, and what begins with a quote is no token.
proof fn lemma_quotes(q: Seq<u8>)
    ensures
        http1::is_parameter_value(seq![34u8] + q + seq![34u8]) <==> http1::quoted_inside(
            q,
            0,
            false,
        ),
{
    let v = seq![34u8] + q + seq![34u8];
    assert(v[0] == 34);
    assert(!fields::is_token_octet(34u8));
    assert(v.subrange(1, v.len() - 1) =~= q);
}

proof fn lemma_inside(s: Seq<u8>, q: Seq<u8>, i: int)
    requires
        0 <= i <= q.len() <= s.len(),
        forall|j: int| 0 <= j < q.len() ==> s[j] == #[trigger] q[j],
        forall|j: int|
            0 <= j < q.len() ==> (#[trigger] q[j] == 9 || q[j] >= 32) && q[j] != 127 && q[j] != 34
                && q[j] != 92,
    ensures
        http1::quoted_inside(s, i, false) == http1::quoted_inside(s, q.len() as int, false),
    decreases q.len() - i,
{
    if i < q.len() {
        assert(s[i] == q[i]);
        lemma_inside(s, q, i + 1);
    }
}

/// Names are in the order of a dictionary: a shared beginning does not count, a smaller character
/// comes first, and what ends first comes first.
pub proof fn names_are_in_dictionary_order(
    shared: Seq<char>,
    x: char,
    a: Seq<char>,
    y: char,
    b: Seq<char>,
)
    ensures
        text::precedes(shared.push(x) + a, shared.push(y) + b) <==> x < y || (x == y
            && text::precedes(a, b)),
        text::precedes(shared, shared.push(y) + b),
        !text::precedes(shared.push(x) + a, shared),
        !text::precedes(shared, shared),
    decreases shared.len(),
{
    if shared.len() == 0 {
        assert(shared.push(x) + a =~= seq![x] + a);
        assert(shared.push(y) + b =~= seq![y] + b);
        assert((shared.push(x) + a).drop_first() =~= a);
        assert((shared.push(y) + b).drop_first() =~= b);
    } else {
        let rest = shared.drop_first();
        names_are_in_dictionary_order(rest, x, a, y, b);
        assert((shared.push(x) + a).drop_first() =~= rest.push(x) + a);
        assert((shared.push(y) + b).drop_first() =~= rest.push(y) + b);
        assert((shared.push(x) + a)[0] == shared[0]);
        assert((shared.push(y) + b)[0] == shared[0]);
    }
}

} // verus!
