//! The capability protocol of the host broker.
use crate::boundary;
use crate::domain::target;
use crate::domain::target::LoopbackAuthority;
use crate::headers;
use crate::headers::sanitize_hop_by_hop;
use crate::fields;
use crate::ip;
use crate::octets;
use crate::octets::{append, append_text, copy, is_text, part};
use crate::unique::Same;
use hyper::HeaderMap;
use vstd::prelude::*;
use vstd::utf8::*;

verus! {

/// How long the startup exchange may take, in milliseconds.
pub const READY_TIMEOUT: u64 = 3_000;

/// How long a dial may take, in milliseconds.
pub const CONNECT_TIMEOUT: u64 = 10_000;

/// How long the exchange after a dial may take, in milliseconds.
pub const CONNECT_HANDSHAKE_TIMEOUT: u64 = 13_000;

/// The most octets of a broker response that are read.
pub const MAX_RESPONSE_BYTES: usize = 4;

/// Why a local destination could not be reached.
#[derive(Debug, Clone, Copy, PartialEq, Eq, Structural)]
pub enum BrokerError {
    Rejected,
    Unavailable,
    OriginFailure,
    DeadlineExceeded,
    Cancelled,
    Exhausted,
}

/// The time that each part of an exchange is given, in milliseconds.
#[derive(Debug, Clone, Copy, PartialEq, Eq, Structural)]
pub struct Deadlines {
    pub ready: u64,
    pub connect: u64,
    pub handshake: u64,
}

impl Default for Deadlines {
    fn default() -> (r: Deadlines)
        ensures
            r == (Deadlines {
                ready: READY_TIMEOUT,
                connect: CONNECT_TIMEOUT,
                handshake: CONNECT_HANDSHAKE_TIMEOUT,
            }),
    {
        Deadlines {
            ready: READY_TIMEOUT,
            connect: CONNECT_TIMEOUT,
            handshake: CONNECT_HANDSHAKE_TIMEOUT,
        }
    }
}

/// The credential that the frames to the broker carry. It has no debug form that shows it.
pub struct BrokerToken {
    credential: boundary::BrokerToken,
}

impl Clone for BrokerToken {
    fn clone(&self) -> (r: BrokerToken)
        ensures
            r@ == self@,
    {
        BrokerToken { credential: self.credential.clone() }
    }
}

impl View for BrokerToken {
    type V = Seq<u8>;

    closed spec fn view(&self) -> Seq<u8> {
        self.credential@
    }
}

/// Why a credential is not of the required form.
#[derive(Debug, Clone, Copy, PartialEq, Eq, Structural)]
pub struct BrokerTokenError;

impl BrokerTokenError {
    pub fn message(&self) -> (r: &'static str)
        ensures
            r@ == "invalid broker token format"@,
    {
        "invalid broker token format"
    }
}

impl BrokerToken {
    /// Reads a credential.
    pub fn parse(value: &str) -> (r: Result<BrokerToken, BrokerTokenError>)
        ensures
            match r {
                Ok(token) => boundary::is_broker_token(octets::octets(value@)) && token@
                    == octets::octets(value@),
                Err(_) => !boundary::is_broker_token(octets::octets(value@)),
            },
    {
        BrokerToken::from_octets(value.as_bytes())
    }

    /// Reads the octets of a credential.
    pub fn from_octets(value: &[u8]) -> (r: Result<BrokerToken, BrokerTokenError>)
        ensures
            match r {
                Ok(token) => boundary::is_broker_token(value@) && token@ == value@,
                Err(_) => !boundary::is_broker_token(value@),
            },
    {
        match boundary::BrokerToken::from_octets(value) {
            Ok(credential) => Ok(BrokerToken { credential }),
            Err(_) => Err(BrokerTokenError),
        }
    }

    /// The credential, for the frames that carry it.
    pub fn expose(&self) -> (r: &[u8])
        ensures
            r@ == self@,
            boundary::is_broker_token(r@),
    {
        self.credential.as_bytes()
    }

    /// What a diagnostic shows in place of the credential.
    pub fn debug_text(&self) -> (r: &'static str)
        ensures
            r@ == "BrokerToken([REDACTED])"@,
    {
        "BrokerToken([REDACTED])"
    }
}

/// The frame of the startup exchange.
pub open spec fn ready_wire(token: Seq<u8>) -> Seq<u8> {
    octets::octets("VHRN-BROKER/1 READY "@) + token + octets::octets("\n"@)
}

/// The frame that asks for a stream to an authority.
pub open spec fn connect_wire(token: Seq<u8>, authority: target::LoopbackModel) -> Seq<u8> {
    octets::octets("VHRN-BROKER/1 CONNECT "@) + token + octets::octets(" "@)
        + target::loopback_text(authority) + octets::octets("\n"@)
}

/// Writes the frame of the startup exchange.
pub fn ready_frame(token: &BrokerToken) -> (r: Vec<u8>)
    ensures
        r@ == ready_wire(token@),
{
    let mut out: Vec<u8> = copy("VHRN-BROKER/1 READY ".as_bytes());
    append(&mut out, token.expose());
    append_text(&mut out, "\n");
    out
}

/// Writes the frame that asks for a stream to an authority.
pub fn connect_frame(token: &BrokerToken, authority: &LoopbackAuthority) -> (r: Vec<u8>)
    ensures
        r@ == connect_wire(token@, authority@),
{
    let mut out: Vec<u8> = copy("VHRN-BROKER/1 CONNECT ".as_bytes());
    append(&mut out, token.expose());
    append_text(&mut out, " ");
    append(&mut out, authority.text().as_slice());
    append_text(&mut out, "\n");
    out
}

/// The literals of the frames, octet by octet where that matters.
proof fn lemma_frame_literals()
    ensures
        octets::octets("VHRN-BROKER/1 READY "@) == boundary::protocol_name().push(' ' as u8)
            + octets::octets("READY"@).push(' ' as u8),
        octets::octets("VHRN-BROKER/1 CONNECT "@) == boundary::protocol_name().push(' ' as u8)
            + octets::octets("CONNECT"@).push(' ' as u8),
        octets::octets(" "@) == seq![' ' as u8],
        octets::octets("\n"@) == seq![10u8],
        !boundary::protocol_name().contains(' ' as u8),
        !octets::octets("READY"@).contains(' ' as u8),
        !octets::octets("CONNECT"@).contains(' ' as u8),
        !octets::octets("VHRN-BROKER/1 READY "@).contains(10u8),
        !octets::octets("VHRN-BROKER/1 CONNECT "@).contains(10u8),
        octets::octets("VHRN-BROKER/1 READY "@).len() == 20,
        octets::octets("VHRN-BROKER/1 CONNECT "@).len() == 22,
{
    reveal_strlit("VHRN-BROKER/1 READY ");
    reveal_strlit("VHRN-BROKER/1 CONNECT ");
    reveal_strlit("VHRN-BROKER/1");
    reveal_strlit("READY");
    reveal_strlit("CONNECT");
    reveal_strlit(" ");
    reveal_strlit("\n");
    is_ascii_chars_encode_utf8("VHRN-BROKER/1 READY "@);
    is_ascii_chars_encode_utf8("VHRN-BROKER/1 CONNECT "@);
    is_ascii_chars_encode_utf8("VHRN-BROKER/1"@);
    is_ascii_chars_encode_utf8("READY"@);
    is_ascii_chars_encode_utf8("CONNECT"@);
    is_ascii_chars_encode_utf8(" "@);
    is_ascii_chars_encode_utf8("\n"@);
    assert(octets::octets(" "@) =~= seq![' ' as u8]);
    assert(octets::octets("\n"@) =~= seq![10u8]);
    assert(octets::octets("VHRN-BROKER/1 READY "@) =~= boundary::protocol_name().push(' ' as u8)
        + octets::octets("READY"@).push(' ' as u8));
    assert(octets::octets("VHRN-BROKER/1 CONNECT "@) =~= boundary::protocol_name().push(' ' as u8)
        + octets::octets("CONNECT"@).push(' ' as u8));
}

/// A canonical loopback authority is short and holds neither a space nor a line feed.
proof fn lemma_loopback_text_plain(a: target::LoopbackModel)
    requires
        target::is_loopback(a),
    ensures
        target::loopback_text(a).len() <= 21,
        !target::loopback_text(a).contains(' ' as u8),
        !target::loopback_text(a).contains(10u8),
{
    reveal_strlit("localhost:");
    reveal_strlit("[::1]:");
    is_ascii_chars_encode_utf8("localhost:"@);
    is_ascii_chars_encode_utf8("[::1]:"@);
    let t = target::loopback_text(a);
    let port = octets::digits_of(a.port as nat);
    octets::lemma_digits_of(a.port as nat);
    octets::lemma_digits_len(a.port as nat);
    assert forall|i: int| 0 <= i < port.len() implies port[i] != ' ' as u8 && port[i] != 10 by {
        assert(octets::is_digit(port[i]));
    }
    match a.host {
        target::LoopbackHostModel::Localhost => {
            let h = octets::octets("localhost:"@);
            assert(h.len() == 10);
            assert(t == h + port);
            assert(forall|i: int| 0 <= i < t.len() ==> t[i] != ' ' as u8 && t[i] != 10);
        },
        target::LoopbackHostModel::Ipv6Loopback => {
            let h = octets::octets("[::1]:"@);
            assert(h.len() == 6);
            assert(t == h + port);
            assert(forall|i: int| 0 <= i < t.len() ==> t[i] != ' ' as u8 && t[i] != 10);
        },
        target::LoopbackHostModel::Ipv4(o) => {
            let dot = '.' as u8;
            octets::lemma_digits_of(o[0] as nat);
            octets::lemma_digits_of(o[1] as nat);
            octets::lemma_digits_of(o[2] as nat);
            octets::lemma_digits_of(o[3] as nat);
            octets::lemma_digits_len(o[0] as nat);
            octets::lemma_digits_len(o[1] as nat);
            octets::lemma_digits_len(o[2] as nat);
            octets::lemma_digits_len(o[3] as nat);
            let h = ip::ipv4_text(o);
            assert(h.len() <= 15);
            assert(forall|i: int| 0 <= i < h.len() ==> octets::is_digit(h[i]) || h[i] == dot);
            assert(t == h.push(':' as u8) + port);
            assert(forall|i: int| 0 <= i < t.len() ==> t[i] != ' ' as u8 && t[i] != 10);
        },
    }
}

proof fn lemma_token_plain(token: Seq<u8>)
    requires
        boundary::is_broker_token(token),
    ensures
        !token.contains(' ' as u8),
        !token.contains(10u8),
{
    assert forall|i: int| 0 <= i < token.len() implies token[i] != ' ' as u8 && token[i] != 10 by {
        assert(octets::is_digit(token[i]) || 'a' as u8 <= token[i] <= 'f' as u8);
    }
}

/// The host reads the startup frame as the request that it was written for.
pub proof fn ready_frame_reads_back(token: Seq<u8>)
    requires
        boundary::is_broker_token(token),
    ensures
        boundary::request_of(ready_wire(token)) == Ok::<
            boundary::RequestModel,
            boundary::BrokerFrameError,
        >(boundary::RequestModel::Ready(token)),
{
    let sp = ' ' as u8;
    let name = boundary::protocol_name();
    let kind = octets::octets("READY"@);
    lemma_frame_literals();
    lemma_token_plain(token);
    let wire = ready_wire(token);
    let line = name.push(sp) + (kind.push(sp) + token);
    assert(wire.drop_last() =~= line);
    assert(line =~= octets::octets("VHRN-BROKER/1 READY "@) + token);
    assert(!line.contains(10u8)) by {
        let head = octets::octets("VHRN-BROKER/1 READY "@);
        assert forall|i: int| 0 <= i < line.len() implies line[i] != 10 by {
            if i < head.len() {
                assert(line[i] == head[i]);
                assert(head.contains(head[i]));
            } else {
                assert(line[i] == token[i - head.len()]);
                assert(token.contains(token[i - head.len()]));
            }
        }
    }
    ip::lemma_pieces_single(token, sp);
    ip::lemma_pieces_split(kind, sp, token);
    ip::lemma_pieces_split(name, sp, kind.push(sp) + token);
    assert(octets::pieces(line, sp) =~= seq![name, kind, token]);
}

/// The host reads a connection frame as the request that it was written for.
pub proof fn connect_frame_reads_back(token: Seq<u8>, authority: target::LoopbackModel)
    requires
        boundary::is_broker_token(token),
        target::is_loopback(authority),
    ensures
        boundary::request_of(connect_wire(token, authority)) == Ok::<
            boundary::RequestModel,
            boundary::BrokerFrameError,
        >(boundary::RequestModel::Connect { token, authority }),
{
    let sp = ' ' as u8;
    let name = boundary::protocol_name();
    let kind = octets::octets("CONNECT"@);
    let to = target::loopback_text(authority);
    lemma_frame_literals();
    lemma_token_plain(token);
    lemma_loopback_text_plain(authority);
    target::loopback_text_reads_back(authority);
    let wire = connect_wire(token, authority);
    let line = name.push(sp) + (kind.push(sp) + (token.push(sp) + to));
    assert(wire.drop_last() =~= line);
    let head = octets::octets("VHRN-BROKER/1 CONNECT "@);
    assert(line =~= head + token + seq![sp] + to);
    assert(!line.contains(10u8)) by {
        assert forall|i: int| 0 <= i < line.len() implies line[i] != 10 by {
            if i < head.len() {
                assert(line[i] == head[i]);
                assert(head.contains(head[i]));
            } else if i < head.len() + 64 {
                assert(line[i] == token[i - head.len()]);
                assert(token.contains(token[i - head.len()]));
            } else if i > head.len() + 64 {
                assert(line[i] == to[i - head.len() - 65]);
                assert(to.contains(to[i - head.len() - 65]));
            }
        }
    }
    ip::lemma_pieces_single(to, sp);
    ip::lemma_pieces_split(token, sp, to);
    ip::lemma_pieces_split(kind, sp, token.push(sp) + to);
    ip::lemma_pieces_split(name, sp, kind.push(sp) + (token.push(sp) + to));
    assert(octets::pieces(line, sp) =~= seq![name, kind, token, to]);
}

/// What the octets of a response that were read so far say.
#[derive(Debug, Clone, Copy, PartialEq, Eq, Structural)]
pub enum ResponseStep {
    /// The broker agreed; an octet of the stream may have been read along.
    Accepted(Option<u8>),
    Rejected,
    NeedInput,
}

/// The octet that was read along with a success.
pub open spec fn prefix_of(response: Seq<u8>) -> Option<u8> {
    if response.len() > 3 {
        Some(response[3])
    } else {
        None
    }
}

/// A success line, a refusal, or not yet either. Four octets that are no success refuse.
pub open spec fn response_of(received: Seq<u8>) -> ResponseStep {
    if received.len() >= 3 && received.subrange(0, 3) == octets::octets("OK\n"@) {
        ResponseStep::Accepted(prefix_of(received))
    } else if received == octets::octets("ERR\n"@) || received == octets::octets("NO\n"@) {
        ResponseStep::Rejected
    } else if received.len() >= MAX_RESPONSE_BYTES {
        ResponseStep::Rejected
    } else {
        ResponseStep::NeedInput
    }
}

/// The octet that was read along with a success.
pub fn success_prefix(response: &[u8]) -> (r: Option<u8>)
    ensures
        r == prefix_of(response@),
{
    if response.len() > 3 {
        Some(response[3])
    } else {
        None
    }
}

/// Judges the octets of a response that were read so far.
pub fn read_response(received: &[u8]) -> (r: ResponseStep)
    ensures
        r == response_of(received@),
{
    if received.len() >= 3 && is_text(part(received, 0, 3), "OK\n") {
        return ResponseStep::Accepted(success_prefix(received));
    }
    if is_text(received, "ERR\n") || is_text(received, "NO\n") {
        return ResponseStep::Rejected;
    }
    if received.len() >= MAX_RESPONSE_BYTES {
        return ResponseStep::Rejected;
    }
    ResponseStep::NeedInput
}

/// Judges the end of a response: what has not succeeded by then is refused.
pub fn response_at_end(received: &[u8]) -> (r: Result<Option<u8>, BrokerError>)
    ensures
        r == (match response_of(received@) {
            ResponseStep::Accepted(prefix) => Ok::<Option<u8>, BrokerError>(prefix),
            _ => Err(BrokerError::Rejected),
        }),
{
    match read_response(received) {
        ResponseStep::Accepted(prefix) => Ok(prefix),
        _ => Err(BrokerError::Rejected),
    }
}

/// Judges the answer to the startup exchange, which must end with its success line.
pub fn ready_outcome(answer: Result<Option<u8>, BrokerError>) -> (r: Result<(), BrokerError>)
    ensures
        r == (match answer {
            Ok(None) => Ok::<(), BrokerError>(()),
            Ok(Some(_)) => Err(BrokerError::Rejected),
            Err(error) => Err(error),
        }),
{
    match answer {
        Ok(None) => Ok(()),
        Ok(Some(_)) => Err(BrokerError::Rejected),
        Err(error) => Err(error),
    }
}

/// Octets read along with a success response, which come first in the stream.
#[derive(Debug, Clone, Copy, PartialEq, Eq, Structural)]
pub struct BrokerStream {
    pub prefix: Option<u8>,
}

/// What a read of a broker stream does.
#[derive(Debug, Clone, Copy, PartialEq, Eq, Structural)]
pub enum StreamRead {
    /// There is no room: the read completes with nothing.
    Full,
    /// The octet that was read along completes the read.
    Prefix(u8),
    /// The socket is read.
    Socket,
}

impl BrokerStream {
    pub fn new(prefix: Option<u8>) -> (r: BrokerStream)
        ensures
            r.prefix == prefix,
    {
        BrokerStream { prefix }
    }

    /// Decides what a read with the given room does. The octet is handed out once.
    pub fn read(&mut self, room: usize) -> (r: StreamRead)
        ensures
            if room == 0 {
                r == StreamRead::Full && *final(self) == *old(self)
            } else {
                match old(self).prefix {
                    Some(byte) => r == StreamRead::Prefix(byte) && final(self).prefix is None,
                    None => r == StreamRead::Socket && *final(self) == *old(self),
                }
            },
    {
        if room == 0 {
            return StreamRead::Full;
        }
        match self.prefix {
            Some(byte) => {
                self.prefix = None;
                StreamRead::Prefix(byte)
            },
            None => StreamRead::Socket,
        }
    }
}

/// The identity of a pooled local connection.
#[derive(Debug, Clone, PartialEq, Eq, Hash)]
pub struct BrokerKey {
    pub secure: bool,
    pub authority: LoopbackAuthority,
}

impl View for BrokerKey {
    type V = (bool, target::LoopbackModel);

    open spec fn view(&self) -> (bool, target::LoopbackModel) {
        (self.secure, self.authority@)
    }
}

impl Same for BrokerKey {
    fn same(&self, other: &BrokerKey) -> (r: bool) {
        self.secure == other.secure && self.authority.same(&other.authority)
    }
}

/// The path that a request without one asks for.
pub open spec fn outbound_path(path_and_query: Option<Seq<u8>>) -> Seq<u8> {
    match path_and_query {
        Some(path) => path,
        None => octets::octets("/"@),
    }
}

/// Makes a request fit for a local origin: hop fields leave, where the `Connection` fields can be
/// read, and the target is the path alone.
pub fn outbound_local_request(headers: &mut HeaderMap, path_and_query: Option<&[u8]>) -> (r: Vec<
    u8,
>)
    ensures
        r@ == outbound_path(
            match path_and_query {
                Some(path) => Some(path@),
                None => None,
            },
        ),
        fields::contents(*final(headers)) == (match headers::nominations_of(
            fields::contents(*old(headers)),
        ) {
            Some(nominated) => headers::sanitized(fields::contents(*old(headers)), nominated),
            None => fields::contents(*old(headers)),
        }),
{
    let _ = sanitize_hop_by_hop(headers);
    match path_and_query {
        Some(path) => copy(path),
        None => copy("/".as_bytes()),
    }
}

} // verus!
