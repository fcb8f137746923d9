//! Bounded proxy responses.
use crate::fields;
use crate::fields::{new_map, try_append, Fields};
use crate::headers;
use crate::headers::sanitize_hop_by_hop;
use crate::octets;
use crate::octets::{append, append_text, copy, render_decimal};
use hyper::HeaderMap;
use vstd::prelude::*;
use vstd::utf8::*;

verus! {

/// The most octets of the body of a failure.
pub const MAX_GENERIC_BODY_BYTES: usize = 1024;

/// Why the proxy answers a request itself.
#[derive(Debug, Clone, PartialEq, Eq)]
pub enum ProxyFailure {
    BadRequest,
    HeadersTooLarge,
    PublicDenied(Vec<u8>),
    LocalDenied(Vec<u8>),
    HttpsRequiresConnect,
    ReportLogUnavailable,
    ServiceUnavailable,
    BadGateway,
    GatewayTimeout,
}

pub enum FailureModel {
    BadRequest,
    HeadersTooLarge,
    PublicDenied(Seq<u8>),
    LocalDenied(Seq<u8>),
    HttpsRequiresConnect,
    ReportLogUnavailable,
    ServiceUnavailable,
    BadGateway,
    GatewayTimeout,
}

impl View for ProxyFailure {
    type V = FailureModel;

    open spec fn view(&self) -> FailureModel {
        match self {
            ProxyFailure::BadRequest => FailureModel::BadRequest,
            ProxyFailure::HeadersTooLarge => FailureModel::HeadersTooLarge,
            ProxyFailure::PublicDenied(host) => FailureModel::PublicDenied(host@),
            ProxyFailure::LocalDenied(authority) => FailureModel::LocalDenied(authority@),
            ProxyFailure::HttpsRequiresConnect => FailureModel::HttpsRequiresConnect,
            ProxyFailure::ReportLogUnavailable => FailureModel::ReportLogUnavailable,
            ProxyFailure::ServiceUnavailable => FailureModel::ServiceUnavailable,
            ProxyFailure::BadGateway => FailureModel::BadGateway,
            ProxyFailure::GatewayTimeout => FailureModel::GatewayTimeout,
        }
    }
}

/// The status of a failure.
pub open spec fn failure_status(f: FailureModel) -> u16 {
    match f {
        FailureModel::BadRequest | FailureModel::HttpsRequiresConnect => 400,
        FailureModel::PublicDenied(_) | FailureModel::LocalDenied(_) => 403,
        FailureModel::HeadersTooLarge => 431,
        FailureModel::BadGateway => 502,
        FailureModel::ReportLogUnavailable | FailureModel::ServiceUnavailable => 503,
        FailureModel::GatewayTimeout => 504,
    }
}

/// The text of a failure.
pub open spec fn failure_text(f: FailureModel) -> Seq<u8> {
    match f {
        FailureModel::BadRequest => octets::octets("bad request\n"@),
        FailureModel::HeadersTooLarge => octets::octets("request header fields too large\n"@),
        FailureModel::PublicDenied(host) => octets::octets("blocked by vhrn egress policy: "@) + host
            + octets::octets("\n"@),
        FailureModel::LocalDenied(authority) => octets::octets("blocked by vhrn local policy: "@)
            + authority + octets::octets("\n"@),
        FailureModel::HttpsRequiresConnect => octets::octets("HTTPS requires CONNECT\n"@),
        FailureModel::ReportLogUnavailable | FailureModel::ServiceUnavailable => octets::octets(
            "proxy temporarily unavailable\n"@,
        ),
        FailureModel::BadGateway => octets::octets("bad gateway\n"@),
        FailureModel::GatewayTimeout => octets::octets("gateway timeout\n"@),
    }
}

/// Whether a failure ends the connection.
pub open spec fn failure_closes(f: FailureModel) -> bool {
    match f {
        FailureModel::PublicDenied(_)
        | FailureModel::LocalDenied(_)
        | FailureModel::BadGateway
        | FailureModel::GatewayTimeout => false,
        _ => true,
    }
}

/// One line of at most 1024 octets with its line feed.
pub open spec fn is_bounded_line(s: Seq<u8>) -> bool {
    &&& 1 <= s.len() <= MAX_GENERIC_BODY_BYTES
    &&& s.last() == 10
    &&& forall|i: int| 0 <= i < s.len() - 1 ==> #[trigger] s[i] != 10 && s[i] != 13
}

/// The text that is sent: a text that is no bounded line is replaced.
pub open spec fn bounded_text(s: Seq<u8>) -> Seq<u8> {
    if is_bounded_line(s) {
        s
    } else {
        octets::octets("proxy error\n"@)
    }
}

/// A complete response that the proxy makes itself.
#[derive(Debug)]
pub struct ProxyResponse {
    pub status: u16,
    pub headers: HeaderMap,
    pub body: Vec<u8>,
}

pub open spec fn content_type() -> Seq<u8> {
    octets::octets("content-type"@)
}

pub open spec fn content_length() -> Seq<u8> {
    octets::octets("content-length"@)
}

pub open spec fn plain_text() -> Seq<u8> {
    octets::octets("text/plain; charset=utf-8"@)
}

/// A type, where there is one, and a length.
pub open spec fn representation_fields(kind: Option<Seq<u8>>, length: nat) -> Fields {
    let typed = match kind {
        Some(kind) => fields::appended(fields::no_fields(), content_type(), kind),
        None => fields::no_fields(),
    };
    fields::appended(typed, content_length(), octets::digits_of(length))
}

/// The fields of a failure with a text of the given length.
pub open spec fn failure_fields(length: nat, close: bool) -> Fields {
    let represented = representation_fields(Some(plain_text()), length);
    if close {
        fields::appended(represented, headers::connection_name(), octets::octets("close"@))
    } else {
        represented
    }
}

/// The literals that are used as names and values are such.
proof fn lemma_response_literals()
    ensures
        octets::lower(content_type()) == content_type(),
        fields::is_field_name(content_type()),
        octets::lower(content_length()) == content_length(),
        fields::is_field_name(content_length()),
        octets::lower(headers::connection_name()) == headers::connection_name(),
        fields::is_field_name(headers::connection_name()),
        fields::is_field_value(octets::octets("close"@)),
        fields::is_field_value(plain_text()),
{
    reveal_strlit("content-type");
    reveal_strlit("content-length");
    reveal_strlit("connection");
    reveal_strlit("close");
    reveal_strlit("text/plain; charset=utf-8");
    headers::lemma_plain_name("content-type"@);
    headers::lemma_plain_name("content-length"@);
    headers::lemma_plain_name("connection"@);
    headers::lemma_plain_name("close"@);
    is_ascii_chars_encode_utf8("text/plain; charset=utf-8"@);
}

/// Adds a field to a map with few names.
pub fn put(headers: &mut HeaderMap, name: &str, value: &[u8])
    requires
        fields::is_field_name(octets::octets(name@)),
        octets::lower(octets::octets(name@)) == octets::octets(name@),
        fields::is_field_value(value@),
        fields::contents(*old(headers)).order.len() < fields::SURE_NAMES,
    ensures
        fields::contents(*final(headers)) == fields::appended(
            fields::contents(*old(headers)),
            octets::octets(name@),
            value@,
        ),
{
    let taken: bool = try_append(headers, name.as_bytes(), value);
    assert(taken);
}

fn representation(kind: Option<&[u8]>, length: usize) -> (r: HeaderMap)
    requires
        kind matches Some(kind) ==> fields::is_field_value(kind@),
    ensures
        fields::contents(r) == representation_fields(
            match kind {
                Some(kind) => Some(kind@),
                None => None,
            },
            length as nat,
        ),
        fields::contents(r).order.len() <= 2,
{
    proof {
        lemma_response_literals();
        octets::lemma_digits_of(length as nat);
    }
    let mut headers: HeaderMap = new_map();
    if let Some(kind) = kind {
        put(&mut headers, "content-type", kind);
    }
    put(&mut headers, "content-length", render_decimal(length as u64).as_slice());
    headers
}

fn bounded_line(s: &[u8]) -> (r: bool)
    ensures
        r == is_bounded_line(s@),
{
    let n: usize = s.len();
    if n < 1 || n > MAX_GENERIC_BODY_BYTES || s[n - 1] != 10 {
        return false;
    }
    let mut i: usize = 0;
    while i < n - 1
        invariant
            n == s@.len(),
            n >= 1,
            i <= n - 1,
            forall|j: int| 0 <= j < i ==> #[trigger] s@[j] != 10 && s@[j] != 13,
        decreases n - i,
    {
        if s[i] == 10 || s[i] == 13 {
            assert(!(s@[i as int] != 10 && s@[i as int] != 13));
            return false;
        }
        i += 1;
    }
    true
}

impl ProxyFailure {
    /// The status, the text and whether the connection ends.
    pub fn representation(&self) -> (r: (u16, Vec<u8>, bool))
        ensures
            r.0 == failure_status(self@),
            r.1@ == failure_text(self@),
            r.2 == failure_closes(self@),
    {
        match self {
            ProxyFailure::BadRequest => (400, copy("bad request\n".as_bytes()), true),
            ProxyFailure::HeadersTooLarge => (
                431,
                copy("request header fields too large\n".as_bytes()),
                true,
            ),
            ProxyFailure::PublicDenied(host) => {
                let mut text = copy("blocked by vhrn egress policy: ".as_bytes());
                append(&mut text, host.as_slice());
                append_text(&mut text, "\n");
                (403, text, false)
            },
            ProxyFailure::LocalDenied(authority) => {
                let mut text = copy("blocked by vhrn local policy: ".as_bytes());
                append(&mut text, authority.as_slice());
                append_text(&mut text, "\n");
                (403, text, false)
            },
            ProxyFailure::HttpsRequiresConnect => (
                400,
                copy("HTTPS requires CONNECT\n".as_bytes()),
                true,
            ),
            ProxyFailure::ReportLogUnavailable => (
                503,
                copy("proxy temporarily unavailable\n".as_bytes()),
                true,
            ),
            ProxyFailure::ServiceUnavailable => (
                503,
                copy("proxy temporarily unavailable\n".as_bytes()),
                true,
            ),
            ProxyFailure::BadGateway => (502, copy("bad gateway\n".as_bytes()), false),
            ProxyFailure::GatewayTimeout => (504, copy("gateway timeout\n".as_bytes()), false),
        }
    }

    /// Whether the failure is a denial by policy.
    pub fn is_denial(&self) -> (r: bool)
        ensures
            r == (self@ is PublicDenied || self@ is LocalDenied),
    {
        match self {
            ProxyFailure::PublicDenied(_) | ProxyFailure::LocalDenied(_) => true,
            _ => false,
        }
    }
}

/// The response to a failure. A HEAD request gets the fields without the body.
pub open spec fn is_failure_response(r: ProxyResponse, f: FailureModel, head: bool) -> bool {
    let text = bounded_text(failure_text(f));
    &&& r.status == failure_status(f)
    &&& fields::contents(r.headers) == failure_fields(text.len(), failure_closes(f))
    &&& r.body@ == if head {
        Seq::empty()
    } else {
        text
    }
}

/// Makes the response to a failure.
pub fn failure(reason: &ProxyFailure, head: bool) -> (r: ProxyResponse)
    ensures
        is_failure_response(r, reason@, head),
{
    proof {
        lemma_response_literals();
    }
    let (status, text, close) = reason.representation();
    let text: Vec<u8> = if bounded_line(text.as_slice()) {
        text
    } else {
        copy("proxy error\n".as_bytes())
    };
    let mut headers: HeaderMap = representation(
        Some("text/plain; charset=utf-8".as_bytes()),
        text.len(),
    );
    if close {
        put(&mut headers, "connection", "close".as_bytes());
    }
    if head {
        let body: Vec<u8> = Vec::new();
        assert(body@ =~= Seq::empty());
        return ProxyResponse { status, headers, body };
    }
    ProxyResponse { status, headers, body: text }
}

/// Makes a response with a type, where one is given, and a body.
pub fn fixed(status: u16, kind: Option<&str>, body: &[u8]) -> (r: ProxyResponse)
    requires
        kind matches Some(kind) ==> fields::is_field_value(octets::octets(kind@)),
    ensures
        r.status == status,
        r.body@ == body@,
        fields::contents(r.headers) == (match kind {
            Some(kind) => fields::appended(
                fields::no_fields(),
                content_type(),
                octets::octets(kind@),
            ),
            None => fields::no_fields(),
        }),
{
    proof {
        lemma_response_literals();
    }
    let mut headers: HeaderMap = new_map();
    if let Some(kind) = kind {
        put(&mut headers, "content-type", kind.as_bytes());
    }
    ProxyResponse { status, headers, body: copy(body) }
}

/// Makes a response with a type, where one is given, a length and a body. A HEAD request gets the
/// fields without the body.
pub fn represented(status: u16, kind: Option<&str>, text: &[u8], head: bool) -> (r: ProxyResponse)
    requires
        kind matches Some(kind) ==> fields::is_field_value(octets::octets(kind@)),
    ensures
        r.status == status,
        fields::contents(r.headers) == representation_fields(
            match kind {
                Some(kind) => Some(octets::octets(kind@)),
                None => None,
            },
            text@.len(),
        ),
        r.body@ == (if head {
            Seq::empty()
        } else {
            text@
        }),
{
    let headers: HeaderMap = match kind {
        Some(kind) => representation(Some(kind.as_bytes()), text.len()),
        None => representation(None, text.len()),
    };
    let body: Vec<u8> = if head {
        Vec::new()
    } else {
        copy(text)
    };
    assert(head ==> body@ =~= Seq::empty());
    ProxyResponse { status, headers, body }
}

/// The fields of an origin response as the client gets them: without hop fields, where the
/// `Connection` fields can be read; and whether the body goes with them.
pub fn origin(headers: HeaderMap, head: bool) -> (r: (HeaderMap, bool))
    ensures
        fields::contents(r.0) == (match headers::nominations_of(fields::contents(headers)) {
            Some(nominated) => headers::sanitized(fields::contents(headers), nominated),
            None => fields::contents(headers),
        }),
        r.1 == !head,
{
    let mut sent: HeaderMap = headers;
    let _ = sanitize_hop_by_hop(&mut sent);
    (sent, !head)
}

/// Whatever a failure names, its body is one line of at most 1024 octets.
pub proof fn a_failure_body_is_one_bounded_line(f: FailureModel)
    ensures
        is_bounded_line(bounded_text(failure_text(f))),
{
    reveal_strlit("proxy error\n");
    is_ascii_chars_encode_utf8("proxy error\n"@);
}

} // verus!
