//! Responses on their way to the client: the head on the wire, and the framing of the body.
use crate::connect::forward;
use crate::connect::forward::serialize_fields;
use crate::fields;
use crate::fields::contains_key;
use crate::headers::HttpVersion;
use crate::ip::render_hex;
use crate::octets;
use crate::octets::{append, append_text, copy, render_decimal};
use crate::server::http1;
use crate::server::http1::BodyFraming;
use hyper::HeaderMap;
use vstd::prelude::*;

verus! {

/// The first line of a response.
pub open spec fn status_line(version: HttpVersion, status: u16, reason: Seq<char>) -> Seq<u8> {
    octets::octets(
        match version {
            HttpVersion::Http10 => "HTTP/1.0 "@,
            HttpVersion::Http11 => "HTTP/1.1 "@,
        },
    ) + octets::digits_of(status as nat) + octets::octets(" "@) + octets::octets(reason)
        + octets::octets("\r\n"@)
}

/// The head of a response on the wire. Where the connection closes behind the response, the head
/// says so, once.
pub open spec fn head_wire(
    version: HttpVersion,
    status: u16,
    reason: Seq<char>,
    headers: fields::Fields,
    close: bool,
) -> Seq<u8> {
    status_line(version, status, reason) + forward::field_wire(
        fields::listing(headers, headers.order),
    ) + octets::octets(
        if close && !fields::has(headers, http1::key("connection"@)) {
            "connection: close\r\n\r\n"@
        } else {
            "\r\n"@
        },
    )
}

/// Writes down the head of a response.
pub fn response_head(
    version: HttpVersion,
    status: u16,
    reason: &str,
    headers: &HeaderMap,
    close: bool,
) -> (r: Vec<u8>)
    ensures
        r@ == head_wire(version, status, reason@, fields::contents(*headers), close),
{
    let mut bytes: Vec<u8> = copy(
        match version {
            HttpVersion::Http10 => "HTTP/1.0 ",
            HttpVersion::Http11 => "HTTP/1.1 ",
        }.as_bytes(),
    );
    append(&mut bytes, render_decimal(status as u64).as_slice());
    append_text(&mut bytes, " ");
    append_text(&mut bytes, reason);
    append_text(&mut bytes, "\r\n");
    serialize_fields(&mut bytes, headers);
    if close && !contains_key(headers, "connection") {
        append_text(&mut bytes, "connection: close\r\n\r\n");
    } else {
        append_text(&mut bytes, "\r\n");
    }
    bytes
}

/// Whether the connection closes behind a response: it may not be used again, the client asked for
/// that, or the end of the connection is the end of the body.
pub fn closes(reusable: bool, asked: bool, delimited: bool) -> (r: bool)
    ensures
        r == (!reusable || asked || !delimited),
{
    !reusable || asked || !delimited
}

/// What becomes of the request body behind a response on a connection that stays open.
#[derive(Debug, Clone, Copy, PartialEq, Eq, Structural)]
pub enum BodyRest {
    /// Nothing of it is left.
    Done,
    /// What is left is read and thrown away.
    Drain,
    /// The client may still hold it back, so the connection ends.
    Leave,
}

/// Decides on the rest of a request body. A client that announced an expectation may never send
/// the body, so that body is not waited for.
pub fn body_rest(consumed: bool, framing: BodyFraming, expect: bool) -> (r: BodyRest)
    ensures
        r == (if consumed || framing == BodyFraming::NoBody {
            BodyRest::Done
        } else if expect {
            BodyRest::Leave
        } else {
            BodyRest::Drain
        }),
{
    if consumed || framing == BodyFraming::NoBody {
        BodyRest::Done
    } else if expect {
        BodyRest::Leave
    } else {
        BodyRest::Drain
    }
}

/// How the client tells where a response body ends.
#[derive(Debug, Clone, Copy, PartialEq, Eq, Structural)]
pub struct ResponseBody {
    /// The body goes on in chunks.
    pub chunked: bool,
    /// The body has an end of its own, so that the connection can stay open behind it.
    pub delimited: bool,
}

/// How the body behind a response head goes on. Without a body there is nothing to frame.
pub open spec fn body_form(headers: fields::Fields, carried: bool) -> ResponseBody {
    let chunked = fields::has(headers, http1::key("transfer-encoding"@));
    ResponseBody {
        chunked: carried && chunked,
        delimited: !carried || chunked || fields::has(headers, http1::key("content-length"@)),
    }
}

/// The end of a chunked body, with its trailers where it has some.
pub open spec fn body_end(trailers: Option<fields::Fields>) -> Seq<u8> {
    match trailers {
        Some(f) => octets::octets("0\r\n"@) + forward::field_wire(fields::listing(f, f.order))
            + octets::octets("\r\n"@),
        None => octets::octets("0\r\n\r\n"@),
    }
}

impl ResponseBody {
    /// Reads off the fields of a response head how its body goes on.
    pub fn of(headers: &HeaderMap, carried: bool) -> (r: ResponseBody)
        ensures
            r == body_form(fields::contents(*headers), carried),
    {
        let chunked: bool = contains_key(headers, "transfer-encoding");
        ResponseBody {
            chunked: carried && chunked,
            delimited: !carried || chunked || contains_key(headers, "content-length"),
        }
    }

    /// What a frame of data becomes on the wire.
    pub fn data(&self, data: Vec<u8>) -> (r: Vec<u8>)
        ensures
            r@ == (if self.chunked {
                forward::chunk_wire(data@)
            } else {
                data@
            }),
    {
        if !self.chunked {
            return data;
        }
        let mut bytes: Vec<u8> = render_hex(data.len() as u64);
        append_text(&mut bytes, "\r\n");
        append(&mut bytes, data.as_slice());
        append_text(&mut bytes, "\r\n");
        bytes
    }

    /// What the end of the body becomes on the wire. Only a chunked body can carry trailers.
    pub fn end(&self, trailers: Option<&HeaderMap>) -> (r: Vec<u8>)
        ensures
            r@ == (if self.chunked {
                body_end(
                    match trailers {
                        Some(trailers) => Some(fields::contents(*trailers)),
                        None => None,
                    },
                )
            } else {
                Seq::empty()
            }),
    {
        if !self.chunked {
            return Vec::new();
        }
        match trailers {
            Some(trailers) => {
                let mut bytes: Vec<u8> = copy("0\r\n".as_bytes());
                serialize_fields(&mut bytes, trailers);
                append_text(&mut bytes, "\r\n");
                bytes
            },
            None => copy("0\r\n\r\n".as_bytes()),
        }
    }
}

} // verus!
