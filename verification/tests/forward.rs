use hyper::header::{HeaderValue, EXPECT, HOST};
use hyper::{HeaderMap, StatusCode};
use vhrn::connect::forward::{
    forward_error, respond, serialize_request_head, Exchange, ExchangeStep, ExchangeWait,
    ForwardErrorKind, Interruption, RequestWriter, StageStep,
};
use vhrn::connect::origin_body::{
    returns_to_pool, OriginDecoder, OriginFrame, OriginHeadStep, OriginReader, OriginStep,
};
use vhrn::headers::HttpVersion;
use vhrn::server::http1::{
    BodyFraming, OriginBodyFraming, OriginError, OriginResponseHead, RequestHead,
    APPLICATION_BUFFER_LIMIT, HEADER_SECTION_LIMIT, REQUEST_BODY_FRAME_LIMIT,
};
use vhrn::server::ingress::{HeadStep, Http1Connection};
use vhrn::server::router::{forward_failure, Reply};
use vhrn::server::streaming::{closes, response_head, ResponseBody};

fn head(method: &str, target: &[u8], framing: BodyFraming) -> RequestHead {
    let mut headers = HeaderMap::new();
    headers.insert(HOST, HeaderValue::from_static("conflict.invalid"));
    RequestHead {
        method: method.as_bytes().to_vec(),
        raw_target: target.to_vec(),
        version: HttpVersion::Http11,
        headers,
        framing,
        close: false,
        upgrade: false,
        expect: false,
    }
}

fn holds(wire: &[u8], part: &[u8]) -> bool {
    wire.windows(part.len()).any(|value| value == part)
}

/// Reads a request and sends it on to an origin that takes `step` octets at a time.
fn sent(request: &[u8], path: &[u8], host: &[u8], step: usize) -> Result<Vec<u8>, ForwardErrorKind> {
    let mut connection = Http1Connection::new();
    let mut given = 0;
    let head = loop {
        match connection.read_head() {
            HeadStep::Ready(head) => break head,
            HeadStep::NeedInput(room) => {
                let count = room.min(request.len() - given);
                assert!(count > 0);
                connection.fill(&request[given..given + count]);
                given += count;
            },
            HeadStep::Failed(error) => panic!("{error:?}"),
        }
    };
    let mut exchange = Exchange::begin(&head, path, host).map_err(|error| error.kind)?;
    let mut out = Vec::new();
    loop {
        match exchange.wait() {
            ExchangeWait::WriteHead => {
                let bytes = exchange.head_bytes();
                let count = bytes.len().min(step);
                out.extend_from_slice(&bytes[..count]);
                exchange.head_written(count).unwrap();
            },
            ExchangeWait::FlushHead => exchange.head_sent(),
            ExchangeWait::Response => return Ok(out),
            ExchangeWait::ResponseOrUpstream => match exchange.body_bytes() {
                Some(bytes) => {
                    let count = bytes.len().min(step);
                    out.extend_from_slice(&bytes[..count]);
                    exchange.body_written(count).unwrap();
                },
                None => exchange.body_sent(),
            },
            ExchangeWait::ResponseOrDownstream => match exchange.stage_body(&mut connection) {
                StageStep::Staged => {},
                StageStep::NeedInput(room) => {
                    let count = room.min(request.len() - given);
                    assert!(count > 0);
                    connection.fill(&request[given..given + count]);
                    given += count;
                },
                StageStep::Failed(kind) => return Err(kind),
            },
        }
    }
}

fn origin_head(bytes: &[u8], method: &str) -> Result<OriginResponseHead, OriginError> {
    let mut reader = OriginReader::new();
    reader.fill(bytes);
    match reader.read_response_head(method.as_bytes()) {
        OriginHeadStep::Ready(head) => Ok(head),
        OriginHeadStep::Failed(error) => Err(error),
        OriginHeadStep::NeedInput(_) => panic!("a whole head"),
    }
}

/// What a request led to: what the origin got, what the client got, and whether the origin's stream
/// and the client's connection can be used again.
#[derive(Debug)]
struct Served {
    upstream: String,
    downstream: String,
    poolable: bool,
    reusable: bool,
}

/// Sends a request on and reads the answer of an origin that then closes.
fn served(
    request: &[u8],
    path: &[u8],
    host: &[u8],
    origin: &[u8],
) -> Result<Served, ForwardErrorKind> {
    let upstream = String::from_utf8(sent(request, path, host, usize::MAX)?).unwrap();
    let mut connection = Http1Connection::new();
    connection.fill(request);
    let HeadStep::Ready(head) = connection.read_head() else { panic!("a whole head") };
    let mut reader = OriginReader::new();
    let mut given = 0;
    let mut downstream = Vec::new();
    let reason = |status: u16| StatusCode::from_u16(status).unwrap().canonical_reason().unwrap();
    let answer = loop {
        let response = match reader.read_response_head(&head.method) {
            OriginHeadStep::Ready(response) => Ok(response),
            OriginHeadStep::Failed(error) => Err(error),
            OriginHeadStep::NeedInput(room) => {
                let count = room.min(origin.len() - given);
                assert!(count > 0);
                reader.fill(&origin[given..given + count]);
                given += count;
                continue;
            },
        };
        let response = response.map_err(|_| ForwardErrorKind::BadGateway)?;
        match respond(head.version, response, true).map_err(|error| error.kind)? {
            ExchangeStep::Informational { status, headers, forward } => {
                if forward {
                    let bytes = response_head(head.version, status, reason(status), &headers, false);
                    downstream.extend(bytes);
                }
            },
            ExchangeStep::Response(answer) => break answer,
        }
    };
    let form = ResponseBody::of(&answer.headers, head.method != b"HEAD");
    let close = closes(true, head.close, form.delimited);
    let status = answer.status;
    let bytes = response_head(head.version, status, reason(status), &answer.headers, close);
    downstream.extend(bytes);
    let mut decoder = OriginDecoder::new(answer.framing, answer.nominations);
    loop {
        match decoder.next_frame(&mut reader) {
            OriginStep::Frame(OriginFrame::Data(data)) => downstream.extend(form.data(data)),
            OriginStep::Frame(OriginFrame::Trailers(trailers)) => {
                downstream.extend(form.end(Some(&trailers)));
                break;
            },
            OriginStep::Complete => {
                downstream.extend(form.end(None));
                break;
            },
            OriginStep::Failed(_) => return Err(ForwardErrorKind::BadGateway),
            OriginStep::NeedInput(room) => {
                let count = room.min(origin.len() - given);
                reader.fill(&origin[given..given + count]);
                given += count;
                if count == 0 {
                    decoder.end_of_input().map_err(|_| ForwardErrorKind::BadGateway)?;
                }
            },
        }
    }
    Ok(Served {
        upstream,
        downstream: String::from_utf8(downstream).unwrap(),
        poolable: returns_to_pool(answer.poolable, &reader),
        reusable: !close,
    })
}

#[test]
fn request_line_uses_origin_form_options_star_and_canonical_host() {
    let request = head("GET", b"http://example.com?q", BodyFraming::NoBody);
    let wire = serialize_request_head(&request, b"?q", b"example.com").ok().unwrap();
    assert!(wire.starts_with(b"GET /?q HTTP/1.1\r\n"));
    assert!(holds(&wire, b"host: example.com\r\n"));
    assert!(!holds(&wire, b"conflict.invalid"));

    let request = head("OPTIONS", b"http://example.com", BodyFraming::NoBody);
    let wire = serialize_request_head(&request, b"", b"example.com").ok().unwrap();
    assert!(wire.starts_with(b"OPTIONS * HTTP/1.1\r\n"));
    assert!(holds(&wire, b"via: 1.1 vhrn\r\n"));
    for name in [
        "forwarded:",
        "x-forwarded-for:",
        "proxy-authorization:",
        "proxy-authenticate:",
        "proxy-connection:",
        "upgrade:",
        "keep-alive:",
        "te:",
        "trailer:",
        "connection:",
        "internal-address",
        "x-real-ip:",
        "proxy-via-host",
    ] {
        assert!(!holds(&wire, name.as_bytes()), "{name}");
    }
    assert!(wire.ends_with(b"\r\n\r\n"));

    let mut request = head("POST", b"http://example.com", BodyFraming::ContentLength(1));
    request.version = HttpVersion::Http10;
    request.headers.insert(EXPECT, HeaderValue::from_static("100-continue"));
    let wire = serialize_request_head(&request, b"", b"example.com").ok().unwrap();
    assert!(!holds(&wire, b"expect:"));
}

/// Sends a body on to an origin that takes `step` octets at a time, and gives what it took.
fn written(framing: BodyFraming, nominated: &[&str], body: &[u8], step: usize) -> Vec<u8> {
    let nominated = nominated.iter().map(|name| name.as_bytes().to_vec()).collect();
    let mut connection = Http1Connection::new();
    let mut writer = RequestWriter::new(framing, nominated);
    let mut given = 0;
    let mut out = Vec::new();
    while !writer.complete() {
        if writer.waiting_on_upstream() {
            match writer.next_write() {
                Some(bytes) => {
                    assert!(!bytes.is_empty());
                    let count = bytes.len().min(step);
                    out.extend_from_slice(&bytes[..count]);
                    writer.written(count).unwrap();
                },
                None => writer.flushed(),
            }
        } else {
            match writer.step_downstream(&mut connection) {
                StageStep::Staged => {},
                StageStep::NeedInput(room) => {
                    let count = room.min(body.len() - given);
                    assert!(count > 0);
                    connection.fill(&body[given..given + count]);
                    given += count;
                },
                StageStep::Failed(kind) => panic!("{kind:?}"),
            }
        }
        assert!(connection.buffered() + writer.buffered_bytes() <= APPLICATION_BUFFER_LIMIT);
    }
    out
}

#[test]
fn streams_request_larger_than_former_cap_with_aggregate_buffer_bound() {
    let body = vec![b'x'; 8 * 1024 * 1024 + 17];
    let framing = BodyFraming::ContentLength(body.len() as u64);
    assert!(written(framing, &[], &body, usize::MAX) == body);

    let body_bytes = body.len();
    let mut request = format!(
        "POST http://allowed.example:80/upload HTTP/1.1\r\nHost: conflict.invalid\r\nContent-Length: {body_bytes}\r\nConnection: close\r\n\r\n"
    )
    .into_bytes();
    request.extend_from_slice(&body);
    let served = served(
        &request,
        b"/upload",
        b"allowed.example:80",
        b"HTTP/1.1 200 OK\r\nContent-Length: 2\r\nConnection: close\r\n\r\nok",
    )
    .unwrap();
    let (text, sent) = served.upstream.split_once("\r\n\r\n").unwrap();
    let text = format!("{text}\r\n");
    assert!(text.starts_with("POST /upload HTTP/1.1\r\n"));
    assert!(text.contains("host: allowed.example:80\r\n"));
    assert!(text.contains(&format!("content-length: {body_bytes}\r\n")));
    assert!(text.contains("via: 1.1 vhrn\r\n"));
    assert_eq!(sent.len(), body_bytes);
    assert!(served.downstream.ends_with("\r\n\r\nok"));
}

#[test]
fn a_fixed_body_goes_on_as_its_octets() {
    assert_eq!(written(BodyFraming::ContentLength(4), &[], b"data and more", 1), b"data");
    assert_eq!(written(BodyFraming::ContentLength(0), &[], b"next", 1), b"");
    assert_eq!(written(BodyFraming::NoBody, &[], b"next", 1), b"");
}

#[test]
fn a_chunked_body_goes_on_frame_by_frame() {
    let body = b"1A;note=yes\r\nabcdefghijklmnopqrstuvwxyz\r\n3\r\nend\r\n0\r\nX-Keep: 1\r\nX-Drop: 2\r\nx-keep: 3\r\n\r\n";
    for step in [1, 2, 7, usize::MAX] {
        let wire = written(BodyFraming::Chunked, &["X-Drop"], body, step);
        let text = String::from_utf8(wire).unwrap();
        assert!(text.ends_with("3\r\nend\r\n0\r\nx-keep: 1\r\nx-keep: 3\r\n\r\n"), "{text}");
        assert!(text.starts_with("1a\r\nabcdefghijklmnopqrstuvwxyz\r\n"), "{text}");
    }
    let wire = written(BodyFraming::Chunked, &[], b"2\r\nok\r\n0\r\n\r\n", 1);
    assert_eq!(wire, b"2\r\nok\r\n0\r\n\r\n");
}

#[test]
fn a_finished_piece_leads_to_the_next_one() {
    let mut connection = Http1Connection::new();
    connection.fill(b"3\r\nabc\r\n0\r\nA: b\r\n\r\n");
    let mut writer = RequestWriter::new(BodyFraming::Chunked, Vec::new());
    for piece in ["3\r\n", "abc", "\r\n", "0\r\n", "a", ": ", "b", "\r\n", "\r\n"] {
        assert!(!writer.waiting_on_upstream());
        assert_eq!(writer.step_downstream(&mut connection), StageStep::Staged);
        assert_eq!(writer.next_write(), Some(piece.as_bytes()));
        assert_eq!(writer.written(0), Err(ForwardErrorKind::BadGateway));
        writer.written(piece.len()).unwrap();
    }
    assert!(writer.waiting_on_upstream() && writer.next_write().is_none());
    assert!(!writer.complete());
    writer.flushed();
    assert!(writer.complete());
}

#[test]
fn stalled_chunk_prefix_accounts_for_its_full_retained_data_frame() {
    let mut connection = Http1Connection::new();
    connection.fill(format!("{REQUEST_BODY_FRAME_LIMIT:x}\r\n").as_bytes());
    connection.fill(&vec![b'x'; REQUEST_BODY_FRAME_LIMIT]);
    let mut request = RequestWriter::new(BodyFraming::Chunked, Vec::new());
    assert_eq!(request.step_downstream(&mut connection), StageStep::Staged);
    let prefix = format!("{REQUEST_BODY_FRAME_LIMIT:x}\r\n");
    let expected = prefix.len() + REQUEST_BODY_FRAME_LIMIT;
    assert_eq!(request.buffered_bytes(), expected);
    assert!(request.buffered_bytes() <= APPLICATION_BUFFER_LIMIT);
    assert_eq!(request.next_write(), Some(prefix.as_bytes()));

    request.written(1).unwrap();
    assert_eq!(request.buffered_bytes(), expected - 1);
    assert!(request.buffered_bytes() <= APPLICATION_BUFFER_LIMIT);
    assert!(request.waiting_on_upstream());
    assert!(!request.complete());
}

#[test]
fn forwards_expect_informationals_hop_filtering_via_and_trailers() {
    let wire = sent(
        b"POST http://allowed.example/expect HTTP/1.1\r\nHost: conflict.invalid\r\nConnection: X-Remove, close\r\nX-Remove: no\r\nProxy-Authorization: Basic secret\r\nVia: 1.0 prior\r\nExpect: 100-continue\r\nContent-Length: 4\r\n\r\ndata",
        b"/expect",
        b"allowed.example",
        usize::MAX,
    )
    .unwrap();
    let text = String::from_utf8(wire).unwrap();
    assert!(text.starts_with("POST /expect HTTP/1.1\r\n"));
    assert!(text.contains("host: allowed.example\r\n"));
    assert!(text.contains("expect: 100-continue\r\n"));
    assert!(text.contains("via: 1.0 prior\r\n"));
    assert!(text.contains("via: 1.1 vhrn\r\n"));
    assert!(!text.contains("conflict.invalid"));
    assert!(!text.contains("x-remove"));
    assert!(!text.contains("proxy-authorization"));
    assert!(text.ends_with("\r\n\r\ndata"));

    for (bytes, expected) in [
        (b"HTTP/1.1 103 Early Hints\r\nLink: </a>\r\n\r\n".as_slice(), 103),
        (b"HTTP/1.1 100 Continue\r\nX-Origin-Continue: yes\r\n\r\n", 100),
    ] {
        let interim = origin_head(bytes, "POST").unwrap();
        match respond(HttpVersion::Http11, interim, false).unwrap() {
            ExchangeStep::Informational { status, headers, forward } => {
                assert_eq!(status, expected);
                assert!(forward);
                assert_eq!(headers["via"], "1.1 vhrn");
            },
            ExchangeStep::Response(_) => panic!("an interim response"),
        }
    }

    let last = origin_head(
        b"HTTP/1.1 200 OK\r\nConnection: x-remove, close\r\nX-Remove: no\r\nProxy-Authenticate: Basic secret\r\nKeep-Alive: timeout=5\r\nVia: 1.0 prior\r\nTrailer: X-Checksum, X-Trace\r\nTransfer-Encoding: chunked\r\n\r\n",
        "POST",
    )
    .unwrap();
    let ExchangeStep::Response(response) = respond(HttpVersion::Http11, last, true).unwrap() else {
        panic!("a final response");
    };
    assert_eq!(response.status, 200);
    let via: Vec<&HeaderValue> = response.headers.get_all("via").iter().collect();
    assert_eq!(via, ["1.0 prior", "1.1 vhrn"]);
    for name in ["x-remove", "proxy-authenticate", "keep-alive", "trailer", "connection"] {
        assert!(!response.headers.contains_key(name), "{name}");
    }
    assert_eq!(response.framing, OriginBodyFraming::Chunked);
    assert!(!response.poolable);

    let served = served(
        b"POST http://allowed.example/expect HTTP/1.1\r\nHost: conflict.invalid\r\nConnection: X-Remove, close\r\nX-Remove: no\r\nProxy-Authorization: Basic secret\r\nVia: 1.0 prior\r\nExpect: 100-continue\r\nContent-Length: 4\r\n\r\ndata",
        b"/expect",
        b"allowed.example",
        b"HTTP/1.1 103 Early Hints\r\nLink: </a>\r\n\r\nHTTP/1.1 100 Continue\r\nX-Origin-Continue: yes\r\n\r\nHTTP/1.1 200 OK\r\nConnection: x-remove, close\r\nX-Remove: no\r\nProxy-Authenticate: Basic secret\r\nKeep-Alive: timeout=5\r\nVia: 1.0 prior\r\nTrailer: X-Checksum, X-Trace\r\nTransfer-Encoding: chunked\r\n\r\n1\r\na\r\n1\r\nb\r\n0\r\nX-Checksum: yes\r\nX-Trace: one\r\nX-Trace: two\r\n\r\n",
    )
    .unwrap();
    let at = served.downstream.find("HTTP/1.1 200 OK\r\n").unwrap();
    let (informational, response) = served.downstream.split_at(at);
    assert!(informational.contains("HTTP/1.1 103 Early Hints\r\n"));
    assert!(informational.contains("HTTP/1.1 100 Continue\r\n"));
    assert!(informational.contains("x-origin-continue: yes\r\n"));
    assert!(informational.ends_with("\r\n\r\n"));
    assert_eq!(informational.matches("via: 1.1 vhrn\r\n").count(), 2);
    assert!(response.starts_with("HTTP/1.1 200 OK\r\n"));
    assert!(response.contains("via: 1.0 prior\r\nvia: 1.1 vhrn\r\n"));
    assert!(response.contains("transfer-encoding: chunked\r\n"));
    assert!(!response.contains("x-remove:"));
    assert!(!response.contains("proxy-authenticate:"));
    assert!(!response.contains("keep-alive:"));
    assert!(!response.contains("trailer:"));
    assert!(response.contains("1\r\na\r\n1\r\nb\r\n0\r\nx-checksum: yes\r\n"));
    assert!(response.contains("x-trace: one\r\nx-trace: two\r\n"));
    assert!(response.ends_with("\r\n\r\n"));
}

#[test]
fn suppresses_origin_informationals_for_http10_clients() {
    let interim = origin_head(b"HTTP/1.1 103 Early Hints\r\nLink: </a>\r\n\r\n", "GET").unwrap();
    match respond(HttpVersion::Http10, interim, false).unwrap() {
        ExchangeStep::Informational { forward, .. } => assert!(!forward),
        ExchangeStep::Response(_) => panic!("an interim response"),
    }
    let response = served(
        b"GET http://allowed.example/http10 HTTP/1.0\r\n\r\n",
        b"/http10",
        b"allowed.example",
        b"HTTP/1.1 103 Early Hints\r\nLink: </a>\r\n\r\nHTTP/1.1 100 Continue\r\n\r\nHTTP/1.1 200 OK\r\nContent-Length: 2\r\nConnection: close\r\n\r\nok",
    )
    .unwrap()
    .downstream;
    assert!(response.starts_with("HTTP/1.0 200 OK\r\n"));
    assert!(!response.contains("100 Continue"));
    assert!(!response.contains("103 Early Hints"));
    assert!(response.ends_with("\r\n\r\nok"));
}

#[test]
fn forwards_request_trailers_and_removes_connection_nominations() {
    for step in [1, 5, usize::MAX] {
        let wire = sent(
            b"POST http://allowed.example/trailers HTTP/1.1\r\nHost: ignored\r\nConnection: X-Drop, close\r\nX-Drop: no\r\nTransfer-Encoding: chunked\r\nTrailer: X-End, X-Drop\r\n\r\n4\r\ndata\r\n0\r\nX-End: yes\r\nX-Drop: no\r\n\r\n",
            b"/trailers",
            b"allowed.example",
            step,
        )
        .unwrap();
        let text = String::from_utf8(wire).unwrap();
        assert!(text.starts_with("POST /trailers HTTP/1.1\r\n"));
        let (head, body) = text.split_once("\r\n\r\n").unwrap();
        assert!(head.contains("transfer-encoding: chunked"));
        assert!(!head.contains("trailer:"));
        assert!(!head.contains("x-drop:"));
        assert_eq!(body, "4\r\ndata\r\n0\r\nx-end: yes\r\n\r\n");
    }
    let served = served(
        b"POST http://allowed.example/trailers HTTP/1.1\r\nHost: ignored\r\nConnection: X-Drop, close\r\nX-Drop: no\r\nTransfer-Encoding: chunked\r\nTrailer: X-End, X-Drop\r\n\r\n4\r\ndata\r\n0\r\nX-End: yes\r\nX-Drop: no\r\n\r\n",
        b"/trailers",
        b"allowed.example",
        b"HTTP/1.1 204 No Content\r\nConnection: close\r\n\r\n",
    )
    .unwrap();
    assert!(served.upstream.contains("transfer-encoding: chunked\r\n"));
    assert!(served.downstream.starts_with("HTTP/1.1 204 No Content\r\n"));
    assert!(served.downstream.ends_with("\r\n\r\n"));
}

#[test]
fn forwards_a_limit_sized_request_trailer_with_bounded_state() {
    let prefix = b"X-Large: ";
    let value_length = HEADER_SECTION_LIMIT - prefix.len() - 4;
    let mut request = b"POST http://allowed.example/trailer-limit HTTP/1.1\r\nHost: ignored\r\nConnection: close\r\nTransfer-Encoding: chunked\r\n\r\n0\r\n".to_vec();
    request.extend_from_slice(prefix);
    request.extend(vec![b'a'; value_length]);
    request.extend_from_slice(b"\r\n\r\n");
    let wire = sent(&request, b"/trailer-limit", b"allowed.example", 4096).unwrap();
    let at = wire.windows(4).position(|value| value == b"\r\n\r\n").unwrap() + 4;
    let body = &wire[at..];
    let prefix = b"0\r\nx-large: ";
    assert_eq!(body.len(), 3 + HEADER_SECTION_LIMIT);
    assert!(body.starts_with(prefix));
    assert!(body.ends_with(b"\r\n\r\n"));
    assert_eq!(body.len() - prefix.len() - 4, value_length);
    assert!(body[prefix.len()..body.len() - 4].iter().all(|byte| *byte == b'a'));
    let response = served(
        &request,
        b"/trailer-limit",
        b"allowed.example",
        b"HTTP/1.1 204 No Content\r\nConnection: close\r\n\r\n",
    )
    .unwrap()
    .downstream;
    assert!(response.starts_with("HTTP/1.1 204 No Content\r\n"));
}

#[test]
fn reframes_origin_transfer_codings_for_http11_and_http10_clients() {
    let coded = b"HTTP/1.1 200 OK\r\nTransfer-Encoding: gzip\r\nConnection: close\r\n\r\n";
    let response = origin_head(coded, "GET").unwrap();
    let ExchangeStep::Response(response) = respond(HttpVersion::Http11, response, true).unwrap()
    else {
        panic!("a final response");
    };
    let codings: Vec<&HeaderValue> =
        response.headers.get_all("transfer-encoding").iter().collect();
    assert_eq!(codings, ["gzip", "chunked"]);
    assert_eq!(response.framing, OriginBodyFraming::CloseDelimited);
    assert!(!response.poolable);

    let response = origin_head(coded, "GET").unwrap();
    assert_eq!(
        respond(HttpVersion::Http10, response, true).err().unwrap(),
        forward_error(ForwardErrorKind::BadGateway, true)
    );

    let chunked = b"HTTP/1.1 200 OK\r\nTransfer-Encoding: chunked\r\n\r\n";
    let response = origin_head(chunked, "GET").unwrap();
    let ExchangeStep::Response(response) = respond(HttpVersion::Http10, response, true).unwrap()
    else {
        panic!("a final response");
    };
    assert!(!response.headers.contains_key("transfer-encoding"));
    assert_eq!(response.framing, OriginBodyFraming::Chunked);

    let text = served(
        b"GET http://allowed.example/gzip HTTP/1.1\r\nHost: ignored\r\nConnection: close\r\n\r\n",
        b"/gzip",
        b"allowed.example",
        b"HTTP/1.1 200 OK\r\nTransfer-Encoding: gzip\r\nConnection: close\r\n\r\ncoded",
    )
    .unwrap()
    .downstream;
    assert!(text.starts_with("HTTP/1.1 200 OK\r\n"));
    assert!(text.contains("transfer-encoding: gzip\r\n"));
    assert!(text.contains("transfer-encoding: chunked\r\n"));
    assert!(text.contains("connection: close\r\n"));
    assert!(text.ends_with("5\r\ncoded\r\n0\r\n\r\n"));

    let served = served(
        b"GET http://allowed.example/chunked HTTP/1.0\r\n\r\n",
        b"/chunked",
        b"allowed.example",
        b"HTTP/1.1 200 OK\r\nTransfer-Encoding: chunked\r\n\r\n3\r\nabc\r\n0\r\n\r\n",
    )
    .unwrap();
    let text = served.downstream;
    assert!(text.starts_with("HTTP/1.0 200 OK\r\n"));
    assert!(!text.contains("transfer-encoding:"));
    assert!(text.contains("connection: close\r\n"));
    assert!(text.ends_with("\r\n\r\nabc"));
    assert!(!served.reusable);
}

#[test]
fn head_204_and_304_preserve_describing_headers_without_body_bytes() {
    for (method, bytes, status, name, value) in [
        (
            "HEAD",
            b"HTTP/1.1 200 OK\r\nContent-Length: 5\r\nX-Case: head\r\n\r\n".as_slice(),
            200,
            "content-length",
            "5",
        ),
        ("GET", b"HTTP/1.1 204 No Content\r\nETag: one\r\n\r\n", 204, "etag", "one"),
        (
            "GET",
            b"HTTP/1.1 304 Not Modified\r\nContent-Length: 123\r\nETag: two\r\nConnection: close\r\n\r\n",
            304,
            "content-length",
            "123",
        ),
    ] {
        let response = origin_head(bytes, method).unwrap();
        let ExchangeStep::Response(response) =
            respond(HttpVersion::Http11, response, true).unwrap()
        else {
            panic!("a final response");
        };
        assert_eq!(response.status, status);
        assert_eq!(response.headers[name], value);
        assert_eq!(response.framing, OriginBodyFraming::NoBody);
    }
    let first = served(
        b"HEAD http://allowed.example/head HTTP/1.1\r\nHost: ignored\r\n\r\n",
        b"/head",
        b"allowed.example",
        b"HTTP/1.1 200 OK\r\nContent-Length: 5\r\nX-Case: head\r\n\r\n",
    )
    .unwrap();
    assert!(first.upstream.starts_with("HEAD /head HTTP/1.1\r\n"));
    assert!(first.downstream.starts_with("HTTP/1.1 200 OK\r\n"));
    assert!(first.downstream.contains("content-length: 5\r\n"));
    assert!(first.downstream.contains("x-case: head\r\n"));
    assert!(first.downstream.ends_with("\r\n\r\n"));
    assert!(first.reusable && first.poolable);

    let second = served(
        b"GET http://allowed.example/no-content HTTP/1.1\r\nHost: ignored\r\n\r\n",
        b"/no-content",
        b"allowed.example",
        b"HTTP/1.1 204 No Content\r\nETag: one\r\n\r\n",
    )
    .unwrap();
    assert!(second.upstream.starts_with("GET /no-content HTTP/1.1\r\n"));
    assert!(second.downstream.starts_with("HTTP/1.1 204 No Content\r\n"));
    assert!(second.downstream.contains("etag: one\r\n"));
    assert!(second.downstream.ends_with("\r\n\r\n"));

    let third = served(
        b"GET http://allowed.example/not-modified HTTP/1.1\r\nHost: ignored\r\nConnection: close\r\n\r\n",
        b"/not-modified",
        b"allowed.example",
        b"HTTP/1.1 304 Not Modified\r\nContent-Length: 123\r\nETag: two\r\nConnection: close\r\n\r\n",
    )
    .unwrap();
    assert!(third.upstream.starts_with("GET /not-modified HTTP/1.1\r\n"));
    assert!(third.downstream.starts_with("HTTP/1.1 304 Not Modified\r\n"));
    assert!(third.downstream.contains("content-length: 123\r\n"));
    assert!(third.downstream.contains("etag: two\r\n"));
    assert!(third.downstream.ends_with("\r\n\r\n"));
    assert!(!third.poolable && !third.reusable);
}

#[test]
fn origin_header_limit_is_enforced_before_downstream_commit() {
    let response = |length: usize| {
        let fixed = b"Connection: close\r\nX: ";
        let mut response = b"HTTP/1.1 200 OK\r\n".to_vec();
        response.extend_from_slice(fixed);
        response.extend(vec![b'a'; length - fixed.len() - 4]);
        response.extend_from_slice(b"\r\n\r\n");
        response
    };
    let exchanged = |path: &str, length: usize| {
        let request = format!(
            "GET http://allowed.example{path} HTTP/1.1\r\nHost: ignored\r\nConnection: close\r\n\r\n"
        );
        served(request.as_bytes(), path.as_bytes(), b"allowed.example", &response(length))
    };
    let exact = exchanged("/exact", HEADER_SECTION_LIMIT).ok().unwrap();
    assert!(exact.downstream.starts_with("HTTP/1.1 200 OK\r\n"));
    assert_eq!(
        exchanged("/too-large", HEADER_SECTION_LIMIT + 1).err().unwrap(),
        ForwardErrorKind::BadGateway
    );
    let outcome = forward_failure(forward_error(ForwardErrorKind::BadGateway, true), false);
    let Reply::Own(answer) = outcome.reply else { panic!("an answer of the proxy") };
    let bytes = response_head(HttpVersion::Http11, answer.status, "Bad Gateway", &answer.headers, true);
    assert!(bytes.starts_with(b"HTTP/1.1 502 Bad Gateway\r\n"));
    assert!(!answer.body.windows(32).any(|window| window.iter().all(|byte| *byte == b'a')));
}

#[test]
fn precommit_origin_error_is_502_but_postcommit_error_only_closes() {
    let failed = |origin: &[u8]| {
        served(
            b"GET http://allowed.example/pre HTTP/1.1\r\nHost: ignored\r\nConnection: close\r\n\r\n",
            b"/pre",
            b"allowed.example",
            origin,
        )
        .err()
        .unwrap()
    };
    assert_eq!(
        failed(b"HTTP/1.1 200 OK\r\nBad Header: value\r\n\r\n"),
        ForwardErrorKind::BadGateway
    );
    let outcome = forward_failure(forward_error(ForwardErrorKind::BadGateway, true), false);
    let Reply::Own(answer) = outcome.reply else { panic!("an answer of the proxy") };
    assert_eq!(answer.status, 502);
    assert!(answer.body.ends_with(b"bad gateway\n"));

    let origin = b"HTTP/1.1 200 OK\r\nTransfer-Encoding: chunked\r\n\r\n10000000000000000\r\n";
    let mut reader = OriginReader::new();
    reader.fill(origin);
    let OriginHeadStep::Ready(head) = reader.read_response_head(b"GET") else {
        panic!("a whole head")
    };
    let ExchangeStep::Response(answer) = respond(HttpVersion::Http11, head, true).unwrap() else {
        panic!("a final response")
    };
    assert_eq!(answer.status, 200);
    let mut decoder = OriginDecoder::new(answer.framing, answer.nominations);
    assert_eq!(decoder.next_frame(&mut reader), OriginStep::Failed(OriginError::Invalid));
}

#[test]
fn streams_response_larger_than_former_cap_before_origin_finishes() {
    let body_bytes = 8 * 1024 * 1024 + 19;
    let mut origin = format!(
        "HTTP/1.1 200 OK\r\nContent-Length: {body_bytes}\r\nConnection: close\r\n\r\na"
    )
    .into_bytes();
    let mut reader = OriginReader::new();
    reader.fill(&origin);
    let OriginHeadStep::Ready(head) = reader.read_response_head(b"GET") else {
        panic!("a whole head")
    };
    let mut decoder = OriginDecoder::new(head.framing, Vec::new());
    assert_eq!(
        decoder.next_frame(&mut reader),
        OriginStep::Frame(OriginFrame::Data(b"a".to_vec()))
    );
    origin.extend(vec![b'b'; body_bytes - 1]);
    let response = served(
        b"GET http://allowed.example/large HTTP/1.1\r\nHost: ignored.invalid\r\nConnection: close\r\n\r\n",
        b"/large",
        b"allowed.example",
        &origin,
    )
    .ok()
    .unwrap()
    .downstream;
    let body_start = response.find("\r\n\r\n").unwrap() + 4;
    assert_eq!(response.as_bytes()[body_start], b'a');
    assert_eq!(response.len() - body_start, body_bytes);
}

#[test]
fn origin_head_errors_and_connection_close_never_reuse_streams() {
    let request = head("GET", b"http://example.com/", BodyFraming::NoBody);
    let exchange = Exchange::begin(&request, b"/", b"example.com").ok().unwrap();
    assert_eq!(
        exchange.respond(Err(OriginError::Invalid)).err().unwrap(),
        forward_error(ForwardErrorKind::BadGateway, exchange.request_complete())
    );
    let switching = origin_head(b"HTTP/1.1 101 Switching Protocols\r\n\r\n", "GET").unwrap();
    assert_eq!(exchange.respond(Ok(switching)).err().unwrap().kind, ForwardErrorKind::BadGateway);
    let clean = origin_head(b"HTTP/1.1 200 OK\r\nContent-Length: 0\r\n\r\n", "GET").unwrap();
    let ExchangeStep::Response(kept) = respond(HttpVersion::Http11, clean, true).unwrap() else {
        panic!("a final response");
    };
    assert!(kept.poolable);
    let early = origin_head(b"HTTP/1.1 200 OK\r\nContent-Length: 0\r\n\r\n", "GET").unwrap();
    let ExchangeStep::Response(lost) = respond(HttpVersion::Http11, early, false).unwrap() else {
        panic!("a final response");
    };
    assert!(!lost.poolable);

    let served = |path: &str, origin: &[u8]| {
        let request = format!("GET http://allowed.example{path} HTTP/1.1\r\nHost: ignored\r\n\r\n");
        served(request.as_bytes(), path.as_bytes(), b"allowed.example", origin)
    };
    assert_eq!(
        served("/invalid", b"HTTP/1.1 200 OK\r\nBad Header: no\r\n\r\n").err().unwrap(),
        ForwardErrorKind::BadGateway
    );
    let outcome = forward_failure(forward_error(ForwardErrorKind::BadGateway, true), false);
    let Reply::Own(answer) = outcome.reply else { panic!("an answer of the proxy") };
    assert_eq!((answer.status, answer.body.as_slice()), (502, b"bad gateway\n".as_slice()));
    let closed =
        served("/close", b"HTTP/1.1 204 No Content\r\nConnection: close\r\n\r\n").ok().unwrap();
    assert!(closed.upstream.starts_with("GET /close HTTP/1.1\r\n"));
    assert!(closed.downstream.starts_with("HTTP/1.1 204 No Content\r\n"));
    assert!(!closed.poolable);
}

#[test]
fn interruptions_keep_how_far_the_request_came() {
    let request = head("GET", b"http://example.com/", BodyFraming::NoBody);
    let exchange = Exchange::begin(&request, b"/", b"example.com").ok().unwrap();
    assert_eq!(exchange.method(), b"GET");
    assert_eq!(exchange.wait(), ExchangeWait::WriteHead);
    for (by, kind) in [
        (Interruption::Cancelled, ForwardErrorKind::Cancelled),
        (Interruption::PeerClosed, ForwardErrorKind::ClientDisconnected),
        (Interruption::UpstreamFailed, ForwardErrorKind::BadGateway),
    ] {
        assert_eq!(exchange.interrupted(by).kind, kind);
    }
}

#[test]
fn a_broken_request_body_is_a_bad_request() {
    assert_eq!(
        sent(
            b"POST http://a.example/ HTTP/1.1\r\nHost: a\r\nTransfer-Encoding: chunked\r\n\r\nzz\r\n",
            b"/",
            b"a.example",
            usize::MAX,
        ),
        Err(ForwardErrorKind::BadRequest)
    );
}
