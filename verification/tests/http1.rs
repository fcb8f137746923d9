use vhrn::headers::HttpVersion;
use vhrn::server::http1::{
    header_field_bytes, parse_chunk_size, parse_origin_response_head, BodyFraming, IngressError, OriginBodyFraming,
    OriginError, RequestHead, APPLICATION_BUFFER_LIMIT, CONNECTION_BUFFER_LIMIT,
    HEADER_SECTION_LIMIT, REQUEST_BODY_FRAME_LIMIT, REQUEST_LINE_LIMIT,
};
use vhrn::server::ingress::{
    scan_head, BodyDecoder, BodyFrame, BodyStep, HeadScan, HeadStep, Http1Connection,
};
use vhrn::server::response::{failure, ProxyFailure};

/// A peer that has sent all its octets and then closed.
struct Peer {
    bytes: Vec<u8>,
    sent: usize,
    step: usize,
    connection: Http1Connection,
    peak: usize,
}

impl Peer {
    fn new(bytes: &[u8]) -> Peer {
        Peer::slow(bytes, usize::MAX)
    }

    fn slow(bytes: &[u8], step: usize) -> Peer {
        Peer { bytes: bytes.to_vec(), sent: 0, step, connection: Http1Connection::new(), peak: 0 }
    }

    fn send(&mut self, room: usize) -> bool {
        let count = room.min(self.step).min(self.bytes.len() - self.sent);
        self.connection.fill(&self.bytes[self.sent..self.sent + count]);
        self.sent += count;
        count > 0
    }

    fn read_head(&mut self) -> Result<RequestHead, IngressError> {
        loop {
            match self.connection.read_head() {
                HeadStep::Ready(head) => return Ok(head),
                HeadStep::Failed(error) => return Err(error),
                HeadStep::NeedInput(room) => {
                    assert!(room > 0);
                    if !self.send(room) {
                        return Err(self.connection.head_at_end().unwrap());
                    }
                },
            }
        }
    }

    fn next_frame(&mut self, decoder: &mut BodyDecoder) -> Result<Option<BodyFrame>, IngressError> {
        loop {
            let step = decoder.next_frame(&mut self.connection);
            let owned = match &step {
                BodyStep::Frame(BodyFrame::Data(data)) => data.len(),
                BodyStep::Frame(BodyFrame::Trailers(trailers)) => header_field_bytes(trailers),
                _ => decoder.buffered_bytes(),
            };
            self.peak = self.peak.max(self.connection.buffered() + owned);
            match step {
                BodyStep::Frame(frame) => return Ok(Some(frame)),
                BodyStep::Complete => return Ok(None),
                BodyStep::Failed(error) => return Err(error),
                BodyStep::NeedInput(room) => {
                    if !self.send(room) {
                        return Err(IngressError::Incomplete);
                    }
                },
            }
        }
    }
}

fn head_error(bytes: &[u8]) -> IngressError {
    Peer::new(bytes).read_head().err().unwrap()
}

#[test]
fn origin_response_framing_preserves_bodyless_semantics_and_overflow_is_invalid() {
    for (method, status, fields) in [
        ("HEAD", b"HTTP/1.1 200 OK\r\n".as_slice(), b"Content-Length: 99\r\n\r\n".as_slice()),
        ("GET", b"HTTP/1.1 103 Early Hints\r\n", b"\r\n"),
        ("GET", b"HTTP/1.1 204 No Content\r\n", b"\r\n"),
        ("GET", b"HTTP/1.1 304 Not Modified\r\n", b"Content-Length: 99\r\n\r\n"),
    ] {
        let parsed = parse_origin_response_head(status, fields, method.as_bytes()).ok().unwrap();
        assert_eq!(parsed.framing, OriginBodyFraming::NoBody);
    }
    assert_eq!(
        parse_origin_response_head(
            b"HTTP/1.1 200 OK\r\n",
            b"Content-Length: 18446744073709551616\r\n\r\n",
            b"GET",
        )
        .err()
        .unwrap(),
        OriginError::Invalid
    );
    assert_eq!(
        parse_origin_response_head(
            b"HTTP/1.1 204 No Content\r\n",
            b"Content-Length: 0\r\n\r\n",
            b"GET",
        )
        .err()
        .unwrap(),
        OriginError::Invalid
    );
}

#[test]
fn http1_request_line_raw_octet_limits_are_exact() {
    for (length, expected) in [
        (REQUEST_LINE_LIMIT - 1, Ok(())),
        (REQUEST_LINE_LIMIT, Ok(())),
        (REQUEST_LINE_LIMIT + 1, Err(IngressError::BadRequest)),
    ] {
        let fixed = b"GET / HTTP/1.1\r\n".len();
        let mut bytes = b"GET /".to_vec();
        bytes.extend(vec![b'a'; length - fixed]);
        bytes.extend_from_slice(b" HTTP/1.1\r\nHost: test\r\n\r\n");
        let mut peer = Peer::new(&bytes);
        let actual = peer.read_head().map(|_| ());
        assert_eq!(actual, expected, "request-line length {length}");
        if length > REQUEST_LINE_LIMIT {
            assert!(peer.connection.buffered() <= REQUEST_LINE_LIMIT);
        }
    }
}

#[test]
fn http1_header_raw_octet_limits_are_exact() {
    for (length, expected) in [
        (HEADER_SECTION_LIMIT - 1, Ok(())),
        (HEADER_SECTION_LIMIT, Ok(())),
        (HEADER_SECTION_LIMIT + 1, Err(IngressError::HeadersTooLarge)),
    ] {
        let fixed = b"Host: test\r\nX: \r\n\r\n".len();
        let mut bytes = b"GET / HTTP/1.1\r\nHost: test\r\nX: ".to_vec();
        bytes.extend(vec![b'a'; length - fixed]);
        bytes.extend_from_slice(b"\r\n\r\n");
        let mut peer = Peer::new(&bytes);
        let actual = peer.read_head().map(|_| ());
        assert_eq!(actual, expected, "header-section length {length}");
        assert!(
            peer.sent <= b"GET / HTTP/1.1\r\n".len() + HEADER_SECTION_LIMIT,
            "header overflow was detected before reading beyond its cap"
        );
    }
}

#[test]
fn http1_byte_at_a_time_fragmentation_preserves_head_and_body() {
    let bytes = b"POST /healthz HTTP/1.1\r\nHost: test\r\nContent-Length: 4\r\n\r\nbody";
    let mut peer = Peer::slow(bytes, 1);
    let head = peer.read_head().unwrap();
    assert_eq!(head.raw_target, b"/healthz");
    assert_eq!(head.framing, BodyFraming::ContentLength(4));
    let mut decoder = BodyDecoder::new(head.framing);
    let mut received = Vec::new();
    while let Some(frame) = peer.next_frame(&mut decoder).unwrap() {
        if let BodyFrame::Data(data) = frame {
            received.extend_from_slice(&data);
        }
    }
    assert_eq!(received, b"body");
}

#[test]
fn http1_rejects_ambiguous_framing_and_invalid_hosts() {
    let cases: &[&[u8]] = &[
        b"GET / HTTP/1.1\r\n\r\n",
        b"GET / HTTP/1.1\r\nHost: one\r\nHost: two\r\n\r\n",
        b"GET / HTTP/1.1\r\nHost : test\r\n\r\n",
        b"GET / HTTP/1.1\r\n Host: test\r\n\r\n",
        b"GET / HTTP/1.1\r\nHost: test\r\nContent-Length: x\r\n\r\n",
        b"GET / HTTP/1.1\r\nHost: test\r\nContent-Length: 1\r\nContent-Length: 2\r\n\r\n",
        b"GET / HTTP/1.1\r\nHost: test\r\nContent-Length: 1\r\nTransfer-Encoding: chunked\r\n\r\n",
        b"GET / HTTP/1.1\r\nHost: test\r\nTransfer-Encoding: gzip\r\n\r\n",
        b"GET / HTTP/1.1\r\nHost: test\r\nTransfer-Encoding: chunked, gzip\r\n\r\n",
        b"GET / HTTP/1.1\r\nHost: test\r\nTransfer-Encoding: chunked; x=y\r\n\r\n",
        b"GET / HTTP/1.1\r\nHost: test\r\nContent-Length: 18446744073709551616\r\n\r\n",
        b"GET / HTTP/1.1\nHost: test\r\n\r\n",
        b"GET / HTTP/1.1\rX: y\r\n\r\n",
    ];
    for bytes in cases {
        assert_eq!(
            head_error(bytes),
            IngressError::BadRequest,
            "{}",
            String::from_utf8_lossy(bytes)
        );
    }
}

#[test]
fn http1_hosts_are_authorities() {
    let head = |host: &str| {
        Peer::new(format!("GET / HTTP/1.1\r\nHost: {host}\r\n\r\n").as_bytes()).read_head()
    };
    assert!(head("example.com:8080").is_ok());
    assert!(head("[::1]:80").is_ok());
    assert_eq!(head("user@example.com").err().unwrap(), IngressError::BadRequest);
    assert_eq!(head("a b").err().unwrap(), IngressError::BadRequest);
}

#[test]
fn http1_many_small_headers_fit_by_raw_octets_not_field_count() {
    let mut bytes = b"GET / HTTP/1.1\r\nHost: test\r\n".to_vec();
    for _ in 0..1_000 {
        bytes.extend_from_slice(b"X-Small: x\r\n");
    }
    bytes.extend_from_slice(b"\r\n");
    let head = Peer::new(&bytes).read_head().unwrap();
    assert_eq!(head.headers.get_all("x-small").iter().count(), 1_000);
}

#[test]
fn http1_rejects_tls_and_unsupported_versions_without_waiting_for_more() {
    let mut tls = Http1Connection::new();
    tls.fill(b"\x16\x03\x01\x00\x10");
    assert!(matches!(tls.read_head(), HeadStep::Failed(IngressError::BadRequest)));

    assert_eq!(
        head_error(b"PRI * HTTP/2.0\r\n\r\nSM\r\n\r\n"),
        IngressError::UnsupportedVersion
    );

    for bytes in [
        b"GET / HTTP/\r\nHost: test\r\n\r\n".as_slice(),
        b"GET / HTTP/1\r\nHost: test\r\n\r\n",
        b"GET / HTTP/1.x\r\nHost: test\r\n\r\n",
        b"GET / HTTP/11.1\r\nHost: test\r\n\r\n",
    ] {
        assert_eq!(
            head_error(bytes),
            IngressError::BadRequest,
            "{}",
            String::from_utf8_lossy(bytes)
        );
    }
}

#[test]
fn http1_transfer_parameters_observe_quoted_delimiters_and_escapes() {
    let mut peer = Peer::new(
        b"POST / HTTP/1.1\r\nHost: test\r\nTransfer-Encoding: gzip; note=\"a,b;c\\\"d\\\\e\", chunked\r\n\r\n0\r\n\r\n",
    );
    let head = peer.read_head().unwrap();
    assert_eq!(head.framing, BodyFraming::Chunked);
    assert_eq!(peer.next_frame(&mut BodyDecoder::new(head.framing)), Ok(None));

    assert_eq!(parse_chunk_size(b"4; note=\"a,b;c\\\"d\\\\e\""), Ok(4));
    for line in [
        b"4; note=\"unterminated".as_slice(),
        b"4; note=\"dangling\\\"",
        b"4; note=\"bad\"quote\"",
        b"4; note=a=b",
        b"4;;note=x",
    ] {
        assert_eq!(
            parse_chunk_size(line),
            Err(IngressError::BadRequest),
            "{}",
            String::from_utf8_lossy(line)
        );
    }

    for value in [
        b"gzip; note=\"unterminated, chunked".as_slice(),
        b"gzip; note=\"dangling\\\", chunked",
        b"gzip; note=\"bad\"quote\", chunked",
        b"gzip; note=a=b, chunked",
        b"gzip;;note=x, chunked",
    ] {
        let mut bytes = b"POST / HTTP/1.1\r\nHost: test\r\nTransfer-Encoding: ".to_vec();
        bytes.extend_from_slice(value);
        bytes.extend_from_slice(b"\r\n\r\n");
        assert_eq!(
            head_error(&bytes),
            IngressError::BadRequest,
            "{}",
            String::from_utf8_lossy(value)
        );
    }
}

#[test]
fn response_prefetch_enforces_the_active_next_head_limit() {
    let first = b"GET /healthz HTTP/1.1\r\nHost: test\r\n\r\n";

    let mut bytes = first.to_vec();
    bytes.extend_from_slice(b"GET /");
    bytes.extend(vec![b'a'; REQUEST_LINE_LIMIT + 32]);
    let mut peer = Peer::new(&bytes);
    let head = peer.read_head().unwrap();
    assert_eq!(head.raw_target, b"/healthz");
    while peer.connection.buffered() < REQUEST_LINE_LIMIT {
        let room = peer.connection.prefetch_room().unwrap();
        assert!(peer.send(room));
    }
    assert_eq!(
        peer.connection.buffered(),
        REQUEST_LINE_LIMIT,
        "prefetch stopped at the active request-line boundary"
    );
    assert_eq!(peer.connection.prefetch_room(), None);
    assert_eq!(peer.read_head().err().unwrap(), IngressError::BadRequest);

    let next_line = b"GET / HTTP/1.1\r\n";
    let mut bytes = first.to_vec();
    bytes.extend_from_slice(next_line);
    bytes.extend_from_slice(b"X: ");
    bytes.extend(vec![b'a'; HEADER_SECTION_LIMIT + 32]);
    let mut peer = Peer::new(&bytes);
    let head = peer.read_head().unwrap();
    assert_eq!(head.raw_target, b"/healthz");
    while peer.connection.buffered() < next_line.len() + HEADER_SECTION_LIMIT {
        let room = peer.connection.prefetch_room().unwrap();
        assert!(peer.send(room));
    }
    assert_eq!(
        peer.connection.buffered(),
        next_line.len() + HEADER_SECTION_LIMIT,
        "prefetch stopped at the active header boundary"
    );
    assert!(peer.connection.buffered() <= CONNECTION_BUFFER_LIMIT);
    assert_eq!(peer.read_head().err().unwrap(), IngressError::HeadersTooLarge);
}

#[test]
fn prefetched_errors_use_the_next_requests_head_state() {
    for (previous, next, expected_body) in [
        ("GET", "HEAD", b"".as_slice()),
        ("HEAD", "GET", b"request header fields too large\n".as_slice()),
    ] {
        let first = format!("{previous} /healthz HTTP/1.1\r\nHost: test\r\n\r\n");
        let next_line = format!("{next} / HTTP/1.1\r\n");
        let mut bytes = first.as_bytes().to_vec();
        bytes.extend_from_slice(next_line.as_bytes());
        bytes.extend_from_slice(b"X: ");
        bytes.extend(vec![b'a'; HEADER_SECTION_LIMIT + 32]);

        let mut peer = Peer::new(&bytes);
        peer.read_head().unwrap();
        while let Some(room) = peer.connection.prefetch_room() {
            assert!(peer.send(room));
        }
        assert_eq!(peer.read_head().err().unwrap(), IngressError::HeadersTooLarge);
        let response = failure(&ProxyFailure::HeadersTooLarge, peer.connection.request_is_head());
        assert_eq!(response.body, expected_body, "{previous} followed by {next}");
    }
}

#[test]
fn http1_accepts_http10_without_host_and_identical_content_lengths() {
    let head = Peer::new(
        b"POST /healthz HTTP/1.0\r\nContent-Length: 4, 4\r\nContent-Length: 4\r\n\r\nbody",
    )
    .read_head()
    .unwrap();
    assert_eq!(head.version, HttpVersion::Http10);
    assert_eq!(head.framing, BodyFraming::ContentLength(4));
}

#[test]
fn http1_fixed_and_chunked_decoders_stream_and_preserve_trailers() {
    let payload = vec![b'x'; APPLICATION_BUFFER_LIMIT + 1];
    let mut bytes =
        format!("POST / HTTP/1.1\r\nHost: test\r\nContent-Length: {}\r\n\r\n", payload.len())
            .into_bytes();
    bytes.extend_from_slice(&payload);
    let mut peer = Peer::new(&bytes);
    let head = peer.read_head().unwrap();
    let mut decoder = BodyDecoder::new(head.framing);
    let mut total = 0;
    while let Some(frame) = peer.next_frame(&mut decoder).unwrap() {
        let BodyFrame::Data(data) = frame else {
            panic!("fixed body cannot have trailers");
        };
        assert!(data.len() <= REQUEST_BODY_FRAME_LIMIT);
        total += data.len();
    }
    assert_eq!(total, payload.len());
    assert!(peer.peak <= APPLICATION_BUFFER_LIMIT);

    let mut peer = Peer::new(
        b"POST / HTTP/1.1\r\nHost: test\r\nTransfer-Encoding: chunked\r\nTrailer: X-End\r\n\r\n4\r\nbody\r\n0\r\nX-End: yes\r\n\r\n",
    );
    let head = peer.read_head().unwrap();
    let mut decoder = BodyDecoder::new(head.framing);
    assert_eq!(peer.next_frame(&mut decoder), Ok(Some(BodyFrame::Data(b"body".to_vec()))));
    match peer.next_frame(&mut decoder).unwrap().unwrap() {
        BodyFrame::Trailers(values) => assert_eq!(values["x-end"], "yes"),
        BodyFrame::Data(_) => panic!("trailers"),
    }
    assert_eq!(peer.next_frame(&mut decoder), Ok(None));

    let mut peer = Peer::new(
        b"POST / HTTP/1.1\r\nHost: test\r\nTransfer-Encoding: chunked\r\n\r\n0\r\n\r\n",
    );
    let head = peer.read_head().unwrap();
    assert_eq!(peer.next_frame(&mut BodyDecoder::new(head.framing)), Ok(None));
}

#[test]
fn request_trailer_limit_stays_within_the_aggregate_buffer_budget() {
    let prefix = b"X-Large: ";
    let value_length = HEADER_SECTION_LIMIT - prefix.len() - 4;
    let mut bytes =
        b"POST / HTTP/1.1\r\nHost: test\r\nTransfer-Encoding: chunked\r\n\r\n0\r\n".to_vec();
    bytes.extend_from_slice(prefix);
    bytes.extend(vec![b'a'; value_length]);
    bytes.extend_from_slice(b"\r\n\r\n");

    let mut peer = Peer::new(&bytes);
    let head = peer.read_head().unwrap();
    let mut decoder = BodyDecoder::new(head.framing);
    let BodyFrame::Trailers(trailers) = peer.next_frame(&mut decoder).unwrap().unwrap() else {
        panic!("zero chunk must be followed by trailers");
    };
    assert_eq!(trailers["x-large"].as_bytes().len(), value_length);
    assert!(peer.peak <= APPLICATION_BUFFER_LIMIT);
}

#[test]
fn http1_body_decoder_rejects_early_disconnect_and_chunk_overflow() {
    let mut peer =
        Peer::new(b"POST / HTTP/1.1\r\nHost: test\r\nContent-Length: 5\r\n\r\nbody");
    let head = peer.read_head().unwrap();
    let mut decoder = BodyDecoder::new(head.framing);
    assert!(peer.next_frame(&mut decoder).is_ok());
    assert_eq!(peer.next_frame(&mut decoder), Err(IngressError::Incomplete));

    let mut peer = Peer::new(
        b"POST / HTTP/1.1\r\nHost: test\r\nTransfer-Encoding: chunked\r\n\r\n10000000000000000\r\n",
    );
    let head = peer.read_head().unwrap();
    assert_eq!(
        peer.next_frame(&mut BodyDecoder::new(head.framing)),
        Err(IngressError::BadRequest)
    );
}

#[test]
fn http1_connect_prefix_is_replayed_before_socket_bytes() {
    let mut connection = Http1Connection::new();
    connection.fill(b"CONNECT test:443 HTTP/1.1\r\nHost: test:443\r\n\r\nprefix");
    let HeadStep::Ready(head) = connection.read_head() else {
        panic!("a complete head");
    };
    assert_eq!(head.method, b"CONNECT");
    assert_eq!(connection.into_prefix(), b"prefix");
}

#[test]
fn a_complete_head_stays_where_it_is_whatever_follows() {
    let head = b"GET / HTTP/1.1\r\nHost: test\r\n\r\n";
    let found = scan_head(head);
    assert_eq!(found, HeadScan::Complete(16, head.len()));
    let mut more = head.to_vec();
    more.extend_from_slice(b"\n\n\xff");
    assert_eq!(scan_head(&more), found);
    assert!(matches!(scan_head(b"GET\n"), HeadScan::Failed(_)));
    assert!(matches!(scan_head(b"GET\n / HTTP/1.1\r\n\r\n"), HeadScan::Failed(_)));
    assert_eq!(scan_head(b"GET / HT"), HeadScan::NeedMore(REQUEST_LINE_LIMIT));
}

#[test]
fn a_body_delivers_the_same_in_any_parts() {
    let body = b"5;x=\"y\"\r\nhello\r\n3\r\nabc\r\n0\r\nA: 1\r\nB: 2\r\n\r\nnext";
    for step in [1, 2, 3, 7, 64] {
        let mut connection = Http1Connection::new();
        let mut decoder = BodyDecoder::new(BodyFraming::Chunked);
        let mut data = Vec::new();
        let mut trailers = None;
        let mut sent = 0;
        loop {
            match decoder.next_frame(&mut connection) {
                BodyStep::Frame(BodyFrame::Data(part)) => data.extend(part),
                BodyStep::Frame(BodyFrame::Trailers(map)) => trailers = Some(map),
                BodyStep::NeedInput(room) => {
                    let count = room.min(step).min(body.len() - sent);
                    connection.fill(&body[sent..sent + count]);
                    sent += count;
                },
                BodyStep::Complete => break,
                BodyStep::Failed(error) => panic!("{error:?}"),
            }
        }
        assert_eq!(data, b"helloabc");
        let trailers = trailers.unwrap();
        assert_eq!((&trailers["a"], &trailers["b"]), (&"1".parse().unwrap(), &"2".parse().unwrap()));
        connection.fill(&body[sent..]);
        assert_eq!(connection.into_prefix(), b"next");
    }
}

#[test]
fn draining_throws_the_rest_of_a_body_away() {
    let mut connection = Http1Connection::new();
    connection.fill(b"3\r\nabc\r\n0\r\n\r\nGET");
    let mut decoder = BodyDecoder::new(BodyFraming::Chunked);
    assert_eq!(decoder.drain(&mut connection), BodyStep::Complete);
    assert!(connection.has_head_start());
    assert_eq!(connection.into_prefix(), b"GET");
    let mut empty = Http1Connection::new();
    assert_eq!(empty.head_at_end(), None);
    let mut fixed = BodyDecoder::new(BodyFraming::ContentLength(2));
    assert_eq!(fixed.drain(&mut empty), BodyStep::NeedInput(2));
}
