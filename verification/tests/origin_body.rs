use hyper::header::HeaderValue;
use hyper::HeaderMap;
use vhrn::connect::origin_body::{
    returns_to_pool, scan_origin_head, OriginDecoder, OriginFrame, OriginHeadStep, OriginReader,
    OriginScan, OriginStep,
};
use vhrn::server::http1::{
    header_field_bytes, OriginBodyFraming, OriginError, OriginResponseHead,
    APPLICATION_BUFFER_LIMIT, HEADER_SECTION_LIMIT, RESPONSE_BODY_FRAME_LIMIT,
};
use vhrn::server::streaming::ResponseBody;

/// An origin that has sent all its octets and then closed.
struct Origin {
    bytes: Vec<u8>,
    sent: usize,
    reader: OriginReader,
    peak: usize,
}

impl Origin {
    fn new(bytes: Vec<u8>) -> Origin {
        Origin { bytes, sent: 0, reader: OriginReader::new(), peak: 0 }
    }

    fn send(&mut self, room: usize) -> bool {
        let count = room.min(self.bytes.len() - self.sent);
        self.reader.fill(&self.bytes[self.sent..self.sent + count]);
        self.sent += count;
        count > 0
    }

    fn head(&mut self, method: &str) -> Result<OriginResponseHead, OriginError> {
        loop {
            match self.reader.read_response_head(method.as_bytes()) {
                OriginHeadStep::Ready(head) => return Ok(head),
                OriginHeadStep::Failed(error) => return Err(error),
                OriginHeadStep::NeedInput(room) => {
                    if !self.send(room) {
                        return Err(OriginError::Incomplete);
                    }
                },
            }
        }
    }

    fn frame(&mut self, decoder: &mut OriginDecoder) -> Result<Option<OriginFrame>, OriginError> {
        loop {
            let step = decoder.next_frame(&mut self.reader);
            let owned = match &step {
                OriginStep::Frame(OriginFrame::Data(data)) => data.len(),
                OriginStep::Frame(OriginFrame::Trailers(trailers)) => header_field_bytes(trailers),
                _ => 0,
            };
            self.peak = self.peak.max(self.reader.buffered() + owned);
            match step {
                OriginStep::Frame(frame) => return Ok(Some(frame)),
                OriginStep::Complete => return Ok(None),
                OriginStep::Failed(error) => return Err(error),
                OriginStep::NeedInput(room) => {
                    assert!(room <= APPLICATION_BUFFER_LIMIT);
                    if !self.send(room) {
                        decoder.end_of_input()?;
                    }
                },
            }
        }
    }
}

#[test]
fn origin_header_section_raw_limit_is_exact_without_overallocation() {
    for (length, expected) in [
        (HEADER_SECTION_LIMIT, Ok(200)),
        (HEADER_SECTION_LIMIT + 1, Err(OriginError::HeadersTooLarge)),
    ] {
        let value_length = length - 7;
        let mut response = b"HTTP/1.1 200 OK\r\nX: ".to_vec();
        response.extend(vec![b'a'; value_length]);
        response.extend_from_slice(b"\r\n\r\n");
        let result = Origin::new(response).head("GET").map(|head| head.status);
        assert_eq!(result, expected, "header section length {length}");
    }
}

#[test]
fn origin_chunk_overflow_and_truncation_are_terminal_framing_errors() {
    let response =
        b"HTTP/1.1 200 OK\r\nTransfer-Encoding: chunked\r\n\r\n10000000000000000\r\n".to_vec();
    let mut origin = Origin::new(response);
    let head = origin.head("GET").unwrap();
    let mut decoder = OriginDecoder::new(head.framing, Vec::new());
    assert_eq!(origin.frame(&mut decoder).unwrap_err(), OriginError::Invalid);

    let response = b"HTTP/1.1 200 OK\r\nContent-Length: 4\r\n\r\nabc".to_vec();
    let mut origin = Origin::new(response);
    let head = origin.head("GET").unwrap();
    let mut decoder = OriginDecoder::new(head.framing, Vec::new());
    assert_eq!(origin.frame(&mut decoder), Ok(Some(OriginFrame::Data(b"abc".to_vec()))));
    assert_eq!(origin.frame(&mut decoder).unwrap_err(), OriginError::Incomplete);
}

#[test]
fn origin_many_tiny_chunks_preserve_trailers_and_bound_each_data_frame() {
    let count = 10_000;
    let mut response = b"HTTP/1.1 200 OK\r\nTransfer-Encoding: chunked\r\n\r\n".to_vec();
    for _ in 0..count {
        response.extend_from_slice(b"1\r\nx\r\n");
    }
    response.extend_from_slice(b"0\r\nX-Checksum: yes\r\n\r\n");
    let mut origin = Origin::new(response);
    let head = origin.head("GET").unwrap();
    let mut decoder = OriginDecoder::new(head.framing, Vec::new());
    let mut received = 0;
    let mut trailers = None;
    while let Some(frame) = origin.frame(&mut decoder).unwrap() {
        match frame {
            OriginFrame::Data(data) => {
                assert!(data.len() <= RESPONSE_BODY_FRAME_LIMIT);
                received += data.len();
            },
            OriginFrame::Trailers(map) => trailers = Some(map),
        }
    }
    assert_eq!(received, count);
    assert_eq!(trailers.unwrap()["x-checksum"], "yes");
    assert!(origin.peak > 0 && origin.peak <= APPLICATION_BUFFER_LIMIT);
}

#[test]
fn response_frames_reserve_space_for_downstream_chunk_framing() {
    let length = RESPONSE_BODY_FRAME_LIMIT * 2;
    let mut response = format!("HTTP/1.1 200 OK\r\nContent-Length: {length}\r\n\r\n").into_bytes();
    response.extend(vec![b'x'; length]);
    let mut origin = Origin::new(response);
    let head = origin.head("GET").unwrap();
    let mut decoder = OriginDecoder::new(head.framing, Vec::new());
    let mut maximum = 0;
    let mut received = 0;
    while let Some(frame) = origin.frame(&mut decoder).unwrap() {
        let OriginFrame::Data(data) = frame else { panic!("data") };
        maximum = maximum.max(data.len());
        received += data.len();
    }
    assert_eq!(received, length);
    assert_eq!(maximum, RESPONSE_BODY_FRAME_LIMIT);
    assert!(origin.peak >= maximum && origin.peak <= APPLICATION_BUFFER_LIMIT);
}

#[test]
fn origin_trailer_limit_stays_within_the_aggregate_buffer_budget() {
    let prefix = b"X-Large: ";
    let value_length = HEADER_SECTION_LIMIT - prefix.len() - 4;
    let mut response = b"HTTP/1.1 200 OK\r\nTransfer-Encoding: chunked\r\n\r\n0\r\n".to_vec();
    response.extend_from_slice(prefix);
    response.extend(vec![b'a'; value_length]);
    response.extend_from_slice(b"\r\n\r\n");
    let mut origin = Origin::new(response);
    let head = origin.head("GET").unwrap();
    let mut decoder = OriginDecoder::new(head.framing, Vec::new());
    let OriginFrame::Trailers(trailers) = origin.frame(&mut decoder).unwrap().unwrap() else {
        panic!("trailers")
    };
    assert_eq!(trailers["x-large"].as_bytes().len(), value_length);
    assert!(origin.peak > value_length && origin.peak <= APPLICATION_BUFFER_LIMIT);
}

#[test]
fn a_fixed_response_delivers_exactly_its_octets() {
    let body: Vec<u8> = (0..200_000_u32).map(|i| (i % 251) as u8).collect();
    for n in [0, 1, 8192, 65_518, 65_519, 150_000] {
        let mut origin = Origin::new(body.clone());
        let mut decoder = OriginDecoder::new(OriginBodyFraming::ContentLength(n), Vec::new());
        let mut received = Vec::new();
        while let Some(frame) = origin.frame(&mut decoder).unwrap() {
            let OriginFrame::Data(data) = frame else { panic!("data") };
            assert!(!data.is_empty() && data.len() <= RESPONSE_BODY_FRAME_LIMIT);
            received.extend_from_slice(&data);
        }
        assert_eq!(received, &body[..n as usize]);
        assert_eq!(origin.reader.buffered(), origin.sent - received.len());
        assert_eq!(origin.frame(&mut decoder), Ok(None));
    }
    let mut origin = Origin::new(body.clone());
    let mut decoder = OriginDecoder::new(OriginBodyFraming::ContentLength(200_001), Vec::new());
    let mut received = Vec::new();
    let error = loop {
        match origin.frame(&mut decoder) {
            Ok(Some(OriginFrame::Data(data))) => received.extend_from_slice(&data),
            Ok(_) => panic!("data"),
            Err(error) => break error,
        }
    };
    assert_eq!(received, body);
    assert_eq!(error, OriginError::Incomplete);
}

#[test]
fn response_bodies_are_framed_for_the_client() {
    let fields = |pairs: &[(&'static str, &'static str)]| {
        let mut map = HeaderMap::new();
        for (name, value) in pairs {
            map.append(*name, HeaderValue::from_static(value));
        }
        map
    };
    let form = ResponseBody::of(&fields(&[("transfer-encoding", "chunked")]), true);
    assert_eq!(form, ResponseBody { chunked: true, delimited: true });
    assert_eq!(form.data(vec![b'x'; 26]), [b"1a\r\n".as_slice(), &[b'x'; 26], b"\r\n"].concat());
    assert_eq!(form.end(None), b"0\r\n\r\n");
    assert_eq!(form.end(Some(&fields(&[("x-end", "yes")]))), b"0\r\nx-end: yes\r\n\r\n");

    let form = ResponseBody::of(&fields(&[("content-length", "3")]), true);
    assert_eq!(form, ResponseBody { chunked: false, delimited: true });
    assert_eq!(form.data(b"abc".to_vec()), b"abc");
    assert_eq!(form.end(None), b"");
    assert_eq!(form.end(Some(&fields(&[("x-end", "yes")]))), b"");

    assert_eq!(
        ResponseBody::of(&HeaderMap::new(), true),
        ResponseBody { chunked: false, delimited: false }
    );
    assert_eq!(
        ResponseBody::of(&fields(&[("transfer-encoding", "chunked")]), false),
        ResponseBody { chunked: false, delimited: true }
    );
}

/// The data of a body and whether its stream goes back to the pool, or nothing where it fails.
fn collected(
    framing: OriginBodyFraming,
    bytes: &[u8],
    poolable: bool,
) -> Option<(Vec<u8>, bool)> {
    let mut origin = Origin::new(bytes.to_vec());
    let mut decoder = OriginDecoder::new(framing, Vec::new());
    let mut received = Vec::new();
    loop {
        match origin.frame(&mut decoder) {
            Ok(Some(OriginFrame::Data(data))) => received.extend(data),
            Ok(Some(OriginFrame::Trailers(_))) => {},
            Ok(None) => {
                origin.send(usize::MAX);
                return Some((received, returns_to_pool(poolable, &origin.reader)));
            },
            Err(_) => return None,
        }
    }
}

#[test]
fn pool_returns_only_clean_complete_reusable_responses() {
    assert_eq!(collected(OriginBodyFraming::ContentLength(3), b"abc", true), Some((b"abc".to_vec(), true)));
    assert_eq!(
        collected(
            OriginBodyFraming::ContentLength(3),
            b"abcHTTP/1.1 200 OK\r\nContent-Length: 0\r\n\r\n",
            true
        ),
        Some((b"abc".to_vec(), false)),
        "buffered surplus response was pooled"
    );
    assert_eq!(
        collected(
            OriginBodyFraming::NoBody,
            b"HTTP/1.1 200 OK\r\nContent-Length: 0\r\n\r\n",
            true
        ),
        Some((Vec::new(), false)),
        "bodyless surplus response was pooled"
    );
    assert_eq!(collected(OriginBodyFraming::ContentLength(4), b"abc", true), None);
    assert_eq!(collected(OriginBodyFraming::Chunked, b"1\r\naX", true), None);
    assert_eq!(collected(OriginBodyFraming::Chunked, b"2\r\na", true), None);
    assert_eq!(
        collected(OriginBodyFraming::ContentLength(3), b"abc", false),
        Some((b"abc".to_vec(), false)),
        "Connection: close stream was discarded"
    );

    let surplus =
        b"HTTP/1.1 204 No Content\r\n\r\nHTTP/1.1 200 OK\r\nContent-Length: 0\r\n\r\n";
    let mut origin = Origin::new(surplus.to_vec());
    let head = origin.head("GET").unwrap();
    assert_eq!(head.framing, OriginBodyFraming::NoBody);
    assert!(!returns_to_pool(true, &origin.reader), "bodyless surplus response was pooled");
}

#[test]
fn a_body_without_a_length_ends_with_the_stream() {
    let mut origin = Origin::new(b"HTTP/1.0 200 OK\r\n\r\nall of it".to_vec());
    let head = origin.head("GET").unwrap();
    assert_eq!(head.framing, OriginBodyFraming::CloseDelimited);
    let mut decoder = OriginDecoder::new(head.framing, Vec::new());
    assert_eq!(origin.frame(&mut decoder), Ok(Some(OriginFrame::Data(b"all of it".to_vec()))));
    assert_eq!(origin.frame(&mut decoder), Ok(None));
    assert_eq!(OriginError::Incomplete.message(), "incomplete origin response");
}

#[test]
fn nominated_trailers_are_dropped_and_forbidden_ones_refused() {
    let mut origin = Origin::new(b"0\r\nX-Hop: 1\r\nX-End: 2\r\n\r\n".to_vec());
    let mut decoder = OriginDecoder::new(OriginBodyFraming::Chunked, vec![b"X-Hop".to_vec()]);
    let OriginFrame::Trailers(trailers) = origin.frame(&mut decoder).unwrap().unwrap() else {
        panic!("trailers")
    };
    assert_eq!(trailers.keys().map(|name| name.as_str()).collect::<Vec<_>>(), ["x-end"]);
    let mut origin = Origin::new(b"0\r\nContent-Length: 1\r\n\r\n".to_vec());
    let mut decoder = OriginDecoder::new(OriginBodyFraming::Chunked, Vec::new());
    assert_eq!(origin.frame(&mut decoder).unwrap_err(), OriginError::Invalid);
}

#[test]
fn a_response_head_stays_where_it_is_whatever_follows() {
    let head = b"HTTP/1.1 200 OK\r\nA: b\r\n\r\n";
    assert_eq!(scan_origin_head(head), OriginScan::Complete(17, head.len()));
    let mut more = head.to_vec();
    more.extend_from_slice(b"\nrest");
    assert_eq!(scan_origin_head(&more), OriginScan::Complete(17, head.len()));
    assert_eq!(scan_origin_head(b"HTTP\n"), OriginScan::Failed(OriginError::Invalid));
}
