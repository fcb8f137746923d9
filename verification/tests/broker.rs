use hyper::header::HeaderValue;
use hyper::HeaderMap;
use vhrn::boundary::{parse_broker_request, BrokerRequest};
use vhrn::connect::broker::{
    connect_frame, outbound_local_request, read_response, ready_frame, ready_outcome,
    response_at_end, success_prefix, BrokerError, BrokerStream, BrokerToken, Deadlines, ResponseStep,
    StreamRead,
};
use vhrn::domain::target::LoopbackAuthority;

fn token() -> BrokerToken {
    BrokerToken::parse(&"a".repeat(64)).ok().unwrap()
}

fn authority(text: &str) -> LoopbackAuthority {
    LoopbackAuthority::parse(text).unwrap()
}

#[test]
fn credentials_are_exactly_64_small_hex_digits() {
    let value = "0123456789abcdef".repeat(4);
    let token = BrokerToken::parse(&value).ok().unwrap();
    assert_eq!(token.expose(), value.as_bytes());
    assert_eq!(token.clone().expose(), value.as_bytes());
    assert_eq!(token.debug_text(), "BrokerToken([REDACTED])");
    for malformed in ["", &value[1..], &"A".repeat(64), &"g".repeat(64), &"a".repeat(65)] {
        let error = BrokerToken::parse(malformed).err().unwrap();
        assert_eq!(error.message(), "invalid broker token format");
    }
}

#[test]
fn success_prefix_requires_a_co_read_byte() {
    assert_eq!(success_prefix(b"OK\n"), None);
    assert_eq!(success_prefix(b"OK\np"), Some(b'p'));
}

#[test]
fn ready_writes_exact_frame() {
    assert_eq!(
        ready_frame(&token()),
        format!("VHRN-BROKER/1 READY {}\n", "a".repeat(64)).into_bytes()
    );
    assert_eq!(ready_frame(&token()).len(), 85);
}

#[test]
fn connect_uses_canonical_authority_and_keeps_prefix() {
    assert_eq!(
        String::from_utf8(connect_frame(&token(), &authority("LOCALHOST:00080"))).unwrap(),
        format!("VHRN-BROKER/1 CONNECT {} localhost:80\n", "a".repeat(64))
    );
    assert_eq!(read_response(b"OK\np"), ResponseStep::Accepted(Some(b'p')));
    let mut stream = BrokerStream::new(Some(b'p'));
    assert_eq!(stream.read(1), StreamRead::Prefix(b'p'));
    assert_eq!(stream.read(1), StreamRead::Socket);
}

#[test]
fn saved_response_bytes_complete_read_without_waiting_for_socket_data() {
    let mut stream = BrokerStream { prefix: Some(b'p') };
    assert_eq!(stream.read(0), StreamRead::Full);
    assert_eq!(stream.read(8), StreamRead::Prefix(b'p'));
    assert_eq!(stream.prefix, None);
    assert_eq!(stream.read(8), StreamRead::Socket);
}

#[test]
fn connect_uses_each_canonical_loopback_spelling() {
    for (input, canonical) in [
        ("LOCALHOST:00080", "localhost:80"),
        ("127.0.0.1:00081", "127.0.0.1:81"),
        ("[0:0:0:0:0:0:0:1]:00082", "[::1]:82"),
    ] {
        assert_eq!(
            String::from_utf8(connect_frame(&token(), &authority(input))).unwrap(),
            format!("VHRN-BROKER/1 CONNECT {} {canonical}\n", "a".repeat(64))
        );
    }
}

#[test]
fn failures_and_timeouts_are_redacted() {
    for response in [b"ERR\n".as_slice(), b"NO\n", b"O", b"TOOLONG"] {
        let error = response_at_end(response).err().unwrap();
        assert_eq!(error, BrokerError::Rejected);
        assert!(!format!("{error:?}").contains(&"a".repeat(64)));
    }
}

#[test]
fn responses_are_read_as_they_arrive() {
    assert_eq!(read_response(b""), ResponseStep::NeedInput);
    assert_eq!(read_response(b"OK"), ResponseStep::NeedInput);
    assert_eq!(read_response(b"OK\n"), ResponseStep::Accepted(None));
    assert_eq!(read_response(b"ERR\n"), ResponseStep::Rejected);
    assert_eq!(response_at_end(b"OK\n"), Ok(None));
    assert_eq!(ready_outcome(Ok(None)), Ok(()));
    assert_eq!(ready_outcome(Ok(Some(1))), Err(BrokerError::Rejected));
    assert_eq!(ready_outcome(Err(BrokerError::Exhausted)), Err(BrokerError::Exhausted));
}

#[test]
fn frames_that_are_sent_read_back() {
    match parse_broker_request(&ready_frame(&token())).ok().unwrap() {
        BrokerRequest::Ready(read) => assert_eq!(read.as_bytes(), token().expose()),
        BrokerRequest::Connect { .. } => panic!("a ready frame"),
    }
    match parse_broker_request(&connect_frame(&token(), &authority("[::1]:9"))).ok().unwrap() {
        BrokerRequest::Connect { token: read, authority } => {
            assert_eq!(read.as_bytes(), token().expose());
            assert_eq!(authority.text(), b"[::1]:9");
        },
        BrokerRequest::Ready(_) => panic!("a connect frame"),
    }
}

#[test]
fn deadlines_have_their_defaults() {
    let deadlines = Deadlines::default();
    assert_eq!((deadlines.ready, deadlines.connect, deadlines.handshake), (3_000, 10_000, 13_000));
}

#[test]
fn a_local_request_keeps_its_path_and_loses_hop_fields() {
    let mut headers = HeaderMap::new();
    headers.insert("proxy-connection", HeaderValue::from_static("keep-alive"));
    headers.insert("host", HeaderValue::from_static("localhost:80"));
    assert_eq!(outbound_local_request(&mut headers, Some(b"/a?b")), b"/a?b");
    assert!(headers.get("proxy-connection").is_none());
    assert_eq!(headers.get("host").unwrap(), "localhost:80");
    assert_eq!(outbound_local_request(&mut headers, None), b"/");
}
