use hyper::header::HeaderValue;
use hyper::HeaderMap;
use vhrn::connect::public as connect;
use vhrn::connect::public::{
    GloballyRoutableIp, OpenAction, OpenEvent, Opening, PublicConnectError, ResolvedAddress,
    ValidatedAnswers,
};
use vhrn::connect::tls::{local_server_name, public_server_name, tls_identity, LocalTlsIdentity};
use vhrn::domain::target as domain;
use vhrn::domain::target::LoopbackAuthority;
use vhrn::ip::{parse_ipv4, parse_ipv6, IpAddress};
use vhrn::public::{
    canonical_ip, collect_limited, is_public, is_shared, outbound_request, validated_answers,
    AnswerError, Collected, OriginKey,
};
use vhrn::target::{classify, PublicTarget, Target};

fn public_target(value: &str) -> PublicTarget {
    match classify("GET", value) {
        Target::PublicHttp(target) => target,
        _ => panic!("expected public target"),
    }
}

fn wire_target(value: &str) -> domain::PublicTarget {
    match domain::classify(b"GET", value.as_bytes()) {
        domain::Target::PublicHttp(target) => target,
        _ => panic!("expected public target"),
    }
}

fn address(text: &str) -> IpAddress {
    match parse_ipv4(text.as_bytes()) {
        Some(octets) => IpAddress::V4(octets),
        None => IpAddress::V6(parse_ipv6(text.as_bytes()).unwrap()),
    }
}

fn addresses(text: &str) -> Vec<IpAddress> {
    text.split(',').map(address).collect()
}

fn answers(text: &str) -> Vec<ResolvedAddress> {
    text.split(',').map(|part| ResolvedAddress::unscoped(address(part))).collect()
}

fn dials(opening: &Opening) -> (IpAddress, u16) {
    match opening.action() {
        OpenAction::Dial { address, port } => (address, port),
        other => panic!("expected a dial, not {other:?}"),
    }
}

fn fails(opening: &Opening) -> PublicConnectError {
    match opening.action() {
        OpenAction::Failed(error) => error,
        other => panic!("expected a failure, not {other:?}"),
    }
}

#[test]
fn public_origin_key_uses_normalized_public_identity() {
    let first = OriginKey::from_target(&public_target("http://API.Example.COM.:0080/"));
    let same = OriginKey::from_target(&public_target("http://api.example.com/"));
    let secure = OriginKey::from_target(&public_target("https://api.example.com/"));
    let port = OriginKey::from_target(&public_target("http://api.example.com:81/"));
    assert_eq!(first, same);
    assert_ne!(first, secure);
    assert_ne!(first, port);
    assert_eq!((first.scheme(), first.host(), first.port()), ("http", "api.example.com", 80));
    assert_eq!(secure.scheme(), "https");

    let first = connect::OriginKey::from_target(&wire_target("http://API.Example.COM.:0080/"));
    let same = connect::OriginKey::from_target(&wire_target("http://api.example.com/"));
    let port = connect::OriginKey::from_target(&wire_target("http://api.example.com:81/"));
    assert_eq!(first, same);
    assert_ne!(first, port);
}

#[test]
fn outbound_request_keeps_ordinary_connection_fields() {
    let mut headers = HeaderMap::new();
    headers.insert("host", HeaderValue::from_static("api.example.com:8080"));
    headers.insert("connection", HeaderValue::from_static("X-Remove"));
    headers.insert("x-remove", HeaderValue::from_static("kept"));
    headers.insert("proxy-connection", HeaderValue::from_static("close"));
    headers.insert("proxy-authorization", HeaderValue::from_static("Basic ignored"));
    let path = outbound_request(&mut headers, Some(b"/path?q=one"));
    assert_eq!(path, b"/path?q=one");
    assert_eq!(headers["connection"], "X-Remove");
    assert_eq!(headers["x-remove"], "kept");
    assert_eq!(headers["host"], "api.example.com:8080");
    assert!(!headers.contains_key("proxy-connection"));
    assert!(!headers.contains_key("proxy-authorization"));
}

#[test]
fn resolves_once_validates_all_answers_then_dials_first() {
    let target = public_target("http://API.Example.COM.:0080/");
    assert_eq!((target.host(), target.port()), ("api.example.com", 80));
    assert_eq!(validated_answers(&addresses("8.8.8.8,1.1.1.1")), Ok(address("8.8.8.8")));
}

#[test]
fn mapped_public_address_dials_ipv4() {
    assert_eq!(validated_answers(&addresses("::ffff:8.8.8.8")), Ok(address("8.8.8.8")));
    assert_eq!(canonical_ip(address("::ffff:8.8.8.8")), address("8.8.8.8"));
    assert_eq!(canonical_ip(address("2606:4700::1")), address("2606:4700::1"));
}

#[test]
fn public_rejected_answers_never_dial() {
    for list in [Vec::new(), addresses("8.8.8.8,127.0.0.1"), addresses("::1")] {
        assert!(validated_answers(&list).is_err());
    }
    assert_eq!(validated_answers(&[]), Err(AnswerError::NoAddresses));
    assert_eq!(validated_answers(&addresses("::1")), Err(AnswerError::Rejected));
    assert_eq!(AnswerError::NoAddresses.message(), "public name returned no addresses");

    for (list, expected) in [
        (Vec::new(), PublicConnectError::Unavailable),
        (answers("8.8.8.8,127.0.0.1"), PublicConnectError::PolicyDenied),
        (answers("8.8.8.8,::ffff:8.8.8.8"), PublicConnectError::PolicyDenied),
        (answers("::1"), PublicConnectError::PolicyDenied),
    ] {
        let opening = Opening::begin(&wire_target("http://allowed.example/"));
        assert!(matches!(opening.action(), OpenAction::Resolve { .. }));
        assert_eq!(fails(&opening.happened(OpenEvent::Resolved(list))), expected);
    }
}

#[test]
fn classification_knows_the_special_ranges() {
    for text in [
        "10.1.2.3", "172.16.0.1", "172.31.255.255", "192.168.1.1", "169.254.0.1", "127.0.0.1",
        "0.0.0.0", "224.0.0.1", "100.64.0.1", "::1", "::", "fe80::1", "fc00::1", "ff02::1",
    ] {
        assert!(!is_public(&address(text)), "{text}");
    }
    for text in ["8.8.8.8", "172.32.0.1", "100.63.0.1", "100.128.0.1", "2606:4700:4700::1111"] {
        assert!(is_public(&address(text)), "{text}");
    }
    assert!(is_shared(&[100, 64, 0, 1]));
    assert!(is_shared(&[100, 127, 255, 255]));
    assert!(!is_shared(&[100, 128, 0, 0]));
    for text in ["10.0.0.1", "192.0.2.1", "198.51.100.1", "203.0.113.9", "240.0.0.1", "2001:db8::1"]
    {
        assert!(GloballyRoutableIp::new(address(text)).is_none(), "{text}");
    }
    for text in ["8.8.8.8", "1.1.1.1", "2606:4700:4700::1111"] {
        assert_eq!(GloballyRoutableIp::new(address(text)).unwrap().address(), address(text));
    }
}

#[test]
fn resolves_once_and_retains_the_validated_answer_set() {
    let opening = Opening::begin(&wire_target("http://API.Example.COM.:0080/"));
    assert_eq!(
        opening.action(),
        OpenAction::Resolve { host: b"api.example.com".to_vec(), port: 80 }
    );
    let opening = opening.happened(OpenEvent::Resolved(answers("8.8.8.8,1.1.1.1")));
    assert_eq!(dials(&opening), (address("8.8.8.8"), 80));
    let opening = opening.happened(OpenEvent::DialFailed);
    assert_eq!(dials(&opening), (address("1.1.1.1"), 80));
    let opening = opening.happened(OpenEvent::Dialled);
    assert_eq!(opening.action(), OpenAction::Connected);
}

#[test]
fn connect_uses_only_an_explicit_authority_port() {
    let domain::Target::PublicConnect(target) = domain::classify(b"CONNECT", b"allowed.example:8443")
    else {
        panic!("expected public CONNECT target");
    };
    let opening = Opening::begin(&target).happened(OpenEvent::Resolved(answers("8.8.8.8")));
    assert_eq!(dials(&opening), (address("8.8.8.8"), 8443));
}

#[test]
fn literal_skips_resolution_and_uses_the_same_boundary() {
    let opening = Opening::begin(&wire_target("http://8.8.8.8/"));
    assert_eq!(dials(&opening), (address("8.8.8.8"), 80));
    assert_eq!(opening.happened(OpenEvent::Dialled).action(), OpenAction::Connected);
    let opening = Opening::begin(&wire_target("http://[2001:db8::1]/"));
    assert_eq!(fails(&opening), PublicConnectError::PolicyDenied);
}

#[test]
fn dns_answer_count_accepts_one_through_sixty_four_only() {
    for (count, expected) in [
        (0, Err(PublicConnectError::Unavailable)),
        (1, Ok(())),
        (64, Ok(())),
        (65, Err(PublicConnectError::PolicyDenied)),
    ] {
        let list = vec![ResolvedAddress::unscoped(address("8.8.8.8")); count];
        let result = ValidatedAnswers::from_dns(&list).map(|_| ());
        assert_eq!(result, expected, "answer count {count}");
    }
}

#[test]
fn scoped_dns_answers_are_denied_without_reinterpretation() {
    assert_eq!(
        ValidatedAnswers::from_dns(&[ResolvedAddress::scoped(address("2606:4700:4700::1111"), 4)])
            .map(|_| ()),
        Err(PublicConnectError::PolicyDenied)
    );
}

#[test]
fn refusal_falls_back_across_address_families() {
    let opening = Opening::begin(&wire_target("http://allowed.example:8080/"))
        .happened(OpenEvent::Resolved(answers("2606:4700:4700::1111,8.8.8.8")));
    assert_eq!(dials(&opening), (address("2606:4700:4700::1111"), 8080));
    let opening = opening.happened(OpenEvent::DialFailed);
    assert_eq!(dials(&opening), (address("8.8.8.8"), 8080));
    assert_eq!(opening.happened(OpenEvent::Dialled).action(), OpenAction::Connected);
}

#[test]
fn resolution_failure_and_exhausted_refusals_are_bad_gateway() {
    let opening = Opening::begin(&wire_target("http://allowed.example/"))
        .happened(OpenEvent::ResolutionFailed);
    assert_eq!(fails(&opening), PublicConnectError::Unavailable);
    let opening = Opening::begin(&wire_target("http://allowed.example/"))
        .happened(OpenEvent::Resolved(answers("8.8.8.8,1.1.1.1")));
    assert_eq!(dials(&opening), (address("8.8.8.8"), 80));
    let opening = opening.happened(OpenEvent::DialFailed);
    assert_eq!(dials(&opening), (address("1.1.1.1"), 80));
    let opening = opening.happened(OpenEvent::DialFailed);
    assert_eq!(fails(&opening), PublicConnectError::Unavailable);
}

#[test]
fn cancellation_and_deadline_end_every_stage() {
    let target = wire_target("http://allowed.example/");
    let cancelled = Opening::begin(&target).happened(OpenEvent::Cancelled);
    assert_eq!(fails(&cancelled), PublicConnectError::Cancelled);
    let late = Opening::begin(&target)
        .happened(OpenEvent::Resolved(answers("8.8.8.8")))
        .happened(OpenEvent::DeadlineExceeded);
    assert_eq!(fails(&late), PublicConnectError::DeadlineExceeded);
    assert!(PublicConnectError::PolicyDenied.is_policy_denial());
    assert!(!PublicConnectError::Exhausted.is_policy_denial());
    assert_eq!(PublicConnectError::Unavailable.message(), "public destination unavailable");
}

#[test]
fn validated_answers_keep_their_order() {
    let valid = ValidatedAnswers::from_dns(&answers("1.1.1.1,8.8.8.8")).unwrap();
    assert_eq!(valid.len(), 2);
    assert_eq!((valid.get(0), valid.get(1)), (address("1.1.1.1"), address("8.8.8.8")));
    let literal = ValidatedAnswers::from_literal(address("8.8.4.4")).unwrap();
    assert_eq!((literal.len(), literal.get(0)), (1, address("8.8.4.4")));
    assert!(ValidatedAnswers::from_literal(address("::ffff:8.8.8.8")).is_err());
}

#[test]
fn collection_rejects_over_limit_frames() {
    assert_eq!(
        collect_limited(&[b"four".to_vec(), b"five5".to_vec()], 9),
        Some(b"fourfive5".to_vec())
    );
    assert_eq!(collect_limited(&[b"four".to_vec(), b"five5".to_vec()], 8), None);
    let mut collected = Collected::new(4);
    assert!(collected.push(b"abc"));
    assert!(!collected.push(b"de"));
    assert!(collected.push(b"d"));
    assert_eq!(collected.into_bytes(), b"abcd");
}

#[test]
fn local_tls_identity_uses_trusted_dns_and_ip_names_without_a_socket() {
    for (authority, name) in
        [("localhost:443", "localhost"), ("127.0.0.1:443", "127.0.0.1"), ("[::1]:443", "::1")]
    {
        let parsed = LoopbackAuthority::parse(authority).unwrap();
        assert_eq!(local_server_name(&parsed).as_deref(), Some(name));
    }
    let localhost = LoopbackAuthority::parse("localhost:443").unwrap();
    assert_eq!(tls_identity(&localhost), LocalTlsIdentity::DnsLocalhost);
    let numeric = LoopbackAuthority::parse("127.0.0.1:443").unwrap();
    assert_eq!(tls_identity(&numeric), LocalTlsIdentity::Ip(address("127.0.0.1")));
}

#[test]
fn public_server_names_are_dns_names() {
    let good = public_target("https://API.example.com/");
    assert_eq!(public_server_name(&good).as_deref(), Some("api.example.com"));
    let bad = public_target("https://-.example.com/");
    assert_eq!(public_server_name(&bad), None);
}
