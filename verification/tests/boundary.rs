use vhrn::boundary::{
    domain_entry_matches, normalize_domain_entry, normalize_domain_host, parse_broker_request,
    parse_loopback_authority, BrokerFrameError, BrokerRequest, BrokerToken, DomainError,
    MAX_BROKER_FRAME_SIZE,
};

fn shown(bytes: Vec<u8>) -> String {
    String::from_utf8(bytes).unwrap()
}

#[test]
fn broker_frames_reject_invalid_shapes() {
    let token = "a".repeat(64);
    let valid = format!("VHRN-BROKER/1 READY {token}\n");
    let invalid = [
        "VHRN-BROKER/1 READY a\n".to_string(),
        format!("VHRN-BROKER/1 READY {}\n", "A".repeat(64)),
        format!("VHRN-BROKER/1 READY {}\n", "g".repeat(64)),
        format!("VHRN-BROKER/1 READY {}\n", "a".repeat(63)),
        format!("VHRN-BROKER/1 READY {}\n", "a".repeat(65)),
        valid.trim_end().to_string(),
        format!("VHRN-BROKER/1 READY {token} extra\n"),
        format!("VHRN-BROKER/1 CONNECT {token} LOCALHOST:80\n"),
        format!("VHRN-BROKER/1 CONNECT {token} 127.0.0.1:080\n"),
        "x".repeat(MAX_BROKER_FRAME_SIZE + 1),
    ];
    for frame in invalid {
        assert!(parse_broker_request(frame.as_bytes()).is_err(), "{frame:?}");
    }
}

#[test]
fn broker_debug_omits_credentials() {
    let credential = "b".repeat(64);
    let token = BrokerToken::parse(&credential).ok().unwrap();
    let request =
        parse_broker_request(format!("VHRN-BROKER/1 READY {credential}\n").as_bytes()).ok().unwrap();
    assert!(!token.debug_text().contains(&credential));
    assert!(!shown(request.debug_text()).contains(&credential));
}

#[test]
fn a_request_is_shown_by_its_fields_without_the_credential() {
    let credential = "c".repeat(64);
    let ready = parse_broker_request(format!("VHRN-BROKER/1 READY {credential}\n").as_bytes());
    assert_eq!(shown(ready.ok().unwrap().debug_text()), "Ready(BrokerToken([REDACTED]))");
    for (authority, host) in [
        ("localhost:80", "Localhost, port: 80"),
        ("127.0.20.255:8080", "Ipv4([127, 0, 20, 255]), port: 8080"),
        ("[::1]:65535", "Ipv6Loopback, port: 65535"),
    ] {
        let frame = format!("VHRN-BROKER/1 CONNECT {credential} {authority}\n");
        let request = parse_broker_request(frame.as_bytes()).ok().unwrap();
        assert_eq!(
            shown(request.debug_text()),
            format!(
                "Connect {{ token: BrokerToken([REDACTED]), authority: LoopbackAuthority {{ host: {host} }} }}"
            )
        );
    }
}

#[test]
fn broker_frames_carry_the_credential_and_the_authority() {
    let token = "0123456789abcdef".repeat(4);
    let ready = parse_broker_request(format!("VHRN-BROKER/1 READY {token}\n").as_bytes());
    match ready.ok().unwrap() {
        BrokerRequest::Ready(read) => assert_eq!(read.as_bytes(), token.as_bytes()),
        BrokerRequest::Connect { .. } => panic!("a ready frame"),
    }
    let connect =
        parse_broker_request(format!("VHRN-BROKER/1 CONNECT {token} 127.0.0.1:80\n").as_bytes());
    match connect.ok().unwrap() {
        BrokerRequest::Connect { token: read, authority } => {
            assert_eq!(read.as_bytes(), token.as_bytes());
            assert_eq!(shown(authority.text()), "127.0.0.1:80");
        },
        BrokerRequest::Ready(_) => panic!("a connect frame"),
    }
}

#[test]
fn broker_frame_errors_tell_size_from_shape() {
    let long = "x".repeat(MAX_BROKER_FRAME_SIZE) + "\n";
    assert!(matches!(parse_broker_request(long.as_bytes()), Err(BrokerFrameError::Oversized)));
    assert!(matches!(parse_broker_request(b"\n"), Err(BrokerFrameError::Malformed)));
    assert!(matches!(parse_broker_request(&[0xff, 10]), Err(BrokerFrameError::Malformed)));
    assert_eq!(BrokerFrameError::Oversized.message(), "invalid broker frame");
}

#[test]
fn entries_drop_blanks_stars_dots_and_case() {
    for spelling in ["docs.rs", " DOCS.rs ", "*.docs.rs", ".docs.rs", "docs.rs.", " *...Docs.RS.. "]
    {
        assert_eq!(normalize_domain_entry(spelling).ok().as_deref(), Some("docs.rs"), "{spelling}");
    }
    assert_eq!(normalize_domain_entry("*.*.docs.rs"), Err(DomainError::Invalid));
    assert_eq!(normalize_domain_entry("docs..rs"), Err(DomainError::Invalid));
    assert_eq!(normalize_domain_entry("---"), Err(DomainError::Invalid));
    assert_eq!(normalize_domain_entry(""), Err(DomainError::Invalid));
    assert_eq!(normalize_domain_entry("b\u{fc}cher.example"), Err(DomainError::NonAscii));
    assert_eq!(DomainError::NonAscii.message(), "domain must be ASCII");
    assert_eq!(DomainError::Invalid.message(), "invalid domain");
}

#[test]
fn hosts_drop_one_trailing_dot_only() {
    assert_eq!(normalize_domain_host(" API.Example.COM. ").ok().as_deref(), Some("api.example.com"));
    assert_eq!(normalize_domain_host("example.com.."), Err(DomainError::Invalid));
    assert_eq!(normalize_domain_host("*.example.com"), Err(DomainError::Invalid));
    let once = normalize_domain_host("EXAMPLE.com").ok().unwrap();
    assert_eq!(normalize_domain_host(&once).ok(), Some(once.clone()));
    assert_eq!(normalize_domain_entry(&once).ok(), Some(once.clone()));
}

#[test]
fn an_entry_matches_itself_and_its_subdomains() {
    assert!(domain_entry_matches("example.com", "example.com"));
    assert!(domain_entry_matches("example.com", "api.example.com"));
    assert!(!domain_entry_matches("example.com", "badexample.com"));
    assert!(!domain_entry_matches("api.example.com", "example.com"));
}

#[test]
fn loopback_authorities_are_canonical() {
    let read = parse_loopback_authority("LOCALHOST:8080").ok().unwrap();
    assert_eq!(shown(read.text()), "localhost:8080");
    let bracketed = parse_loopback_authority("[0:0:0:0:0:0:0:1]:443").ok().unwrap();
    assert_eq!(shown(bracketed.text()), "[::1]:443");
    let error = parse_loopback_authority("example.com:80").err().unwrap();
    assert_eq!(error.message(), "invalid loopback authority");
    assert!(parse_loopback_authority("127.0.0.1:0").is_err());
}

#[test]
fn credentials_are_sixty_four_hexadecimal_digits() {
    let error = BrokerToken::parse("A").err().unwrap();
    assert_eq!(error.message(), "invalid broker token");
    assert!(BrokerToken::from_octets(&[b'f'; 64]).is_ok());
    assert!(BrokerToken::from_octets(&[b'F'; 64]).is_err());
    assert!(BrokerToken::from_octets(&[b'f'; 63]).is_err());
}
