use vhrn::domain::policy::{DomainName, DomainPattern};
use vhrn::domain::target::{
    classify, classify_parsed, classify_uri, parse_port, AuthorityParseError, LoopbackAuthority,
    Target, UriParts,
};

fn classify_text(method: &str, target: &str) -> Target {
    classify(method.as_bytes(), target.as_bytes())
}

fn text(bytes: Vec<u8>) -> String {
    String::from_utf8(bytes).unwrap()
}

fn kind(target: &Target) -> &'static str {
    match target {
        Target::Direct(_) => "direct",
        Target::Asterisk => "asterisk",
        Target::PublicHttp(_) => "public-http",
        Target::LocalHttp(_) => "local-http",
        Target::PublicConnect(_) => "public-connect",
        Target::LocalConnect(_) => "local-connect",
        Target::HttpsAbsoluteRejected => "https-rejected",
        Target::Malformed => "malformed",
    }
}

#[test]
fn accepted_target_truth_table_is_canonical_and_disjoint() {
    let cases = [
        ("GET", "/healthz?probe=1", "direct"),
        ("OPTIONS", "*", "asterisk"),
        ("GET", "http://Example.COM./path?q=1", "public-http"),
        ("GET", "http://example.com:0080?x=1", "public-http"),
        ("GET", "http://LOCALHOST/path", "local-http"),
        ("GET", "http://127.0.0.2:8080/", "local-http"),
        ("GET", "http://[0:0:0:0:0:0:0:1]/", "local-http"),
        ("CONNECT", "example.com:443", "public-connect"),
        ("CONNECT", "[2606:4700:4700::1111]:443", "public-connect"),
        ("CONNECT", "LOCALHOST:0443", "local-connect"),
        ("CONNECT", "127.1.2.3:443", "local-connect"),
        ("CONNECT", "[::1]:443", "local-connect"),
        ("GET", "https://example.com/path", "https-rejected"),
    ];
    for (method, raw, expected) in cases {
        assert_eq!(kind(&classify_text(method, raw)), expected, "{method} {raw}");
    }
}

#[test]
fn http_targets_retain_path_port_and_canonical_authority() {
    let Target::PublicHttp(implicit) = classify_text("GET", "http://Example.COM./path?q=one") else {
        panic!("public HTTP target");
    };
    assert_eq!(text(implicit.host().text()), "example.com");
    assert_eq!(implicit.authority(), b"example.com");
    assert_eq!(implicit.port(), 80);
    assert!(!implicit.explicit_port());
    assert_eq!(implicit.path_and_query(), b"/path?q=one");

    let Target::PublicHttp(explicit) = classify_text("GET", "http://example.com:00080?query") else {
        panic!("public HTTP target");
    };
    assert_eq!(explicit.authority(), b"example.com:80");
    assert_eq!(explicit.port(), 80);
    assert!(explicit.explicit_port());
    assert_eq!(explicit.path_and_query(), b"?query");
}

#[test]
fn connect_requires_one_explicit_canonicalizable_port() {
    for raw in [
        "example.com",
        "example.com:",
        "example.com:0",
        "example.com:65536",
        "example.com:not-a-port",
        "http://example.com:443",
        "user@example.com:443",
        "example.com:443/path",
        "example.com:443?query",
        "example.com:443#fragment",
        "2001:db8::1:443",
        "[2001:db8::1]",
        "[2001:db8::1]:443:444",
    ] {
        assert_eq!(classify_text("CONNECT", raw), Target::Malformed, "{raw}");
    }
    let Target::PublicConnect(target) = classify_text("CONNECT", "example.com:000443") else {
        panic!("canonicalizable port");
    };
    assert_eq!(target.port(), 443);
    assert_eq!(target.authority(), b"example.com:443");
    assert!(target.explicit_port());
}

#[test]
fn dns_lengths_root_dot_and_ascii_alabels_are_enforced() {
    let label63 = "a".repeat(63);
    let maximum = format!("{label63}.{label63}.{label63}.{}", "a".repeat(61));
    assert_eq!(maximum.len(), 253);
    assert!(matches!(
        classify_text("GET", &format!("http://{maximum}./")),
        Target::PublicHttp(_)
    ));
    for host in [
        format!("{}.example", "a".repeat(64)),
        format!("{maximum}a"),
        "example..com".to_owned(),
        "example.com..".to_owned(),
        "-bad.example".to_owned(),
        "bad-.example".to_owned(),
        "bad_name.example".to_owned(),
        "caf\u{e9}.example".to_owned(),
        "bad\texample".to_owned(),
    ] {
        assert_eq!(classify_text("GET", &format!("http://{host}/")), Target::Malformed, "{host}");
    }
    let Target::PublicHttp(target) = classify_text("GET", "http://XN--BCHER-KVA.Example./") else {
        panic!("ASCII A-label");
    };
    assert_eq!(text(target.host().text()), "xn--bcher-kva.example");
}

#[test]
fn numeric_hosts_reject_ambiguous_ipv4_mapped_and_scoped_forms() {
    for raw in [
        "http://127.00.0.1/",
        "http://127.0.0.1./",
        "http://001.2.3.4/",
        "http://192.0.2.1./",
        "http://256.1.1.1/",
        "http://1.2.3/",
        "http://[::ffff:127.0.0.1]/",
        "http://[fe80::1%25eth0]/",
        "http://2001:db8::1/",
    ] {
        assert_eq!(classify_text("GET", raw), Target::Malformed, "{raw}");
    }
    assert!(matches!(classify_text("GET", "http://192.0.2.1/"), Target::PublicHttp(_)));
    assert!(matches!(
        classify_text("GET", "http://[2606:4700:4700::1111]/"),
        Target::PublicHttp(_)
    ));
    for raw in ["127.0.0.1.:443", "192.0.2.1.:443"] {
        assert_eq!(classify_text("CONNECT", raw), Target::Malformed, "{raw}");
    }
}

#[test]
fn local_spellings_normalize_before_public_classification() {
    let cases = [
        ("http://LOCALHOST./", "localhost:80"),
        ("http://127.0.0.255:0080/", "127.0.0.255:80"),
        ("http://[0:0:0:0:0:0:0:1]:80/", "[::1]:80"),
    ];
    for (raw, expected) in cases {
        let Target::LocalHttp(target) = classify_text("GET", raw) else {
            panic!("local target: {raw}");
        };
        assert_eq!(text(target.canonical_authority().text()), expected);
    }
}

#[test]
fn malformed_absolute_forms_do_not_fall_back_to_direct_or_connect() {
    for raw in [
        "example.com/path",
        "http:/example.com/",
        "http:///path",
        "http://user@example.com/",
        "http://example.com/#fragment",
        "http://example.com/%zz",
        "ftp://example.com/",
        "https://example.com:0/",
        "http://example.com/[segment]",
        "http://example.com/path?[query]",
        "/path/[segment]",
        "/path?[query]",
    ] {
        assert_eq!(classify_text("GET", raw), Target::Malformed, "{raw}");
    }
}

#[test]
fn domain_grammar_separates_wire_and_policy_records() {
    assert!(DomainName::parse(" api.example").is_none());
    assert!(DomainName::parse("a_b.example").is_none());
    assert!(DomainName::parse("-a.example").is_none());
    assert!(DomainName::parse("a-.example").is_none());
    let pattern = DomainPattern::parse(" *.example. ").unwrap();
    assert!(pattern.matches(&DomainName::parse("api.example").unwrap()));
}

#[test]
fn parsed_component_bridge_keeps_http_and_connect_disjoint() {
    assert!(matches!(classify_uri(b"GET", b"http://example.com/"), Target::PublicHttp(_)));
    assert!(matches!(classify_uri(b"CONNECT", b"example.com:443"), Target::PublicConnect(_)));
    assert_eq!(kind(&classify_uri(b"GET", b"http://example.com/path")), "public-http");
    assert_eq!(kind(&classify_uri(b"GET", b"http://localhost:80/path")), "local-http");
    assert_eq!(kind(&classify_uri(b"CONNECT", b"http://example.com:443/")), "malformed");
    assert_eq!(kind(&classify_uri(b"GET", b"example.com:443")), "malformed");
    assert_eq!(kind(&classify_uri(b"GET", b"/healthz")), "direct");
    assert_eq!(kind(&classify_uri(b"OPTIONS", b"*")), "asterisk");
    assert_eq!(kind(&classify_uri(b"GET", b"http://[bad")), "malformed");
}

#[test]
fn parsed_parts_classify_like_the_raw_target() {
    let parts = |scheme: Option<&str>, authority: Option<&str>, path: Option<&str>| UriParts {
        scheme: scheme.map(|s| s.as_bytes().to_vec()),
        authority: authority.map(|s| s.as_bytes().to_vec()),
        path_and_query: path.map(|s| s.as_bytes().to_vec()),
    };
    let Target::PublicHttp(target) =
        classify_parsed(b"GET", parts(Some("http"), Some("Example.com:0080"), Some("/a?b")))
    else {
        panic!("a public target");
    };
    assert_eq!(target.authority(), b"example.com:80");
    assert_eq!(target.path_and_query(), b"/a?b");
    assert_eq!(kind(&classify_parsed(b"GET", parts(None, None, Some("/x")))), "direct");
    assert_eq!(
        kind(&classify_parsed(b"GET", parts(Some("https"), Some("example.com"), Some("/")))),
        "https-rejected"
    );
}

#[test]
fn loopback_authorities_give_each_error() {
    let error = |value: &str| LoopbackAuthority::parse(value).err().unwrap();
    assert_eq!(error("localhost"), AuthorityParseError::MissingPort);
    assert_eq!(error("localhost:0"), AuthorityParseError::InvalidPort);
    assert_eq!(error("8.8.8.8:80"), AuthorityParseError::NonLoopback);
    assert_eq!(error("[::1:80"), AuthorityParseError::InvalidHost);
    assert_eq!(AuthorityParseError::InvalidHost.message(), "invalid authority host");
    assert_eq!(AuthorityParseError::MissingPort.message(), "authority is missing a port");
    assert_eq!(parse_port(b"65535"), Ok(65535));
    assert_eq!(parse_port(b""), Err(AuthorityParseError::MissingPort));
    assert_eq!(parse_port(b"65536"), Err(AuthorityParseError::InvalidPort));
    let read = LoopbackAuthority::parse("127.1.2.3:9").unwrap();
    assert_eq!(text(read.text()), "127.1.2.3:9");
    assert_eq!(LoopbackAuthority::parse(&text(read.text())).unwrap(), read);
}
