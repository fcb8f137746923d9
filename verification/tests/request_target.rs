use vhrn::target::{classify, parse_public_authority, Target};

fn text(bytes: Vec<u8>) -> String {
    String::from_utf8(bytes).unwrap()
}

#[test]
fn direct_paths_do_not_become_origins() {
    assert_eq!(classify("GET", "/healthz"), Target::Direct("/healthz".to_owned()));
}

#[test]
fn preserves_authority_while_normalizing_public_identity() {
    let Target::PublicHttp(target) = classify("GET", "http://API.Example.COM.:0080/path") else {
        panic!()
    };
    assert_eq!(target.authority(), "API.Example.COM.:0080");
    assert_eq!(target.host(), "api.example.com");
    assert_eq!(target.port(), 80);
    assert!(!target.secure());
    let Target::PublicConnect(target) = classify("CONNECT", "api.example.com") else {
        panic!()
    };
    assert_eq!(target.authority(), "api.example.com");
    assert_eq!(target.port(), 443);
}

#[test]
fn preserves_authority_while_canonicalizing_local_identity() {
    let Target::LocalHttp(target) = classify("GET", "http://LOCALHOST:00080/path") else {
        panic!()
    };
    assert_eq!(target.authority(), "LOCALHOST:00080");
    assert_eq!(text(target.canonical_authority().text()), "localhost:80");
    let Target::LocalConnect(target) = classify("CONNECT", "[0:0:0:0:0:0:0:1]:00443") else {
        panic!()
    };
    assert_eq!(target.authority(), "[0:0:0:0:0:0:0:1]:00443");
    assert_eq!(text(target.canonical_authority().text()), "[::1]:443");
}

#[test]
fn classifying_covers_schemes_and_malformed_targets() {
    let Target::PublicHttp(target) = classify("GET", "https://example.com/") else { panic!() };
    assert!(target.secure());
    assert_eq!(target.port(), 443);
    let Target::LocalHttp(target) = classify("GET", "https://127.0.0.1:443/") else { panic!() };
    assert!(target.secure());
    assert_eq!(classify("GET", "http:///path"), Target::Malformed);
    assert_eq!(classify("CONNECT", "example.com:0"), Target::Malformed);
}

#[test]
fn authorities_have_hosts_and_ports() {
    let parse = |value: &str, port: u16| {
        parse_public_authority(&value.chars().collect::<Vec<char>>(), port)
    };
    assert_eq!(parse("Example.com", 80), Some(("example.com".to_owned(), 80)));
    assert_eq!(parse("example.com:81", 80), Some(("example.com".to_owned(), 81)));
    assert_eq!(parse("example.com:x", 80), None);
    assert_eq!(parse("", 80), None);
}
