use std::collections::BTreeMap;
use vhrn::config::{
    load_broker_token, parse_listener, resolve_config, BrokerEndpoint, Config, ConfigError,
    Environment, ListenerError, LocalPathsError, TokenFileError, DEFAULT_ALLOWLIST, DEFAULT_MODE_FILE,
};
use vhrn::ip::{IpAddress, SocketAddress};

fn resolve(values: BTreeMap<&str, &str>) -> Result<Config, ConfigError> {
    let value = |name: &str| values.get(name).map(|v| v.to_string());
    resolve_config(&Environment {
        allowlists: value("VHRN_ALLOWLISTS"),
        allowlist: value("VHRN_ALLOWLIST"),
        loopback_allowlists: value("VHRN_LOOPBACK_ALLOWLISTS"),
        broker_addr: value("VHRN_BROKER_ADDR"),
        broker_token_file: value("VHRN_BROKER_TOKEN_FILE"),
        mode_file: value("VHRN_MODE_FILE"),
        deny_log: value("VHRN_DENY_LOG"),
        proxy_listen: value("VHRN_PROXY_LISTEN"),
    })
}

fn told(error: ConfigError) -> (&'static str, Option<&'static str>) {
    (error.message(), error.cause())
}

fn v4(address: [u8; 4], port: u16) -> SocketAddress {
    SocketAddress { address: IpAddress::V4(address), scope_id: 0, port }
}

#[test]
fn startup_values_resolve_without_an_environment() {
    let config = resolve(BTreeMap::new()).unwrap();
    assert_eq!(config.allowlists.as_slice(), [DEFAULT_ALLOWLIST.to_string()]);
    assert!(resolve(BTreeMap::from([("VHRN_BROKER_ADDR", "127.0.0.1:1")])).is_err());
    assert!(resolve(BTreeMap::from([
        ("VHRN_LOOPBACK_ALLOWLISTS", "a,b,c"),
        ("VHRN_BROKER_ADDR", "127.0.0.1:1"),
        ("VHRN_BROKER_TOKEN_FILE", "token"),
    ]))
    .is_ok());
}

#[test]
fn plural_rejects_empty_items() {
    assert!(resolve(BTreeMap::from([("VHRN_ALLOWLISTS", "one,,three")])).is_err());
}

#[test]
fn resolves_allowlist_and_local_edges() {
    assert_eq!(
        resolve(BTreeMap::from([("VHRN_ALLOWLISTS", "one,two"), ("VHRN_ALLOWLIST", "ignored")]))
            .unwrap()
            .allowlists
            .as_slice(),
        ["one".to_string(), "two".to_string()]
    );
    assert_eq!(
        resolve(BTreeMap::from([("VHRN_ALLOWLISTS", ""), ("VHRN_ALLOWLIST", "single")]))
            .unwrap()
            .allowlists
            .as_slice(),
        ["single".to_string()]
    );
    assert_eq!(
        resolve(BTreeMap::from([("VHRN_ALLOWLIST", "")])).unwrap().allowlists.as_slice(),
        [DEFAULT_ALLOWLIST.to_string()]
    );
    let config = resolve(BTreeMap::from([("VHRN_DENY_LOG", "")])).unwrap();
    assert!(config.deny_log.is_none());
    assert!(resolve(BTreeMap::from([
        ("VHRN_LOOPBACK_ALLOWLISTS", "a,b,c"),
        ("VHRN_BROKER_ADDR", "not-an-address"),
        ("VHRN_BROKER_TOKEN_FILE", "token"),
    ]))
    .is_err());
    for paths in ["a,b", "a,b,c,d", "a,,c"] {
        assert!(resolve(BTreeMap::from([
            ("VHRN_LOOPBACK_ALLOWLISTS", paths),
            ("VHRN_BROKER_ADDR", "127.0.0.1:1"),
            ("VHRN_BROKER_TOKEN_FILE", "token"),
        ]))
        .is_err());
    }
}

#[test]
fn empty_values_are_unset_for_every_default_and_optional_variable() {
    let config = resolve(BTreeMap::from([
        ("VHRN_ALLOWLISTS", ""),
        ("VHRN_ALLOWLIST", ""),
        ("VHRN_MODE_FILE", ""),
        ("VHRN_PROXY_LISTEN", ""),
        ("VHRN_DENY_LOG", ""),
        ("VHRN_LOOPBACK_ALLOWLISTS", ""),
        ("VHRN_BROKER_ADDR", ""),
        ("VHRN_BROKER_TOKEN_FILE", ""),
    ]))
    .unwrap();
    assert_eq!(config.allowlists.as_slice(), [DEFAULT_ALLOWLIST.to_string()]);
    assert_eq!(config.mode_file, DEFAULT_MODE_FILE);
    assert_eq!(config.listen, v4([0, 0, 0, 0], 8080));
    assert!(config.deny_log.is_none());
    assert!(config.local.is_none());
}

#[test]
fn every_partial_nonempty_local_group_is_rejected() {
    let names = ["VHRN_LOOPBACK_ALLOWLISTS", "VHRN_BROKER_ADDR", "VHRN_BROKER_TOKEN_FILE"];
    let values = ["one,two,three", "127.0.0.1:1234", "token"];
    for mask in 0_u8..8 {
        let result = Config::resolve(|name: &str| {
            names.iter().position(|candidate| *candidate == name).map(|index| {
                if mask & (1 << index) == 0 {
                    String::new()
                } else {
                    values[index].to_owned()
                }
            })
        });
        assert_eq!(result.is_ok(), mask == 0 || mask == 7, "mask {mask:03b}");
        if mask == 0 {
            assert!(result.unwrap().local.is_none());
        }
    }
}

#[test]
fn invalid_listener_values_are_rejected_without_echoing_values() {
    for listener in ["host.invalid:8080", "127.0.0.1:0", ":0", "not a listener"] {
        let error = resolve(BTreeMap::from([("VHRN_PROXY_LISTEN", listener)])).err().unwrap();
        assert!(error.message().contains("VHRN_PROXY_LISTEN"));
        assert!(!error.message().contains(listener));
    }
}

#[test]
fn each_broken_setting_has_its_error() {
    assert_eq!(
        told(resolve(BTreeMap::from([("VHRN_ALLOWLISTS", "a,,b")])).err().unwrap()),
        ("parse VHRN_ALLOWLISTS", Some("VHRN_ALLOWLISTS must contain only nonempty paths"))
    );
    let local = |paths: &'static str, addr: &'static str| {
        resolve(BTreeMap::from([
            ("VHRN_LOOPBACK_ALLOWLISTS", paths),
            ("VHRN_BROKER_ADDR", addr),
            ("VHRN_BROKER_TOKEN_FILE", "token"),
        ]))
        .err()
        .unwrap()
    };
    for paths in ["a,b", "a,b,c,d", "a,,c,d", ","] {
        assert_eq!(
            local(paths, "127.0.0.1:1"),
            ConfigError::LoopbackAllowlists(LocalPathsError::Count)
        );
    }
    assert_eq!(
        told(local("a,b", "nowhere")),
        ("parse VHRN_LOOPBACK_ALLOWLISTS", Some("requires exactly three policy paths"))
    );
    for paths in [",b,c", "a,,c", "a,b,", ",,"] {
        assert_eq!(
            told(local(paths, "127.0.0.1:1")),
            ("parse VHRN_LOOPBACK_ALLOWLISTS", Some("contains an empty policy path"))
        );
    }
    for addr in ["nowhere", "127.0.0.1:0", "host:0"] {
        assert_eq!(
            told(local("a,b,c", addr)),
            ("parse VHRN_BROKER_ADDR", Some("invalid broker address"))
        );
    }
    let group = resolve(BTreeMap::from([("VHRN_BROKER_TOKEN_FILE", "t")])).err().unwrap();
    assert_eq!(group, ConfigError::LocalGroup);
    assert_eq!(group.cause(), None);
    let listener = |value: &'static str| {
        resolve(BTreeMap::from([("VHRN_PROXY_LISTEN", value)])).err().unwrap()
    };
    for value in [":0", "127.0.0.1:0", "[::1]:0"] {
        assert_eq!(
            told(listener(value)),
            ("parse VHRN_PROXY_LISTEN", Some("listener port must be nonzero"))
        );
    }
    for value in ["host.invalid:8080", ":65536", "not a listener"] {
        assert_eq!(
            told(listener(value)),
            ("parse VHRN_PROXY_LISTEN", Some("invalid socket address syntax"))
        );
    }
}

#[test]
fn listeners_take_a_bare_port_or_a_socket() {
    assert_eq!(parse_listener(":8080"), Ok(v4([0, 0, 0, 0], 8080)));
    assert_eq!(parse_listener("127.0.0.1:1"), Ok(v4([127, 0, 0, 1], 1)));
    assert_eq!(
        parse_listener("[::1]:65535"),
        Ok(SocketAddress {
            address: IpAddress::V6([0, 0, 0, 0, 0, 0, 0, 1]),
            scope_id: 0,
            port: 65535,
        })
    );
    assert_eq!(parse_listener(":65536"), Err(ListenerError::Syntax));
    assert_eq!(parse_listener(":0"), Err(ListenerError::ZeroPort));
}

#[test]
fn token_file_is_literal_and_redacted() {
    let valid = "a".repeat(64);
    let token = load_broker_token(true, 64, Some(valid.as_bytes())).ok().unwrap();
    assert!(!token.debug_text().contains(&valid));
    for contents in [format!("{valid}\n"), "A".repeat(64)] {
        let error = load_broker_token(true, contents.len() as u64, Some(contents.as_bytes()))
            .err()
            .unwrap();
        assert!(!error.message().contains(&valid));
        assert_eq!(error, TokenFileError::Invalid);
    }
    assert!(load_broker_token(true, 1, Some(&[0xff])).is_err());
    assert_eq!(load_broker_token(true, 64, None).err().unwrap(), TokenFileError::Unreadable);
    assert_eq!(
        load_broker_token(false, 64, Some(valid.as_bytes())).err().unwrap(),
        TokenFileError::Invalid
    );
}

#[test]
fn broker_endpoint_accepts_only_socket_or_hostname_with_port() {
    let config = resolve(BTreeMap::from([
        ("VHRN_LOOPBACK_ALLOWLISTS", "one,two,three"),
        ("VHRN_BROKER_ADDR", "host.docker.internal:12345"),
        ("VHRN_BROKER_TOKEN_FILE", "token"),
    ]))
    .unwrap();
    let local = config.local.unwrap();
    assert_eq!(
        local.broker_addr,
        BrokerEndpoint::Host { host: b"host.docker.internal".to_vec(), port: 12345 }
    );
    assert_eq!(
        local.policy_paths.as_array(),
        &["one".to_string(), "two".to_string(), "three".to_string()]
    );
    assert_eq!(
        BrokerEndpoint::parse("127.0.0.1:12345").unwrap(),
        BrokerEndpoint::Socket(v4([127, 0, 0, 1], 12345))
    );
    assert_eq!(
        BrokerEndpoint::parse("[::1]:12345").unwrap(),
        BrokerEndpoint::Socket(SocketAddress {
            address: IpAddress::V6([0, 0, 0, 0, 0, 0, 0, 1]),
            scope_id: 0,
            port: 12345,
        })
    );
    for value in [
        "",
        "host.docker.internal",
        "host.docker.internal:0",
        "127.0.0.1:0",
        "[::1]:0",
        "host.docker.internal:not-a-port",
        "http://host.docker.internal:12345",
        "user@host.docker.internal:12345",
        "host.docker.internal:12345/path",
        "[host.docker.internal]:12345",
        "[::1:12345",
        "::1:12345",
        ":12345",
        "host..internal:12345",
    ] {
        assert!(BrokerEndpoint::parse(value).is_err(), "{value}");
    }
}
