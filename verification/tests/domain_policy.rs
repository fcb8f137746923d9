use vhrn::domain::policy::reader::{
    admit_policy_file, decide_local_live, decide_public_live, decode_policy_bytes,
    load_local_strict, load_public_strict, StrictFile, MAX_POLICY_BYTES,
};
use vhrn::domain::policy::{
    decide_local, decide_public, effective_status_mode, parse_domain_layer, parse_local_layer,
    parse_mode, DomainName, DomainPattern, LayerFile, Mode, PolicyEntry, PolicyParseError,
    PolicySnapshot,
};
use vhrn::domain::target::{LoopbackAuthority, PublicHost};
use vhrn::ip::IpAddress;
use vhrn::unique::UniqueSet;

fn host(value: &str) -> PublicHost {
    PublicHost::Dns(DomainName::parse(value).unwrap())
}

fn file(path: &str, contents: &str) -> LayerFile {
    LayerFile { path: path.to_string(), contents: Some(contents.to_string()) }
}

fn missing(path: &str) -> LayerFile {
    LayerFile { path: path.to_string(), contents: None }
}

fn local_files(contents: [Option<&str>; 3]) -> [LayerFile; 3] {
    let layer = |n: usize| LayerFile {
        path: format!("/policy/{n}"),
        contents: contents[n].map(|text| text.to_string()),
    };
    [layer(0), layer(1), layer(2)]
}

fn authority(value: &str) -> LoopbackAuthority {
    LoopbackAuthority::parse(value).unwrap()
}

#[test]
fn layers_context_and_mode_warnings() {
    for index in 0..3 {
        let mut contents = [Some(""), Some(""), Some("")];
        contents[index] = Some("localhost:80\n");
        assert!(decide_local(&local_files(contents), &authority("localhost:80")).unwrap());
    }
    let broken = local_files([Some(""), Some("bad\n"), Some("")]);
    let error = decide_local(&broken, &authority("localhost:80")).unwrap_err();
    assert!(error.contains("layer 1") && error.contains("line 1") && error.contains("/policy/1"));
    let public = [file("/policy/0", "allowed.example\n")];
    for value in ["strange\n", "open\nreport\n"] {
        let (decision, warning) =
            decide_public(&public, &file("/mode", value), &host("blocked.example")).unwrap();
        assert!(!decision.allowed);
        assert!(warning.is_some());
    }
}

#[test]
fn public_layers_union_replacement_and_fail_closed_context() {
    let enforce = file("/mode", "enforce\n");
    let layers = |base: &str, harness: LayerFile, run: &str| {
        [
            file("/base", base),
            harness,
            file("/global", ""),
            file("/project", ""),
            file("/run", run),
        ]
    };
    let first = layers("one.example\none.example\n", file("/harness", ""), "two.example\n");
    assert!(decide_public(&first, &enforce, &host("two.example")).unwrap().0.allowed);
    assert!(decide_public(&[], &enforce, &host("two.example")).unwrap_err().contains("no layers"));
    let second = layers("three.example\n", file("/harness", ""), "two.example\n");
    assert!(!decide_public(&second, &enforce, &host("one.example")).unwrap().0.allowed);
    for contents in ["\n", "bad!entry\n"] {
        for mode in ["report\n", "open\n"] {
            let broken = layers("three.example\n", file("/harness", contents), "two.example\n");
            let error =
                decide_public(&broken, &file("/mode", mode), &host("one.example")).unwrap_err();
            assert!(
                error.contains("layer 1") && error.contains("line 1") && error.contains("/harness")
            );
        }
    }
    let gone = layers("three.example\n", missing("/harness"), "two.example\n");
    let error = decide_public(&gone, &file("/mode", "open\n"), &host("one.example")).unwrap_err();
    assert!(error.contains("layer 1") && error.contains("/harness"));
}

#[test]
fn local_failures_and_replacement_are_contextual_not_panics() {
    let asked = authority("localhost:80");
    assert!(!decide_local(&local_files([Some(""), Some(""), Some("")]), &asked).unwrap());
    assert!(decide_local(&local_files([Some("localhost:80\n"), Some(""), Some("")]), &asked).unwrap());
    assert!(
        !decide_local(&local_files([Some("127.0.0.1:81\n"), Some(""), Some("")]), &asked).unwrap()
    );
    for contents in ["\n", "bad\n"] {
        let files = local_files([Some("127.0.0.1:81\n"), Some(""), Some(contents)]);
        let error = decide_local(&files, &asked).unwrap_err();
        assert!(
            error.contains("layer 2") && error.contains("line 1") && error.contains("/policy/2")
        );
    }
    let files = local_files([Some("127.0.0.1:81\n"), Some(""), None]);
    let error = decide_local(&files, &asked).unwrap_err();
    assert!(error.contains("layer 2") && error.contains("/policy/2"));
}

#[test]
fn parsers_cover_domain_fixture_and_whitespace() {
    assert!(parse_domain_layer("").unwrap().is_empty());
    assert!(parse_local_layer("").unwrap().is_empty());
    for value in ["\n", "\r\n", " \n"] {
        assert!(parse_domain_layer(value).is_err());
        assert!(parse_local_layer(value).is_err());
    }
}

#[test]
fn persisted_ip_grants_are_exact_and_policy_hostnames_remain_broader_than_wire_names() {
    for value in ["_service.example", "-edge.example", "edge-.example"] {
        assert!(PolicyEntry::parse(value).is_some(), "{value}");
        assert!(DomainName::parse(value).is_none(), "{value}");
    }
    assert!(PolicyEntry::parse("2606:4700:4700::1111").is_none());
    let policy = parse_domain_layer("8.8.8.8\n").unwrap();
    let snapshot = PolicySnapshot::with(Mode::Enforce, policy, UniqueSet::new());
    assert!(snapshot.decide_public(&PublicHost::Ip(IpAddress::V4([8, 8, 8, 8]))).allowed);
    assert!(!snapshot.decide_public(&PublicHost::Ip(IpAddress::V4([8, 8, 8, 9]))).allowed);
}

#[test]
fn modes_decide_and_record() {
    let layers = [file("/layer", "allowed.example\n")];
    let cases = [
        ("enforce\n", "allowed.example", true, false),
        ("enforce\n", "blocked.example", false, true),
        ("report\n", "allowed.example", true, false),
        ("report\n", "blocked.example", true, true),
        ("open\n", "blocked.example", true, false),
    ];
    for (mode, asked, allowed, recorded) in cases {
        let (decision, warning) =
            decide_public(&layers, &file("/mode", mode), &host(asked)).unwrap();
        assert_eq!(decision.allowed, allowed, "{mode} {asked}");
        assert_eq!(decision.record_denial, recorded, "{mode} {asked}");
        assert_eq!(decision.mode.as_str(), mode.trim_end());
        assert!(warning.is_none());
    }
    assert!(decide_public(&layers, &missing("/mode"), &host("allowed.example"))
        .unwrap_err()
        .contains("/mode"));
}

#[test]
fn mode_files_hold_one_known_word() {
    assert_eq!(parse_mode("open\r\n"), (Mode::Open, None));
    assert_eq!(parse_mode("report"), (Mode::Report, None));
    let (mode, warning) = parse_mode("open\nopen\n");
    assert_eq!(mode, Mode::Enforce);
    assert_eq!(warning.as_deref(), Some("mode file is multiline; enforcing"));
    let (mode, warning) = parse_mode("Open");
    assert_eq!(mode, Mode::Enforce);
    assert_eq!(warning.as_deref(), Some("mode file is unknown; enforcing"));
    for mode in [Mode::Enforce, Mode::Report, Mode::Open] {
        assert_eq!(Mode::parse(mode.as_str()), Some(mode));
        assert_eq!(Mode::readable_or_enforce(mode.as_str()), mode);
    }
    assert_eq!(Mode::readable_or_enforce("unknown"), Mode::Enforce);
}

#[test]
fn a_pattern_covers_itself_and_its_subdomains_only() {
    let pattern = DomainPattern::parse("*.Example.com.").unwrap();
    let covers = |name: &str| pattern.matches(&DomainName::parse(name).unwrap());
    assert!(covers("example.com"));
    assert!(covers("a.b.example.com"));
    assert!(!covers("notexample.com"));
    assert!(!covers("com"));
    assert_eq!(PolicyParseError.message(), "invalid policy entry");
}

#[test]
fn the_status_mode_falls_back_to_enforce() {
    let layers = [file("/layer", "allowed.example\n")];
    assert_eq!(effective_status_mode(&layers, &file("/mode", "open\n")), (Mode::Open, None));
    let (mode, warning) = effective_status_mode(&[missing("/layer")], &file("/mode", "open\n"));
    assert_eq!(mode, Mode::Enforce);
    assert!(warning.unwrap().contains("/layer"));
}

#[test]
fn bounded_open_accepts_one_mib_and_rejects_one_byte_more() {
    let length = MAX_POLICY_BYTES as u64;
    assert!(admit_policy_file("test policy", "/policy", true, length).is_ok());
    let text = decode_policy_bytes("test policy", "/policy", vec![b'a'; MAX_POLICY_BYTES]).unwrap();
    assert_eq!(text.len(), MAX_POLICY_BYTES);
    assert!(admit_policy_file("test policy", "/policy", true, length + 1).is_err());
    assert!(decode_policy_bytes("test policy", "/policy", vec![b'a'; MAX_POLICY_BYTES + 1]).is_err());
}

#[test]
fn bounded_open_rejects_directory_missing_and_invalid_utf8() {
    assert_eq!(
        admit_policy_file("test policy", "/dir", false, 0).unwrap_err(),
        "test policy at /dir is not a regular file"
    );
    let error = decode_policy_bytes("test policy", "/invalid", vec![0xff]).unwrap_err();
    assert!(error.contains("/invalid"));
    assert_eq!(
        decode_policy_bytes("test policy", "/text", "gr\u{fc}n".as_bytes().to_vec()).unwrap(),
        "gr\u{fc}n"
    );
}

#[test]
fn live_decisions_fail_closed() {
    let strict = |path: &str, contents: Result<&str, &str>| StrictFile {
        path: path.to_string(),
        contents: contents.map(|t| t.to_string()).map_err(|e| e.to_string()),
    };
    let loaded = load_public_strict(
        &[strict("/layer", Ok("allowed.example\n"))],
        &strict("/mode", Ok("open\n")),
    );
    assert!(decide_public_live(&loaded, &host("blocked.example")).allowed);
    let failed =
        load_public_strict(&[strict("/layer", Err("gone"))], &strict("/mode", Ok("open\n")));
    let decision = decide_public_live(&failed, &host("allowed.example"));
    assert!(!decision.allowed && decision.record_denial);
    assert_eq!(decision.mode, Mode::Enforce);
    let local = load_local_strict(&[
        strict("/0", Ok("localhost:80\n")),
        strict("/1", Ok("")),
        strict("/2", Ok("")),
    ]);
    assert!(decide_local_live(&local, &authority("localhost:80")));
    let broken = load_local_strict(&[
        strict("/0", Ok("localhost:80\n")),
        strict("/1", Ok("bad\n")),
        strict("/2", Ok("")),
    ]);
    assert!(!decide_local_live(&broken, &authority("localhost:80")));
}
