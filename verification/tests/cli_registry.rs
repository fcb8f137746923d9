use vhrn::cli::registry::{
    body_is_read, get_challenged, link_next, newest_semver, parse_semver, parse_www_authenticate, quoted_value,
    remote_manifest_digest, repo_path, split_registry, tags_url, token_url, update_available,
    BearerChallenge, ChallengeStep, TagList, TagPage, TagStep,
};

// The real challenge strings GHCR and Docker Hub return on an unauthenticated /v2 read.
#[test]
fn parse_challenge_ghcr_and_dockerhub() {
    let ghcr = parse_www_authenticate(
        r#"Bearer realm="https://ghcr.io/token",service="ghcr.io",scope="repository:aravind-n/vhrn-aider:pull""#,
    )
    .expect("ghcr challenge");
    assert_eq!(ghcr.realm, "https://ghcr.io/token");
    assert_eq!(ghcr.service, "ghcr.io");
    assert_eq!(ghcr.scope, "repository:aravind-n/vhrn-aider:pull");

    let hub = parse_www_authenticate(
        r#"Bearer realm="https://auth.docker.io/token",service="registry.docker.io",scope="repository:library/node:pull""#,
    )
    .expect("docker hub challenge");
    assert_eq!(hub.realm, "https://auth.docker.io/token");
    assert_eq!(hub.service, "registry.docker.io");
    assert_eq!(hub.scope, "repository:library/node:pull");
}

#[test]
fn parse_challenge_rejects_non_bearer() {
    assert!(parse_www_authenticate(r#"Basic realm="x""#).is_none());
    assert!(parse_www_authenticate("Bearer service=\"x\"").is_none()); // no realm
    // The scheme is case-insensitive (RFC 7235).
    assert_eq!(
        parse_www_authenticate(r#"bearer realm="https://r/token""#).map(|c| c.realm),
        Some("https://r/token".to_string())
    );
}

#[test]
fn challenge_values_keep_their_commas() {
    let challenge = parse_www_authenticate(
        r#"  BEARER realm="https://r",scope="repository:a/b:pull,push""#,
    )
    .unwrap();
    assert_eq!(challenge.scope, "repository:a/b:pull,push");
    assert_eq!(challenge.service, "");
    assert!(parse_www_authenticate(r#"Bearer realm="open"#).is_none());
    assert!(parse_www_authenticate("Beare").is_none());
    assert!(parse_www_authenticate(r#"Bearerish realm="x""#).is_none());
}

#[test]
fn a_key_is_found_only_where_a_parameter_begins() {
    let value = |header: &str, key: &str| {
        let header: Vec<char> = header.chars().collect();
        quoted_value(&header, key)
    };
    assert_eq!(value(r#"Bearer error_realm="x""#, "realm"), None);
    assert_eq!(
        value(r#"Bearer error_realm="x", realm="y""#, "realm"),
        Some("y".into())
    );
    assert_eq!(
        value(r#"Bearer scope="a realm=",realm="z""#, "realm"),
        Some("z".into())
    );
    assert_eq!(value(r#"realm="first""#, "realm"), Some("first".into()));
    assert_eq!(value(r#"Bearer realm="open"#, "realm"), None);
    assert_eq!(value("Bearer", "realm"), None);
    assert_eq!(value(r#"Bearer realm-x="a""#, "x"), None);
}

#[test]
fn any_mark_that_no_name_holds_may_stand_before_a_key() {
    let value = |header: &str, key: &str| {
        let header: Vec<char> = header.chars().collect();
        quoted_value(&header, key)
    };
    let semicolon = parse_www_authenticate(r#"Bearer realm="r";service="s";scope="a""#).unwrap();
    assert_eq!(semicolon.realm, "r");
    assert_eq!(semicolon.service, "s");
    assert_eq!(semicolon.scope, "a");
    assert_eq!(value(r#"realm="r"service="s""#, "service"), Some("s".into()));
    assert_eq!(value(r#"Bearer(realm="r""#, "realm"), Some("r".into()));
    assert_eq!(
        parse_www_authenticate(r#"Bearer,realm="r""#).map(|c| c.realm),
        Some("r".into())
    );
}

#[test]
fn an_escaped_quote_does_not_end_a_quoted_value() {
    let value = |header: &str, key: &str| {
        let header: Vec<char> = header.chars().collect();
        quoted_value(&header, key)
    };
    assert_eq!(value(r#"Bearer error="a\"b", realm="r""#, "realm"), Some("r".into()));
    assert_eq!(
        parse_www_authenticate(r#"Bearer error="a\"b", realm="r",service="s""#).map(|c| c.service),
        Some("s".into())
    );
    assert_eq!(value(r#"Bearer error="a\" realm=", realm="r""#, "realm"), Some("r".into()));
    assert_eq!(value(r#"Bearer error="a\\", realm="r""#, "realm"), Some("r".into()));
}

#[test]
fn token_url_builds_query() {
    let bc = BearerChallenge {
        realm: "https://auth.docker.io/token".into(),
        service: "registry.docker.io".into(),
        scope: "repository:library/node:pull".into(),
    };
    assert_eq!(
        token_url(&bc),
        "https://auth.docker.io/token?service=registry.docker.io&scope=repository:library/node:pull"
    );
    // A realm without service/scope stays bare.
    let bare = BearerChallenge {
        realm: "https://ghcr.io/token".into(),
        service: String::new(),
        scope: String::new(),
    };
    assert_eq!(token_url(&bare), "https://ghcr.io/token");
}

#[test]
fn token_url_takes_either_parameter_alone() {
    let service = BearerChallenge {
        realm: "https://r".into(),
        service: "s".into(),
        scope: String::new(),
    };
    assert_eq!(token_url(&service), "https://r?service=s");
    let scope = BearerChallenge {
        realm: "https://r".into(),
        service: String::new(),
        scope: "c".into(),
    };
    assert_eq!(token_url(&scope), "https://r?scope=c");
}

#[test]
fn repo_path_from_registry_base() {
    assert_eq!(
        split_registry("ghcr.io/aravind-n"),
        ("ghcr.io".to_string(), "aravind-n".to_string())
    );
    assert_eq!(
        repo_path("ghcr.io/aravind-n", "vhrn-aider"),
        "aravind-n/vhrn-aider"
    );
    assert_eq!(
        repo_path("ghcr.io/org/sub", "vhrn-aider"),
        "org/sub/vhrn-aider"
    );
    // A bare host with no namespace.
    assert_eq!(repo_path("localhost:5000", "vhrn-aider"), "vhrn-aider");
}

#[test]
fn parse_semver_is_strict() {
    assert_eq!(parse_semver("2.1.218"), Some((2, 1, 218)));
    assert_eq!(parse_semver("2.1.218-20260724"), None); // dated suffix
    assert_eq!(parse_semver("nightly"), None);
    assert_eq!(parse_semver("latest"), None);
    assert_eq!(parse_semver("2.1"), None); // too few
    assert_eq!(parse_semver("2.1.3.4"), None); // too many
    assert_eq!(parse_semver("2.1.x"), None);
}

#[test]
fn semver_numbers_fit_in_64_bits() {
    assert_eq!(
        parse_semver("18446744073709551615.0.0"),
        Some((u64::MAX, 0, 0))
    );
    assert_eq!(parse_semver("18446744073709551616.0.0"), None);
    assert_eq!(parse_semver("1..2"), None);
    assert_eq!(parse_semver("1.2.+"), None);
    assert_eq!(parse_semver("+1.2.3"), None);
    assert_eq!(parse_semver("1.+2.3"), None);
}

#[test]
fn newest_semver_picks_max_ignoring_non_semver() {
    let tags: Vec<String> = [
        "nightly",
        "2.1.218",
        "latest",
        "2.1.218-20260724",
        "2.10.0",
        "2.9.9",
    ]
    .iter()
    .map(ToString::to_string)
    .collect();
    assert_eq!(newest_semver(&tags).as_deref(), Some("2.10.0"));
    assert_eq!(newest_semver(&["nightly".into(), "latest".into()]), None);
    assert_eq!(newest_semver(&[]), None);
}

#[test]
fn of_equal_versions_the_last_is_the_newest() {
    let tags: Vec<String> = ["1.2.3", "01.2.3", "1.2.2"]
        .iter()
        .map(ToString::to_string)
        .collect();
    assert_eq!(newest_semver(&tags).as_deref(), Some("01.2.3"));
}

#[test]
fn update_available_compares_semver() {
    assert_eq!(update_available("2.1.219", "2.1.218"), Some(true));
    assert_eq!(update_available("2.1.218", "2.1.218"), Some(false));
    assert_eq!(update_available("2.1.217", "2.1.218"), Some(false));
    assert_eq!(update_available("2.2.0", "2.1.999"), Some(true));
    assert_eq!(update_available("nightly", "2.1.218"), None);
}

#[test]
fn link_next_resolves_relative_and_absolute() {
    assert_eq!(
        link_next(
            Some(r#"</v2/x/tags/list?last=z&n=100>; rel="next""#),
            "ghcr.io"
        ),
        Some("https://ghcr.io/v2/x/tags/list?last=z&n=100".into())
    );
    assert_eq!(
        link_next(Some(r#"<https://other/next>; rel="next""#), "ghcr.io"),
        Some("https://other/next".into())
    );
    assert_eq!(link_next(None, "ghcr.io"), None);
    assert_eq!(link_next(Some("<x>; rel=\"prev\""), "ghcr.io"), None);
}

#[test]
fn only_the_first_next_link_counts() {
    assert_eq!(
        link_next(Some("</a>; rel=prev, </b>; rel=next, </c>; rel=next"), "h"),
        Some("https://h/b".into())
    );
    assert_eq!(link_next(Some("no target; rel=next, </c>; rel=next"), "h"), None);
}

#[test]
fn a_link_keeps_its_commas() {
    assert_eq!(
        link_next(
            Some(r#"</v2/x/tags/list?last=a,b>; rel="next""#),
            "ghcr.io"
        ),
        Some("https://ghcr.io/v2/x/tags/list?last=a,b".into())
    );
    assert_eq!(
        link_next(Some(r#"</a>; title="x, y"; rel=prev, </b,c>;rel="next""#), "h"),
        Some("https://h/b,c".into())
    );
}

#[test]
fn only_a_parameter_names_the_next_link() {
    assert_eq!(link_next(Some(r#"</a?rel=next>; rel="prev""#), "h"), None);
    assert_eq!(link_next(Some(r#"</a>; title="; rel=next""#), "h"), None);
    assert_eq!(link_next(Some("</a>; rel=nextpage"), "h"), None);
    assert_eq!(link_next(Some("</a>; xrel=next"), "h"), None);
    assert_eq!(
        link_next(Some("</a>; rel=next; title=x"), "h"),
        Some("https://h/a".into())
    );
}

#[test]
fn an_escaped_quote_stays_in_the_value_of_a_link() {
    assert_eq!(
        link_next(Some(r#"<u>; title="a\"b"; rel="next""#), "h"),
        Some("https://hu".into())
    );
    assert_eq!(
        link_next(Some(r#"</a>; title="x\", y"; rel=prev, </b>; rel=next"#), "h"),
        Some("https://h/b".into())
    );
    assert_eq!(link_next(Some(r#"</a>; title="a\"; rel=next""#), "h"), None);
}

#[test]
fn a_bracket_or_quote_that_nothing_closes_opens_nothing() {
    assert_eq!(
        link_next(Some("a<b, </c>; rel=next"), "h"),
        Some("https://h/c".into())
    );
    assert_eq!(
        link_next(Some(r#"</a>; title=5"; rel=next"#), "h"),
        Some("https://h/a".into())
    );
    assert_eq!(link_next(Some("</a>;x/rel=next,y"), "h"), Some("https://h/a".into()));
}

#[test]
fn only_the_body_of_a_plain_success_is_read() {
    assert!(body_is_read(200));
    assert!(!body_is_read(201));
    assert!(!body_is_read(401));
    assert!(!body_is_read(0));
}

#[test]
fn a_challenge_is_answered_once() {
    assert_eq!(get_challenged(200, None), ChallengeStep::Answer);
    assert_eq!(get_challenged(404, None), ChallengeStep::Answer);
    assert_eq!(get_challenged(401, None), ChallengeStep::GiveUp);
    assert_eq!(get_challenged(401, Some("Basic")), ChallengeStep::GiveUp);
    assert_eq!(
        get_challenged(401, Some(r#"Bearer realm="https://r",service="s""#)),
        ChallengeStep::FetchToken("https://r?service=s".into())
    );
}

#[test]
fn tag_lists_follow_links_and_keep_what_they_have() {
    assert_eq!(
        tags_url("ghcr.io/org", "image"),
        "https://ghcr.io/v2/org/image/tags/list"
    );
    let (list, first) = TagList::fetch_tags("ghcr.io/org", "image");
    assert!(matches!(first, TagStep::Fetch(url) if url == "https://ghcr.io/v2/org/image/tags/list"));
    let (list, second) = list.page(TagPage::Page {
        link: Some("</next>; rel=next".into()),
        tags: vec!["1.0.0".into()],
    });
    assert!(matches!(second, TagStep::Fetch(url) if url == "https://ghcr.io/next"));
    let (none, done) = list.unwrap().page(TagPage::Refused);
    assert!(none.is_none());
    assert!(matches!(done, TagStep::Done(Some(tags)) if tags == ["1.0.0".to_string()]));

    let (list, _) = TagList::fetch_tags("ghcr.io/org", "image");
    let (_, done) = list.page(TagPage::Refused);
    assert!(matches!(done, TagStep::Done(None)));
    let (list, _) = TagList::fetch_tags("ghcr.io/org", "image");
    let (_, done) = list.page(TagPage::Failed);
    assert!(matches!(done, TagStep::Done(None)));
}

#[test]
fn tag_lists_stop_after_fifty_pages() {
    let (mut list, _) = TagList::fetch_tags("h", "i");
    for page in 0..50 {
        let (next, step) = list.page(TagPage::Page {
            link: Some("</n>; rel=next".into()),
            tags: vec![format!("{page}")],
        });
        if page == 49 {
            assert!(next.is_none());
            assert!(matches!(step, TagStep::Done(Some(tags)) if tags.len() == 50));
            return;
        }
        list = next.unwrap();
    }
}

#[test]
fn digests_are_trimmed_and_checked() {
    assert_eq!(
        remote_manifest_digest(200, Some("  sha256:abc ")),
        Some("sha256:abc".into())
    );
    assert_eq!(remote_manifest_digest(200, Some("md5:abc")), None);
    assert_eq!(remote_manifest_digest(404, Some("sha256:abc")), None);
    assert_eq!(remote_manifest_digest(200, None), None);
}
