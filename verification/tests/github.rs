use reposcope::contributors::{
    avatar_data_uri, avatar_from_fetch, avatar_request_url, clamp_max, select_contributors,
    wall_entry, WallPager,
};
use reposcope::github::{
    authorization_value, transport_step,
    avatar_mime, body_excerpt, contributors_path, fetch_status_error, graphql_body_failure,
    graphql_decision, graphql_status_step, parse_u64, rest_failure, rest_step, retry_delay,
    split_repo, Contributor, GqlData, GqlDecision, GqlEdge, GqlError, GqlHttpStep, GqlPageInfo,
    GqlRateLimit, GqlRepo, GqlResponse, GqlStars, RestStep, TransportStep,
};
use reposcope::ScopeError;

fn user(login: &str, kind: &str) -> Contributor {
    Contributor {
        login: Some(login.to_string()),
        avatar_url: Some(format!("https://a/{login}?v=4")),
        contributions: 1,
        kind: kind.to_string(),
    }
}

#[test]
fn bots_and_selection() {
    assert!(user("x", "Bot").is_bot());
    assert!(!user("x", "User").is_bot());
    let list = vec![
        user("alice", "User"),
        user("dependabot[bot]", "Bot"),
        Contributor { login: None, avatar_url: None, contributions: 3, kind: "User".into() },
        user("bob", "User"),
    ];
    let logins = |v: &Vec<Contributor>| -> Vec<String> {
        v.iter().map(|c| c.login.clone().unwrap()).collect()
    };
    let picked = select_contributors(list.clone(), 100, false);
    assert_eq!(logins(&picked), vec!["alice", "bob"]);
    let with_bots = select_contributors(list.clone(), 100, true);
    assert_eq!(logins(&with_bots), vec!["alice", "dependabot[bot]", "bob"]);
    let capped = select_contributors(list, 1, true);
    assert_eq!(logins(&capped), vec!["alice"]);
}

#[test]
fn pager_stops_on_short_or_empty_pages() {
    assert_eq!(clamp_max(600), (500, true));
    assert_eq!(clamp_max(200), (200, false));
    let mut p = WallPager::new(200);
    assert_eq!(p.next_page(), Some(1));
    p.absorb((0..100).map(|i| user(&format!("u{i}"), "User")).collect());
    assert_eq!(p.next_page(), Some(2));
    p.absorb(vec![user("alice", "User")]);
    assert_eq!(p.next_page(), None);
    assert_eq!(p.contributors.len(), 101);
    let mut q = WallPager::new(100);
    q.absorb((0..100).map(|i| user(&format!("u{i}"), "User")).collect());
    assert_eq!(q.next_page(), None, "max reached");
    let mut e = WallPager::new(10);
    e.absorb(vec![]);
    assert_eq!(e.next_page(), None);
    assert_eq!(WallPager::new(0).next_page(), None);
}

#[test]
fn avatar_urls_and_payloads() {
    assert_eq!(
        avatar_request_url("https://a/u?v=4", 64),
        "https://a/u?v=4&s=64"
    );
    assert_eq!(
        avatar_data_uri("image/png", b"fake-png"),
        "data:image/png;base64,ZmFrZS1wbmc="
    );
    assert_eq!(avatar_data_uri("image/gif", b""), "data:image/gif;base64,");
    assert_eq!(avatar_data_uri("x", b"\xff\xfe\x00"), "data:x;base64,//4A");
    assert_eq!(avatar_data_uri("x", b"fo"), "data:x;base64,Zm8=");
    // Bytes that are no image give the placeholder.
    assert_eq!(avatar_from_fetch(&Ok(("image/png".to_string(), b"\x89PNG".to_vec()))), None);
    assert_eq!(avatar_from_fetch(&Ok(("image/png".to_string(), vec![0u8]))), None);
    assert_eq!(avatar_from_fetch(&Err(ScopeError::Api("x".into()))), None);
    let e = wall_entry(
        Contributor { login: None, avatar_url: None, contributions: 9, kind: String::new() },
        None,
    );
    assert_eq!(e.login, "");
    assert_eq!(e.contributions, 9);
}

#[test]
fn mime_detection() {
    assert_eq!(avatar_mime(Some("image/jpeg; charset=x")), "image/jpeg");
    assert_eq!(avatar_mime(Some("  image/webp  ")), "image/webp");
    assert_eq!(avatar_mime(Some("text/html")), "image/png");
    assert_eq!(avatar_mime(None), "image/png");
}

#[test]
fn paths_and_repo_split() {
    assert_eq!(
        contributors_path("o/r", 3),
        "/repos/o/r/contributors?per_page=100&page=3"
    );
    assert_eq!(
        split_repo("o/r/x").unwrap(),
        ("o".to_string(), "r/x".to_string())
    );
    assert_eq!(
        split_repo("name"),
        Err(ScopeError::Usage("invalid repo \"name\"".into()))
    );
}

#[test]
fn retry_after_and_backoff() {
    assert_eq!(parse_u64("42"), Some(42));
    assert_eq!(parse_u64("+7"), Some(7));
    assert_eq!(parse_u64("+"), None);
    assert_eq!(parse_u64(""), None);
    assert_eq!(parse_u64("-1"), None);
    assert_eq!(parse_u64("18446744073709551615"), Some(u64::MAX));
    assert_eq!(parse_u64("18446744073709551616"), None);
    assert_eq!(retry_delay(Some("3"), 1, 1000), 3000);
    assert_eq!(retry_delay(Some("9999"), 1, 1000), 600_000);
    assert_eq!(retry_delay(Some("soon"), 3, 1000), 4000);
    assert_eq!(retry_delay(None, 5, 10), 160);
}

#[test]
fn rest_decisions() {
    assert!(matches!(rest_step(200, 0, None, 1), RestStep::Accept));
    match rest_step(404, 0, None, 1) {
        RestStep::Fail(ScopeError::Api(m)) => {
            assert_eq!(m, "repository not found (or token lacks access)")
        }
        other => panic!("{other:?}"),
    }
    assert!(matches!(rest_step(503, 0, None, 1), RestStep::Retry(1, 1)));
    assert!(matches!(rest_step(429, 4, Some("2"), 1), RestStep::Retry(5, 2000)));
    assert!(matches!(rest_step(429, 5, None, 1), RestStep::FailWithBody(6)));
    assert!(matches!(rest_step(400, 0, None, 1), RestStep::FailWithBody(1)));
    assert_eq!(
        rest_failure("/p", "400 Bad Request", 1, "oops"),
        ScopeError::Api("GET /p: HTTP 400 Bad Request after 1 attempt(s): oops".into())
    );
    let long = "é".repeat(150);
    assert_eq!(body_excerpt(&long).chars().count(), 100);
    assert_eq!(
        fetch_status_error("http://x", "404 Not Found"),
        ScopeError::Api("GET http://x: HTTP 404 Not Found".into())
    );
}

fn reply(repo: bool, errors: Option<Vec<GqlError>>, reset: &str) -> GqlResponse {
    GqlResponse {
        data: Some(GqlData {
            repository: if repo {
                Some(GqlRepo {
                    stargazers: GqlStars {
                        total_count: 2,
                        page_info: GqlPageInfo { has_next_page: true, end_cursor: Some("c".into()) },
                        edges: vec![
                            GqlEdge { starred_at: "2023-01-01T00:00:00Z".into() },
                            GqlEdge { starred_at: "2023-01-02T00:00:00Z".into() },
                        ],
                    },
                })
            } else {
                None
            },
            rate_limit: Some(GqlRateLimit { remaining: 77, reset_at: reset.into() }),
        }),
        errors,
    }
}

#[test]
fn graphql_decisions() {
    match graphql_decision(reply(true, None, "x"), 1, 0) {
        GqlDecision::Page(p) => {
            assert_eq!(p.total_count, 2);
            assert_eq!(p.starred_at, vec!["2023-01-01T00:00:00Z", "2023-01-02T00:00:00Z"]);
            assert!(p.has_next_page);
            assert_eq!(p.end_cursor.as_deref(), Some("c"));
            assert_eq!(p.rate_remaining, Some(77));
        }
        other => panic!("{other:?}"),
    }
    match graphql_decision(reply(false, None, "x"), 1, 0) {
        GqlDecision::Fail(e) => assert!(e.message().contains("repository not found")),
        other => panic!("{other:?}"),
    }
    let err = |kind: Option<&str>| {
        Some(vec![GqlError { message: "Something went wrong".into(), kind: kind.map(|k| k.into()) }])
    };
    match graphql_decision(reply(true, err(Some("INTERNAL")), "x"), 1, 0) {
        GqlDecision::Fail(e) => assert_eq!(e, ScopeError::Api("Something went wrong".into())),
        other => panic!("{other:?}"),
    }
    // Rate limited: wait until the reset (capped), or 30 s without a usable time.
    assert!(matches!(
        graphql_decision(reply(true, err(Some("RATE_LIMITED")), "1970-01-01T00:01:40Z"), 1, 40),
        GqlDecision::Sleep(60)
    ));
    assert!(matches!(
        graphql_decision(reply(true, err(Some("RATE_LIMITED")), "2099-01-01T00:00:00Z"), 1, 0),
        GqlDecision::Sleep(600)
    ));
    assert!(matches!(
        graphql_decision(reply(true, err(Some("RATE_LIMITED")), "bad"), 2, 0),
        GqlDecision::Sleep(30)
    ));
    assert!(matches!(
        graphql_decision(reply(true, err(Some("RATE_LIMITED")), "bad"), 6, 0),
        GqlDecision::Fail(_)
    ));
    let empty = GqlResponse { data: None, errors: Some(vec![]) };
    match graphql_decision(empty, 1, 0) {
        GqlDecision::Fail(e) => assert_eq!(e, ScopeError::Api("POST /graphql: empty data".into())),
        other => panic!("{other:?}"),
    }
}

#[test]
fn graphql_status_decisions() {
    assert!(matches!(graphql_status_step(200, "200 OK", 1, None, 5), GqlHttpStep::Proceed));
    assert!(matches!(graphql_status_step(404, "404 Not Found", 1, None, 5), GqlHttpStep::Proceed));
    assert!(matches!(graphql_status_step(502, "502", 2, None, 5), GqlHttpStep::Retry(10)));
    match graphql_status_step(429, "429 Too Many Requests", 6, None, 5) {
        GqlHttpStep::Fail(e) => assert_eq!(
            e,
            ScopeError::Api("POST /graphql: HTTP 429 Too Many Requests after 5 retries".into())
        ),
        other => panic!("{other:?}"),
    }
    assert_eq!(
        graphql_body_failure("401 Unauthorized", "denied"),
        ScopeError::Api("POST /graphql: HTTP 401 Unauthorized: denied".into())
    );
}

#[test]
fn transport_failures_back_off_then_fail() {
    assert!(matches!(transport_step("POST /graphql", "refused", 1, 1000), TransportStep::Retry(1000)));
    assert!(matches!(transport_step("POST /graphql", "refused", 5, 1000), TransportStep::Retry(16000)));
    match transport_step("GET /repos/o/r/contributors", "connection reset", 6, 1000) {
        TransportStep::Fail(e) => assert_eq!(
            e,
            ScopeError::Api("GET /repos/o/r/contributors: connection reset".into())
        ),
        other => panic!("{other:?}"),
    }
}

#[test]
fn excerpt_cuts_at_a_char_boundary() {
    // 199 ASCII bytes, then a two-byte character over the 200-byte line.
    let body = format!("{}é tail", "a".repeat(199));
    assert_eq!(body_excerpt(&body), "a".repeat(199));
    let e = rest_failure("/p", "401 Unauthorized", 1, &body);
    assert_eq!(
        e,
        ScopeError::Api(format!("GET /p: HTTP 401 Unauthorized after 1 attempt(s): {}", "a".repeat(199)))
    );
    // A character ending exactly at byte 200 is kept.
    let body = format!("{}é", "a".repeat(198));
    assert_eq!(body_excerpt(&body), body);
    assert_eq!(body_excerpt("short"), "short");
    assert_eq!(body_excerpt(&"x".repeat(300)), "x".repeat(200));
    assert_eq!(
        graphql_body_failure("502", &"€".repeat(100)),
        ScopeError::Api(format!("POST /graphql: HTTP 502: {}", "€".repeat(66)))
    );
}

#[test]
fn authorization_header_values() {
    assert_eq!(authorization_value("ghp_abc").unwrap(), "Bearer ghp_abc");
    assert_eq!(authorization_value("tab\tand é").unwrap(), "Bearer tab\tand é");
    assert_eq!(
        authorization_value("bad\ntoken"),
        Err(ScopeError::Usage("token contains invalid characters".into()))
    );
    assert!(authorization_value("del\u{7f}").is_err());
}
