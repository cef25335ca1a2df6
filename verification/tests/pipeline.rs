//! The fetch pipelines driven through the library's decision functions with
//! the replies a GitHub server would send, decoded into the library's types.

use image::ImageEncoder;
use reposcope::cli::validate_svg;
use reposcope::contributors::{
    avatar_from_fetch, avatar_request_url, select_contributors, wall_entry, WallEntry, WallPager,
};
use reposcope::github::{
    avatar_mime, graphql_decision, Contributor, GqlData, GqlDecision, GqlEdge, GqlError,
    GqlPageInfo, GqlRateLimit, GqlRepo, GqlResponse, GqlStars,
};
use reposcope::star_history::{StarPoint, StarSeriesBuilder};
use reposcope::svg::{render_contributor_wall, star_chart_head, WallOptions, Theme};
use reposcope::ScopeError;

const BASE_TS: i64 = 1_700_000_000; // 2023-11-14T22:13:20Z

fn rfc3339(ts: i64) -> String {
    chrono::DateTime::from_timestamp(ts, 0)
        .unwrap()
        .format("%Y-%m-%dT%H:%M:%SZ")
        .to_string()
}

/// One decoded stargazers reply.
fn star_reply(total: u64, timestamps: &[i64], next_cursor: Option<&str>) -> GqlResponse {
    GqlResponse {
        data: Some(GqlData {
            repository: Some(GqlRepo {
                stargazers: GqlStars {
                    total_count: total,
                    page_info: GqlPageInfo {
                        has_next_page: next_cursor.is_some(),
                        end_cursor: next_cursor.map(|c| c.to_string()),
                    },
                    edges: timestamps
                        .iter()
                        .map(|ts| GqlEdge { starred_at: rfc3339(*ts) })
                        .collect(),
                },
            }),
            rate_limit: Some(GqlRateLimit {
                remaining: 4999,
                reset_at: "2099-01-01T00:00:00Z".into(),
            }),
        }),
        errors: None,
    }
}

/// The star-series walk: `serve` answers the request for a cursor.
fn star_series(serve: &dyn Fn(Option<&str>) -> GqlResponse) -> Result<Vec<StarPoint>, ScopeError> {
    let mut builder = StarSeriesBuilder::new();
    let mut after: Option<String> = None;
    loop {
        let page = match graphql_decision(serve(after.as_deref()), 1, 0) {
            GqlDecision::Page(p) => p,
            GqlDecision::Fail(e) => return Err(e),
            GqlDecision::Sleep(s) => panic!("unexpected sleep {s}"),
        };
        let outcome = builder.absorb_page(page)?;
        match outcome.next? {
            None => break,
            Some(c) => after = Some(c),
        }
    }
    Ok(builder.finish())
}

fn multi_page_server(after: Option<&str>) -> GqlResponse {
    // 230 stars, one per day → pages of 100/100/30.
    let days = |r: std::ops::Range<i64>| -> Vec<i64> { r.map(|d| BASE_TS + d * 86_400).collect() };
    match after {
        None => star_reply(230, &days(0..100), Some("cursor-1")),
        Some("cursor-1") => star_reply(230, &days(100..200), Some("cursor-2")),
        Some("cursor-2") => star_reply(230, &days(200..230), None),
        Some(other) => panic!("unexpected cursor {other}"),
    }
}

#[test]
fn multi_page_repo() {
    let series = star_series(&multi_page_server).unwrap();
    assert_eq!(
        series.first().unwrap(),
        &StarPoint {
            ts: (BASE_TS / 86_400) * 86_400,
            count: 1
        }
    );
    assert_eq!(series.last().unwrap().count, 230);
    assert!(series.len() <= 200, "{} points", series.len());
    for w in series.windows(2) {
        assert!(w[0].ts < w[1].ts && w[0].count < w[1].count, "{series:?}");
    }
}

#[test]
fn empty_repo() {
    let series = star_series(&|_| star_reply(0, &[], None)).unwrap();
    assert!(series.is_empty());
}

#[test]
fn repo_not_found() {
    let err = star_series(&|_| GqlResponse {
        data: Some(GqlData {
            repository: None,
            rate_limit: Some(GqlRateLimit {
                remaining: 4999,
                reset_at: "2099-01-01T00:00:00Z".into(),
            }),
        }),
        errors: None,
    })
    .unwrap_err();
    assert!(err.message().contains("repository not found"), "{err:?}");
}

#[test]
fn graphql_error_surfaces_message() {
    let err = star_series(&|_| GqlResponse {
        data: None,
        errors: Some(vec![GqlError {
            message: "Something went wrong".into(),
            kind: Some("INTERNAL".into()),
        }]),
    })
    .unwrap_err();
    assert!(err.message().contains("Something went wrong"), "{err:?}");
}

fn clumped(r: std::ops::Range<i64>) -> Vec<i64> {
    r.map(|i| BASE_TS + (i / 7) * 86_400).collect()
}

fn clumped_server(after: Option<&str>) -> GqlResponse {
    // Several stars per day; two pages.
    match after {
        None => star_reply(187, &clumped(0..100), Some("cursor-1")),
        Some("cursor-1") => star_reply(187, &clumped(100..187), None),
        Some(other) => panic!("unexpected cursor {other}"),
    }
}

#[test]
fn double_run_is_byte_identical() {
    let a = star_series(&clumped_server).unwrap();
    let b = star_series(&clumped_server).unwrap();
    assert_eq!(a, b);
    let s1 = star_chart_head("o/r", &Theme::light());
    let s2 = star_chart_head("o/r", &Theme::light());
    assert_eq!(s1, s2);
    // Endpoint rule: the chart ends at the most recent star's day, count 187.
    let p2 = clumped(100..187);
    assert_eq!(a.last().unwrap().count, 187);
    assert_eq!(a.last().unwrap().ts, (p2[86] / 86_400) * 86_400);
}

fn contributor(login: &str, contributions: u64, kind: &str) -> Contributor {
    Contributor {
        login: Some(login.to_string()),
        avatar_url: Some(format!("http://127.0.0.1/avatars/{login}?v=4")),
        contributions,
        kind: kind.to_string(),
    }
}

/// The wall walk: `page_of` answers a listing page, `avatar` an avatar URL.
fn wall(
    page_of: &dyn Fn(u32) -> Vec<Contributor>,
    avatar: &dyn Fn(&str) -> Result<(String, Vec<u8>), ScopeError>,
    max: usize,
    include_bots: bool,
) -> Vec<WallEntry> {
    let mut pager = WallPager::new(max);
    while let Some(page) = pager.next_page() {
        pager.absorb(page_of(page));
    }
    select_contributors(pager.contributors, max, include_bots)
        .into_iter()
        .map(|c| {
            let a = match &c.avatar_url {
                Some(u) => avatar_from_fetch(&avatar(&avatar_request_url(u, 64))),
                None => None,
            };
            wall_entry(c, a)
        })
        .collect()
}

/// A real 1×1 PNG, as the avatar server sends it.
fn tiny_png() -> Vec<u8> {
    let mut out = Vec::new();
    image::codecs::png::PngEncoder::new(&mut out)
        .write_image(&[10, 20, 30, 255], 1, 1, image::ExtendedColorType::Rgba8)
        .unwrap();
    out
}

fn png_for(ok_logins: &'static [&'static str]) -> impl Fn(&str) -> Result<(String, Vec<u8>), ScopeError> {
    move |url: &str| {
        assert!(url.ends_with("?v=4&s=64"), "{url}");
        if ok_logins.iter().any(|l| url.contains(&format!("/avatars/{l}?"))) {
            Ok((avatar_mime(Some("image/png")), tiny_png()))
        } else {
            Err(ScopeError::Api(format!("GET {url}: HTTP 404 Not Found")))
        }
    }
}

#[test]
fn wall_fetch_filters_bots_preserves_order_embeds_avatars() {
    // Page 1: 100 entries (full page → pagination continues); page 2: 3 (short → stop).
    let pages = |p: u32| -> Vec<Contributor> {
        match p {
            1 => (0..100)
                .map(|i| contributor(&format!("user{i:03}"), 500 - i, "User"))
                .collect(),
            2 => vec![
                contributor("alice", 42, "User"),
                contributor("dependabot[bot]", 40, "Bot"),
                contributor("bob", 7, "User"),
            ],
            other => panic!("unexpected page {other}"),
        }
    };
    // Only bob's avatar downloads; alice's and the userNNN ones fail.
    let got = wall(&pages, &png_for(&["bob"]), 200, false);
    assert_eq!(got.len(), 102, "100 users + alice + bob (bot excluded)");
    // API order preserved (contributions desc).
    assert_eq!(got[0].login, "user000");
    assert_eq!(got[100].login, "alice");
    assert_eq!(got[101].login, "bob");
    assert!(!got.iter().any(|e| e.login.contains("bot")));
    // Avatar embedding + placeholder fallback.
    assert!(got[101].avatar.as_ref().unwrap().starts_with("data:image/png;base64,"));
    assert!(got[100].avatar.is_none(), "404 avatar → placeholder");

    let opts = WallOptions {
        cols: 12,
        avatar_size: 64,
    };
    let a = render_contributor_wall(&got, &opts);
    let b = render_contributor_wall(&got, &opts);
    assert_eq!(a, b, "wall render must be deterministic");
    assert_eq!(validate_svg(&a), Ok(()));
    roxmltree::Document::parse(&a).unwrap();
    assert!(a.contains("data:image/png;base64,"));
    assert!(a.contains("<title>@bob (7 contributions)</title>"));
    assert!(a.contains(">A</text>"), "alice's 404 avatar → placeholder letter A");
}

#[test]
fn include_bots_flag() {
    let pages = |p: u32| -> Vec<Contributor> {
        match p {
            1 => vec![
                contributor("alice", 42, "User"),
                contributor("dependabot[bot]", 40, "Bot"),
            ],
            other => panic!("unexpected page {other}"),
        }
    };
    let with_bots = wall(&pages, &png_for(&["alice", "dependabot[bot]"]), 100, true);
    assert_eq!(with_bots.len(), 2);
    assert_eq!(with_bots[1].login, "dependabot[bot]");
}
