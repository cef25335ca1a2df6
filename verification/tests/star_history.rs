use reposcope::github::StarPage;
use reposcope::star_history::{daily_cumulative, parse_ts, subsample, StarPoint, StarSeriesBuilder};
use reposcope::ScopeError;

fn page(total: u64, stamps: &[&str], next: Option<&str>, has_next: bool) -> StarPage {
    StarPage {
        total_count: total,
        starred_at: stamps.iter().map(|s| s.to_string()).collect(),
        has_next_page: has_next,
        end_cursor: next.map(|s| s.to_string()),
        rate_remaining: Some(4999),
    }
}

#[test]
fn daily_cumulative_buckets_and_accumulates() {
    // Two stars on day 0, one on day 2 (unsorted input).
    let pts = daily_cumulative(&[100, 0, 2 * 86_400]);
    assert_eq!(
        pts,
        vec![
            StarPoint { ts: 0, count: 2 },
            StarPoint {
                ts: 2 * 86_400,
                count: 3
            },
        ]
    );
}

#[test]
fn subsample_keeps_bounds_within_limit() {
    let pts: Vec<StarPoint> = (0..500)
        .map(|i| StarPoint {
            ts: i * 86_400,
            count: i as u64 + 1,
        })
        .collect();
    let out = subsample(pts.clone(), 200);
    assert!(out.len() <= 200, "{}", out.len());
    assert_eq!(out.first(), pts.first());
    assert_eq!(out.last(), pts.last());
    // Untouched when already small.
    let small = subsample(pts[..10].to_vec(), 200);
    assert_eq!(small.len(), 10);
}

#[test]
fn daily_cumulative_empty_and_negative() {
    assert!(daily_cumulative(&[]).is_empty());
    // Buckets are UTC days: -1 is 1969-12-31 (label -86_400), 1 is day 0,
    // -86_401 is 1969-12-30.
    assert_eq!(daily_cumulative(&[-1]), vec![StarPoint { ts: -86_400, count: 1 }]);
    let pts = daily_cumulative(&[-1, 1, -86_400, -86_401]);
    assert_eq!(
        pts,
        vec![
            StarPoint { ts: -172_800, count: 1 },
            StarPoint { ts: -86_400, count: 3 },
            StarPoint { ts: 0, count: 4 },
        ]
    );
}

#[test]
fn daily_cumulative_is_strictly_increasing_and_ends_at_total() {
    let stamps: Vec<i64> = (0..1000).map(|i| 1_700_000_000 + (i * 7919 % 400) * 3_600).collect();
    let pts = daily_cumulative(&stamps);
    for w in pts.windows(2) {
        assert!(w[0].ts < w[1].ts && w[0].count < w[1].count);
    }
    assert_eq!(pts.last().unwrap().count, 1000);
    let latest = stamps.iter().max().unwrap();
    assert_eq!(pts.last().unwrap().ts, latest / 86_400 * 86_400);
}

#[test]
fn subsample_exact_stride_and_limits() {
    let pts: Vec<StarPoint> = (0..10).map(|i| StarPoint { ts: i, count: i as u64 + 1 }).collect();
    // len 10, max 4 → stride ceil(9 / 3) = 3: indices 0, 3, 6, 9 (the last is hit).
    let out = subsample(pts.clone(), 4);
    let ts: Vec<i64> = out.iter().map(|p| p.ts).collect();
    assert_eq!(ts, vec![0, 3, 6, 9]);
    // max < 2 leaves the series alone.
    assert_eq!(subsample(pts.clone(), 1).len(), 10);
    // Four points down to two: just the ends.
    let four: Vec<StarPoint> = (0..4)
        .map(|i| StarPoint { ts: i * 86_400, count: i as u64 + 1 })
        .collect();
    assert_eq!(subsample(four.clone(), 2), vec![four[0], four[3]]);
    // 400 points, max 200 → stride ceil(399 / 199) = 3; 399 is hit: 134 points.
    let many: Vec<StarPoint> = (0..400).map(|i| StarPoint { ts: i, count: i as u64 + 1 }).collect();
    let out = subsample(many.clone(), 200);
    assert_eq!(out.len(), 134);
    assert_eq!(out.last(), many.last());
    // 401 points, max 200 → stride ceil(400 / 199) = 3; 400 is missed and appended.
    let more: Vec<StarPoint> = (0..401).map(|i| StarPoint { ts: i, count: i as u64 + 1 }).collect();
    let out = subsample(more.clone(), 200);
    assert_eq!(out.len(), 135);
    assert_eq!(out.last(), more.last());
    for n in 3..700usize {
        for m in [2usize, 3, 7, 200] {
            let v: Vec<StarPoint> = (0..n as i64).map(|i| StarPoint { ts: i, count: i as u64 + 1 }).collect();
            let out = subsample(v.clone(), m);
            assert!(out.len() <= m, "{n} {m} {}", out.len());
            assert_eq!(out.first(), v.first());
            assert_eq!(out.last(), v.last());
        }
    }
}

#[test]
fn parse_ts_reads_rfc3339() {
    assert_eq!(parse_ts("2023-11-14T22:13:20Z").unwrap(), 1_700_000_000);
    assert_eq!(parse_ts("1970-01-01T01:00:00+01:00").unwrap(), 0);
    match parse_ts("yesterday") {
        Err(ScopeError::Api(m)) => assert!(m.starts_with("bad starredAt \"yesterday\": "), "{m}"),
        other => panic!("{other:?}"),
    }
}

#[test]
fn builder_walks_pages_and_finishes() {
    let mut b = StarSeriesBuilder::new();
    let o = b
        .absorb_page(page(3, &["2023-11-14T22:13:20Z", "2023-11-14T23:00:00Z"], Some("c1"), true))
        .unwrap();
    assert!(!o.report_progress);
    assert_eq!(o.next, Ok(Some("c1".to_string())));
    let o = b.absorb_page(page(3, &["2023-11-16T01:00:00Z"], None, false)).unwrap();
    assert_eq!(o.next, Ok(None));
    assert_eq!(b.pages, 2);
    assert_eq!(b.timestamps.len(), 3);
    assert_eq!(
        b.progress_line(Some(12)),
        "reposcope: fetched 3/3 stars, rate remaining 12"
    );
    assert_eq!(b.progress_line(None), "reposcope: fetched 3/3 stars");
    let series = b.finish();
    assert_eq!(
        series,
        vec![
            StarPoint { ts: 19_675 * 86_400, count: 2 },
            StarPoint { ts: 19_677 * 86_400, count: 3 },
        ]
    );
}

#[test]
fn builder_reports_missing_cursor_and_bad_timestamp() {
    let mut b = StarSeriesBuilder::new();
    let o = b.absorb_page(page(1, &["2023-11-14T22:13:20Z"], None, true)).unwrap();
    assert_eq!(
        o.next,
        Err(ScopeError::Api("stargazers page missing endCursor".to_string()))
    );
    let mut b = StarSeriesBuilder::new();
    assert!(matches!(
        b.absorb_page(page(1, &["nope"], None, false)),
        Err(ScopeError::Api(_))
    ));
}

#[test]
fn builder_progress_every_fifty_pages_and_empty_repo() {
    let mut b = StarSeriesBuilder::new();
    for i in 1..=50u32 {
        let o = b.absorb_page(page(0, &[], Some("c"), true)).unwrap();
        assert_eq!(o.report_progress, i == 50);
    }
    assert!(b.finish().is_empty());
}

#[test]
fn daily_cumulative_ignores_order() {
    let stamps: Vec<i64> = (0..300).map(|i| 1_700_000_000 + (i * 7919 % 97) * 20_000 - 3_000_000_000).collect();
    let mut rev = stamps.clone();
    rev.reverse();
    let mut sorted = stamps.clone();
    sorted.sort();
    let a = daily_cumulative(&stamps);
    assert_eq!(a, daily_cumulative(&rev));
    assert_eq!(a, daily_cumulative(&sorted));
    // Negative stamps go to the day that holds them.
    for p in &a {
        assert_eq!(p.ts.rem_euclid(86_400), 0);
    }
    assert_eq!(a[0].ts, sorted[0].div_euclid(86_400) * 86_400);
}
