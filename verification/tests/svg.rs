use reposcope::contributors::WallEntry;
use reposcope::svg::{
    escape_xml, render_contributor_wall, star_chart_head, star_chart_no_stars, x_ticks, Theme,
    WallOptions,
};

#[test]
fn xml_escaping() {
    assert_eq!(escape_xml("a<&>\"'"), "a&lt;&amp;&gt;&quot;&#39;");
}

#[test]
fn x_tick_labels_dedup() {
    // ~2.5 years span → yearly labels, no duplicates.
    let ticks = x_ticks(0, 900 * 86_400, 6);
    let labels: Vec<&str> = ticks.iter().map(|(_, l)| l.as_str()).collect();
    let mut dedup = labels.clone();
    dedup.dedup();
    assert_eq!(labels, dedup, "{labels:?}");
    assert!(!ticks.is_empty());
}

#[test]
fn x_ticks_short_span_uses_days() {
    // Two days: daily steps, "Mon DD" labels.
    let ticks = x_ticks(0, 2 * 86_400, 6);
    let labels: Vec<&str> = ticks.iter().map(|(_, l)| l.as_str()).collect();
    assert_eq!(labels, vec!["Jan 01", "Jan 02", "Jan 03"]);
    assert_eq!(ticks[1].0, 86_400);
}

#[test]
fn empty_contributors_wall() {
    let opts = WallOptions {
        cols: 12,
        avatar_size: 64,
    };
    let svg_text = render_contributor_wall(&[], &opts);
    assert!(svg_text.contains("No contributors"));
    roxmltree::Document::parse(&svg_text).unwrap();
}

#[test]
fn contributor_wall_golden() {
    let entries = vec![
        WallEntry {
            login: "alice".into(),
            contributions: 42,
            avatar: Some("data:image/png;base64,ZmFrZS1wbmc=".into()),
        },
        WallEntry {
            login: "bob".into(),
            contributions: 7,
            avatar: None,
        },
    ];
    let got = render_contributor_wall(
        &entries,
        &WallOptions {
            cols: 4,
            avatar_size: 48,
        },
    );
    let expected = [
        r#"<svg xmlns="http://www.w3.org/2000/svg" viewBox="0 0 248 80" width="248" height="80" style="max-width:100%;height:auto" role="img" aria-label="Contributors">"#,
        r#"<style>text{font-family:-apple-system,'Segoe UI',Roboto,Helvetica,Arial,sans-serif;}</style>"#,
        r#"<defs><clipPath id="c0"><circle cx="40" cy="40" r="24"/></clipPath><clipPath id="c1"><circle cx="96" cy="40" r="24"/></clipPath></defs>"#,
        r#"<g><image href="data:image/png;base64,ZmFrZS1wbmc=" x="16" y="16" width="48" height="48" preserveAspectRatio="xMidYMid slice" clip-path="url(#c0)"/><title>@alice (42 contributions)</title></g>"#,
        r##"<g><circle cx="96" cy="40" r="24" fill="#9ea7b3"/><text x="96" y="40" font-size="21" font-weight="bold" text-anchor="middle" dominant-baseline="central" fill="#ffffff">B</text><title>@bob (7 contributions)</title></g>"##,
        "</svg>",
    ]
    .concat();
    assert_eq!(got, expected);
    roxmltree::Document::parse(&got).unwrap();
}

#[test]
fn wall_grid_wraps_and_clamps_options() {
    let entries: Vec<WallEntry> = (0..5)
        .map(|i| WallEntry {
            login: format!("_-{i}x"),
            contributions: i,
            avatar: None,
        })
        .collect();
    // cols 0 → 1 column, size 2 → 8 px: 5 rows of 8px, 8px gaps.
    let s = render_contributor_wall(
        &entries,
        &WallOptions {
            cols: 0,
            avatar_size: 2,
        },
    );
    assert!(s.contains(r#"viewBox="0 0 40 104""#), "{s}");
    assert!(s.contains(r#"<clipPath id="c4"><circle cx="20" cy="84" r="4"/></clipPath>"#));
    // The first ASCII letter or digit is the placeholder letter: "_-0x" → "0".
    assert!(s.contains(">0</text>"));
    assert_eq!(render_contributor_wall(&entries, &WallOptions { cols: 0, avatar_size: 2 }), s);
    roxmltree::Document::parse(&s).unwrap();
}

#[test]
fn wall_escapes_titles_and_question_mark_placeholder() {
    let entries = vec![WallEntry {
        login: "<&>".into(),
        contributions: 1,
        avatar: None,
    }];
    let s = render_contributor_wall(&entries, &WallOptions { cols: 3, avatar_size: 64 });
    assert!(s.contains("<title>@&lt;&amp;&gt; (1 contributions)</title>"));
    assert!(s.contains(">?</text>"));
    roxmltree::Document::parse(&s).unwrap();
}

#[test]
fn themes_and_chart_frame() {
    let light = Theme::light();
    assert_eq!(light.bg, "#ffffff");
    assert_eq!(light.line, "#2563eb");
    let dark = Theme::dark();
    assert_eq!(dark.bg, "#0d1117");
    assert_eq!(dark.text, "#e6edf3");
    let mut empty = star_chart_head("o<&/r", &dark);
    empty.push_str(&star_chart_no_stars(&dark));
    assert!(empty.contains("No stars yet"));
    assert!(empty.contains("o&lt;&amp;/r"));
    assert!(empty.contains(r##"fill="#9198a1">No stars yet</text></svg>"##));
    assert!(empty.starts_with(r#"<svg xmlns="http://www.w3.org/2000/svg" viewBox="0 0 800 533""#));
    roxmltree::Document::parse(&empty).unwrap();
}

#[test]
fn x_ticks_first_tick_truncates_before_the_epoch() {
    // `(t0 + step - 1) / step * step` divides toward zero: from -100000 the
    // first tick is 0, not -86400.
    let ticks = x_ticks(-100_000, 86_400, 6);
    let ts: Vec<i64> = ticks.iter().map(|(t, _)| *t).collect();
    assert_eq!(ts, vec![0, 86_400]);
    let labels: Vec<&str> = ticks.iter().map(|(_, l)| l.as_str()).collect();
    assert_eq!(labels, vec!["Jan 01", "Jan 02"]);
    assert_eq!(x_ticks(-100_000, 0, 6).iter().map(|(t, _)| *t).collect::<Vec<i64>>(), vec![0]);
}
