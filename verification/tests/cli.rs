use std::path::PathBuf;

use reposcope::cli::{chart_outputs, dark_sibling, resolve_repo, resolve_token, snippet, validate_svg, ThemeArg};
use reposcope::ScopeError;

#[test]
fn dark_sibling_path() {
    assert_eq!(
        PathBuf::from(dark_sibling("a/b/star-history.svg")),
        PathBuf::from("a/b/star-history-dark.svg")
    );
    assert_eq!(
        PathBuf::from(dark_sibling("x.svg")),
        PathBuf::from("x-dark.svg")
    );
}

#[test]
fn snippet_variants() {
    let s = snippet("assets/reposcope", true, None, None).unwrap();
    assert!(
        s.contains("<picture>")
            && s.contains("star-history-dark.svg")
            && s.contains("contributors.svg")
    );
    let plain = snippet("assets/reposcope/", false, None, None).unwrap();
    assert!(
        !plain.contains("<picture>")
            && plain.contains("![Star History](assets/reposcope/star-history.svg)")
    );
}

#[test]
fn snippet_branch_mode() {
    let s = snippet(
        "assets/reposcope",
        true,
        Some("owner/repo"),
        Some("reposcope"),
    )
    .unwrap();
    assert!(s.contains("https://raw.githubusercontent.com/owner/repo/reposcope/assets/reposcope/star-history.svg"));
    // --branch without --repo is a usage error.
    assert!(snippet("assets/reposcope", false, None, Some("reposcope")).is_err());
    assert!(snippet("assets/reposcope", false, Some("bad"), Some("reposcope")).is_err());
}

#[test]
fn repo_validation() {
    assert!(resolve_repo(&Some("owner/name".into())).is_ok());
    assert!(resolve_repo(&Some("a.b-c_d/e".into())).is_ok());
    assert!(resolve_repo(&Some("name".into())).is_err());
    assert!(resolve_repo(&Some("a/b/c".into())).is_err());
    assert!(resolve_repo(&Some("/name".into())).is_err());
    assert!(resolve_repo(&Some("owner/".into())).is_err());
    assert!(resolve_repo(&Some("owner/na me".into())).is_err());
}

#[test]
fn repo_errors_carry_messages() {
    assert_eq!(
        resolve_repo(&None),
        Err(ScopeError::Usage(
            "repo required: pass --repo owner/name or set GITHUB_REPOSITORY".into()
        ))
    );
    assert_eq!(
        resolve_repo(&Some("a/b/c".into())),
        Err(ScopeError::Usage("invalid repo \"a/b/c\": expected owner/name".into()))
    );
    assert_eq!(resolve_repo(&Some("o/n".into())), Ok("o/n".to_string()));
}

#[test]
fn snippet_exact_text() {
    assert_eq!(
        snippet("out//", false, None, None).unwrap(),
        "![Star History](out/star-history.svg)\n\n![Contributors](out/contributors.svg)\n"
    );
    assert_eq!(
        snippet("d", true, Some("o/r"), Some("/pub/")).unwrap(),
        [
            "<picture>\n  <source media=\"(prefers-color-scheme: dark)\" srcset=\"https://raw.githubusercontent.com/o/r/pub/d/star-history-dark.svg\">\n",
            "  <img alt=\"Star History\" src=\"https://raw.githubusercontent.com/o/r/pub/d/star-history.svg\">\n</picture>",
            "\n<img alt=\"Contributors\" src=\"https://raw.githubusercontent.com/o/r/pub/d/contributors.svg\">\n",
        ]
        .concat()
    );
    assert_eq!(
        snippet("d", false, None, Some("b")),
        Err(ScopeError::Usage("--branch requires --repo owner/name".into()))
    );
}

#[test]
fn snippet_picture_lines() {
    let s = snippet("assets/reposcope", true, None, None).unwrap();
    let lines: Vec<&str> = s.lines().collect();
    assert_eq!(
        lines,
        vec![
            "<picture>",
            "  <source media=\"(prefers-color-scheme: dark)\" srcset=\"assets/reposcope/star-history-dark.svg\">",
            "  <img alt=\"Star History\" src=\"assets/reposcope/star-history.svg\">",
            "</picture>",
            "<img alt=\"Contributors\" src=\"assets/reposcope/contributors.svg\">",
        ]
    );
}

#[test]
fn token_resolution_order() {
    let t = |s: &str| Some(s.to_string());
    assert_eq!(resolve_token(&t("flag"), t("env1"), t("env2")).unwrap(), "flag");
    assert_eq!(resolve_token(&None, t("env1"), t("env2")).unwrap(), "env1");
    assert_eq!(resolve_token(&None, None, t("env2")).unwrap(), "env2");
    // An empty flag does not fall through to the environment.
    assert!(resolve_token(&t(""), t("env1"), None).is_err());
    assert_eq!(
        resolve_token(&None, None, None),
        Err(ScopeError::Usage(
            "token required: pass --token or set GITHUB_TOKEN / GH_TOKEN".into()
        ))
    );
}

#[test]
fn chart_outputs_per_theme() {
    let both = chart_outputs("a/star.svg", ThemeArg::Both);
    assert_eq!(both.len(), 2);
    assert_eq!(both[0].0, "a/star.svg");
    assert_eq!(both[0].1.bg, "#ffffff");
    assert_eq!(PathBuf::from(&both[1].0), PathBuf::from("a/star-dark.svg"));
    assert_eq!(both[1].1.bg, "#0d1117");
    let dark = chart_outputs("s.svg", ThemeArg::Dark);
    assert_eq!(dark.len(), 1);
    assert_eq!(dark[0].1.line, "#60a5fa");
}

#[test]
fn svg_validation() {
    assert!(validate_svg("<svg/>").is_ok());
    match validate_svg("<svg>") {
        Err(ScopeError::Render(m)) => {
            assert!(m.starts_with("generated SVG failed XML validation: "), "{m}")
        }
        other => panic!("{other:?}"),
    }
}

#[test]
fn error_messages() {
    assert_eq!(ScopeError::Usage("u".into()).message(), "u");
    assert_eq!(ScopeError::Api("a".into()).message(), "github api: a");
    assert_eq!(ScopeError::Render("r".into()).message(), "render: r");
}
