//! The command-line surface as plain data, and the pure parts of its commands:
//! repository and token resolution, the README snippet, output naming and the
//! check of generated SVG before it is written.

use vstd::prelude::*;

use crate::svg::Theme;
use crate::text::{
    chars_of, debug_quoted, debug_str, is_ascii_alnum, push_str, trim_end_char,
    trim_end_matches_char, trim_matches_char, trim_start_char,
};
use crate::{is_render, is_usage, ScopeError};

verus! {

/// Color theme choice for the star-history chart.
#[derive(Debug, Clone, Copy, PartialEq, Eq, Structural)]
pub enum ThemeArg {
    Light,
    Dark,
    /// One fetch, two renders: `<out>` (light) + `<stem>-dark.svg`.
    Both,
}

/// A parsed command line.
#[derive(Debug)]
pub struct Cli {
    pub command: Command,
}

/// The subcommands and their options.
#[derive(Debug)]
pub enum Command {
    /// Generate a star-history chart SVG for a repository.
    StarHistory { repo: Option<String>, out: String, theme: ThemeArg, token: Option<String> },
    /// Generate a contributors avatar-wall SVG for a repository.
    Contributors {
        repo: Option<String>,
        out: String,
        max: usize,
        cols: u32,
        avatar_size: u32,
        include_bots: bool,
        token: Option<String>,
    },
    /// Print the README snippet referencing the generated SVGs.
    Snippet { output_dir: String, dark: bool, repo: Option<String>, branch: Option<String> },
}

/// Characters allowed in an owner or repository name.
pub open spec fn repo_char(c: char) -> bool {
    is_ascii_alnum(c) || c == '.' || c == '_' || c == '-'
}

/// `owner/name`: exactly one `/`, with a non-empty owner and name made of
/// ASCII letters, digits, `.`, `_` and `-`.
pub open spec fn valid_repo(s: Seq<char>) -> bool {
    exists|p: int|
        0 < p < s.len() - 1 && s[p] == '/' && forall|i: int|
            0 <= i < s.len() && i != p ==> #[trigger] repo_char(s[i])
}

/// Law: `owner/name` is a valid repository exactly when owner and name are
/// non-empty and made only of ASCII letters (either case), digits, `.`, `_`
/// and `-`; `resolve_repo` hands such a string back unchanged.
pub proof fn lemma_valid_repo_parts(owner: Seq<char>, name: Seq<char>)
    ensures
        valid_repo(owner + seq!['/'] + name) <==> {
            &&& owner.len() > 0
            &&& name.len() > 0
            &&& forall|i: int|
                0 <= i < owner.len() ==> ('a' <= #[trigger] owner[i] <= 'z' || 'A' <= owner[i] <= 'Z'
                    || '0' <= owner[i] <= '9' || owner[i] == '.' || owner[i] == '_' || owner[i] == '-')
            &&& forall|i: int|
                0 <= i < name.len() ==> ('a' <= #[trigger] name[i] <= 'z' || 'A' <= name[i] <= 'Z'
                    || '0' <= name[i] <= '9' || name[i] == '.' || name[i] == '_' || name[i] == '-')
        },
{
    let s = owner + seq!['/'] + name;
    let p = owner.len() as int;
    assert(s[p] == '/');
    assert forall|i: int| 0 <= i < owner.len() implies s[i] == owner[i] by {}
    assert forall|i: int| 0 <= i < name.len() implies s[p + 1 + i] == name[i] by {}
    if valid_repo(s) {
        let q = choose|q: int|
            0 < q < s.len() - 1 && s[q] == '/' && forall|i: int|
                0 <= i < s.len() && i != q ==> #[trigger] repo_char(s[i]);
        if q != p {
            assert(repo_char(s[p]));
        }
        assert forall|i: int| 0 <= i < owner.len() implies ('a' <= #[trigger] owner[i] <= 'z' || 'A'
            <= owner[i] <= 'Z' || '0' <= owner[i] <= '9' || owner[i] == '.' || owner[i] == '_'
            || owner[i] == '-') by {
            assert(repo_char(s[i]));
        }
        assert forall|i: int| 0 <= i < name.len() implies ('a' <= #[trigger] name[i] <= 'z' || 'A'
            <= name[i] <= 'Z' || '0' <= name[i] <= '9' || name[i] == '.' || name[i] == '_'
            || name[i] == '-') by {
            assert(repo_char(s[p + 1 + i]));
        }
    }
    if owner.len() > 0 && name.len() > 0 && (forall|i: int|
        0 <= i < owner.len() ==> ('a' <= #[trigger] owner[i] <= 'z' || 'A' <= owner[i] <= 'Z'
            || '0' <= owner[i] <= '9' || owner[i] == '.' || owner[i] == '_' || owner[i] == '-'))
        && (forall|i: int|
        0 <= i < name.len() ==> ('a' <= #[trigger] name[i] <= 'z' || 'A' <= name[i] <= 'Z'
            || '0' <= name[i] <= '9' || name[i] == '.' || name[i] == '_' || name[i] == '-')) {
        assert forall|i: int| 0 <= i < s.len() && i != p implies #[trigger] repo_char(s[i]) by {
            if i < p {
                assert(s[i] == owner[i]);
            } else {
                assert(s[i] == name[i - p - 1]);
            }
        }
    }
}

/// The usage error for a missing repository.
pub open spec fn repo_missing_msg() -> Seq<char> {
    "repo required: pass --repo owner/name or set GITHUB_REPOSITORY"@
}

/// The usage error for a malformed repository.
pub open spec fn repo_invalid_msg(s: Seq<char>) -> Seq<char> {
    "invalid repo "@ + debug_quoted(s) + ": expected owner/name"@
}

/// Whether `s` is a valid `owner/name`.
pub fn is_valid_repo(s: &str) -> (b: bool)
    ensures
        b == valid_repo(s@),
{
    let cs = chars_of(s);
    let n = cs.len();
    let mut slash: usize = 0;
    let mut slashes: usize = 0;
    let mut i: usize = 0;
    let mut ok = true;
    while i < n
        invariant
            n == cs@.len(),
            cs@ == s@,
            i <= n,
            slashes <= i,
            slashes == 0 ==> forall|j: int| 0 <= j < i ==> cs@[j] != '/',
            slashes >= 1 ==> slash < i && cs@[slash as int] == '/' && forall|j: int|
                0 <= j < slash ==> cs@[j] != '/',
            slashes == 1 ==> forall|j: int| 0 <= j < i && j != slash ==> cs@[j] != '/',
            slashes >= 2 ==> exists|j: int| 0 <= j < i && j != slash && cs@[j] == '/',
            ok == forall|j: int| 0 <= j < i && cs@[j] != '/' ==> #[trigger] repo_char(cs@[j]),
        decreases n - i,
    {
        let c = cs[i];
        let ghost old_ok = ok;
        if c == '/' {
            if slashes == 0 {
                slash = i;
            }
            slashes += 1;
        } else if !(('0' <= c && c <= '9') || ('a' <= c && c <= 'z') || ('A' <= c && c <= 'Z')
            || c == '.' || c == '_' || c == '-') {
            ok = false;
            assert(!repo_char(cs@[i as int]));
        } else {
            assert(repo_char(cs@[i as int]));
        }
        assert(ok == forall|j: int| 0 <= j < i + 1 && cs@[j] != '/' ==> #[trigger] repo_char(cs@[j])) by {
            if ok {
                assert(old_ok);
            } else if old_ok {
                assert(!repo_char(cs@[i as int]) && cs@[i as int] != '/');
            } else {
                let j = choose|j: int| 0 <= j < i && cs@[j] != '/' && !repo_char(cs@[j]);
                assert(0 <= j < i + 1 && cs@[j] != '/' && !repo_char(cs@[j]));
            }
        }
        i += 1;
    }
    let b = ok && slashes == 1 && 0 < slash && slash + 1 < n;
    proof {
        if b {
            assert forall|j: int| 0 <= j < cs@.len() && j != slash implies #[trigger] repo_char(
                cs@[j],
            ) by {
                assert(cs@[j] != '/');
            }
            assert(valid_repo(s@));
        }
        if valid_repo(s@) {
            let p = choose|p: int|
                0 < p < s@.len() - 1 && s@[p] == '/' && forall|i: int|
                    0 <= i < s@.len() && i != p ==> #[trigger] repo_char(s@[i]);
            assert(!repo_char('/'));
            assert forall|j: int| 0 <= j < n && cs@[j] != '/' implies #[trigger] repo_char(
                cs@[j],
            ) by {
                if j == p {
                } else {
                }
            }
            if slashes == 0 {
                assert(cs@[p] != '/');
            }
            if slashes >= 2 {
                let j = choose|j: int| 0 <= j < n && j != slash && cs@[j] == '/';
                if j != p {
                    assert(repo_char(cs@[j]));
                }
                if slash as int != p {
                    assert(repo_char(cs@[slash as int]));
                }
            }
            if slashes == 1 && slash as int != p {
                assert(repo_char(cs@[slash as int]));
            }
        }
    }
    b
}

/// Check that a repository was given and has the form `owner/name`.
pub fn resolve_repo(repo: &Option<String>) -> (r: Result<String, ScopeError>)
    ensures
        match repo {
            None => r matches Err(e) && is_usage(e, repo_missing_msg()),
            Some(s) => if valid_repo(s@) {
                r matches Ok(v) && v@ == s@
            } else {
                r matches Err(e) && is_usage(e, repo_invalid_msg(s@))
            },
        },
{
    match repo {
        None => Err(
            ScopeError::Usage(
                String::from_str("repo required: pass --repo owner/name or set GITHUB_REPOSITORY"),
            ),
        ),
        Some(s) => {
            if is_valid_repo(s.as_str()) {
                Ok(s.clone())
            } else {
                let mut m = String::from_str("invalid repo ");
                m.append(debug_str(s.as_str()).as_str());
                m.append(": expected owner/name");
                Err(ScopeError::Usage(m))
            }
        },
    }
}

/// The token to use: the flag, else `GITHUB_TOKEN`, else `GH_TOKEN` (the
/// first one present), and only if it is not empty.
pub open spec fn chosen_token(
    flag: Option<String>,
    github_token: Option<String>,
    gh_token: Option<String>,
) -> Option<String> {
    let first = if flag is Some {
        flag
    } else if github_token is Some {
        github_token
    } else {
        gh_token
    };
    match first {
        Some(t) => if t@.len() > 0 {
            Some(t)
        } else {
            None
        },
        None => None,
    }
}

/// Token resolution order: flag > `GITHUB_TOKEN` > `GH_TOKEN`, the first one
/// present deciding; an empty token counts as none. A token is required.
pub fn resolve_token(
    token: &Option<String>,
    github_token: Option<String>,
    gh_token: Option<String>,
) -> (r: Result<String, ScopeError>)
    ensures
        match chosen_token(*token, github_token, gh_token) {
            Some(t) => r matches Ok(v) && v@ == t@,
            None => r matches Err(e) && is_usage(
                e,
                "token required: pass --token or set GITHUB_TOKEN / GH_TOKEN"@,
            ),
        },
{
    let first = match token {
        Some(t) => Some(t.clone()),
        None => match github_token {
            Some(t) => Some(t),
            None => gh_token,
        },
    };
    match first {
        Some(t) => {
            if !t.as_str().is_empty() {
                Ok(t)
            } else {
                Err(
                    ScopeError::Usage(
                        String::from_str(
                            "token required: pass --token or set GITHUB_TOKEN / GH_TOKEN",
                        ),
                    ),
                )
            }
        },
        None => Err(
            ScopeError::Usage(
                String::from_str("token required: pass --token or set GITHUB_TOKEN / GH_TOKEN"),
            ),
        ),
    }
}

/// The README markup for a base location of the generated files. With `dark`,
/// HTML: the star chart as a `<picture>` with its dark variant, and the wall as
/// an `<img>` on the next line; otherwise Markdown images, a blank line apart.
pub open spec fn snippet_text(base: Seq<char>, dark: bool) -> Seq<char> {
    if dark {
        "<picture>\n  <source media=\"(prefers-color-scheme: dark)\" srcset=\""@ + base
            + "/star-history-dark.svg\">\n  <img alt=\"Star History\" src=\""@ + base
            + "/star-history.svg\">\n</picture>\n<img alt=\"Contributors\" src=\""@ + base
            + "/contributors.svg\">\n"@
    } else {
        "![Star History]("@ + base + "/star-history.svg)\n\n![Contributors]("@ + base
            + "/contributors.svg)\n"@
    }
}

/// The raw-content URL prefix for files of `dir` on `branch` of `repo`.
pub open spec fn branch_base(repo: Seq<char>, branch: Seq<char>, dir: Seq<char>) -> Seq<char> {
    "https://raw.githubusercontent.com/"@ + repo + "/"@ + trim_start_char(
        trim_end_char(branch, '/'),
        '/',
    ) + "/"@ + dir
}

/// The paste-once README snippet. Paths are relative to the README, or, with a
/// publish `branch`, absolute raw URLs on that branch of `repo`.
pub fn snippet(output_dir: &str, dark: bool, repo: Option<&str>, branch: Option<&str>) -> (r: Result<
    String,
    ScopeError,
>)
    ensures
        match branch {
            None => r matches Ok(v) && v@ == snippet_text(trim_end_char(output_dir@, '/'), dark),
            Some(b) => match repo {
                None => r matches Err(e) && is_usage(e, "--branch requires --repo owner/name"@),
                Some(rp) => if valid_repo(rp@) {
                    r matches Ok(v) && v@ == snippet_text(
                        branch_base(rp@, b@, trim_end_char(output_dir@, '/')),
                        dark,
                    )
                } else {
                    r matches Err(e) && is_usage(e, repo_invalid_msg(rp@))
                },
            },
        },
{
    let dir = trim_end_matches_char(output_dir, '/');
    let base = match branch {
        Some(b) => {
            let rp = match repo {
                Some(rp) => rp,
                None => {
                    return Err(
                        ScopeError::Usage(String::from_str("--branch requires --repo owner/name")),
                    );
                },
            };
            let checked = resolve_repo(&Some(String::from_str(rp)));
            match checked {
                Err(e) => {
                    return Err(e);
                },
                Ok(_) => {},
            }
            let mut u = String::from_str("https://raw.githubusercontent.com/");
            u.append(rp);
            u.append("/");
            u.append(trim_matches_char(b, '/').as_str());
            u.append("/");
            u.append(dir.as_str());
            u
        },
        None => dir,
    };
    let mut s = String::new();
    if dark {
        push_str(
            &mut s,
            "<picture>\n  <source media=\"(prefers-color-scheme: dark)\" srcset=\"",
        );
        push_str(&mut s, base.as_str());
        push_str(&mut s, "/star-history-dark.svg\">\n  <img alt=\"Star History\" src=\"");
        push_str(&mut s, base.as_str());
        push_str(&mut s, "/star-history.svg\">\n</picture>\n<img alt=\"Contributors\" src=\"");
        push_str(&mut s, base.as_str());
        push_str(&mut s, "/contributors.svg\">\n");
    } else {
        push_str(&mut s, "![Star History](");
        push_str(&mut s, base.as_str());
        push_str(&mut s, "/star-history.svg)\n\n![Contributors](");
        push_str(&mut s, base.as_str());
        push_str(&mut s, "/contributors.svg)\n");
    }
    Ok(s)
}

/// The file stem `std::path::Path::file_stem` finds in `p`, read as text
/// (empty when the path has no file name).
pub uninterp spec fn path_file_stem(p: Seq<char>) -> Seq<char>;

/// `std::path::Path::new(p).file_stem()`, converted lossily to text, empty when
/// absent. Named by [`path_file_stem`]; path parsing is std's.
#[verifier::external_body]
fn file_stem_text(p: &str) -> (r: String)
    ensures
        r@ == path_file_stem(p@),
{
    std::path::Path::new(p).file_stem().map(|s| s.to_string_lossy().into_owned()).unwrap_or_default()
}

/// The path `std::path::Path::with_file_name` makes from `p` and `name`, as text.
pub uninterp spec fn path_with_file_name(p: Seq<char>, name: Seq<char>) -> Seq<char>;

/// `std::path::Path::new(p).with_file_name(name)`, as text. Named by
/// [`path_with_file_name`]; the replacement rule is std's.
#[verifier::external_body]
fn with_file_name_text(p: &str, name: &str) -> (r: String)
    ensures
        r@ == path_with_file_name(p@, name@),
{
    std::path::Path::new(p).with_file_name(name).to_string_lossy().into_owned()
}

/// `foo.svg` → `foo-dark.svg`: the sibling path holding the dark chart.
pub fn dark_sibling(out: &str) -> (r: String)
    ensures
        r@ == path_with_file_name(out@, path_file_stem(out@) + "-dark.svg"@),
{
    let mut name = file_stem_text(out);
    name.append("-dark.svg");
    with_file_name_text(out, name.as_str())
}

/// The light palette.
pub open spec fn is_light(t: Theme) -> bool {
    t.bg@ == "#ffffff"@ && t.text@ == "#1f2328"@ && t.subtext@ == "#59636e"@ && t.grid@
        == "#e5e8eb"@ && t.axis@ == "#8c959f"@ && t.line@ == "#2563eb"@
}

/// The dark palette.
pub open spec fn is_dark(t: Theme) -> bool {
    t.bg@ == "#0d1117"@ && t.text@ == "#e6edf3"@ && t.subtext@ == "#9198a1"@ && t.grid@
        == "#21262d"@ && t.axis@ == "#3d444d"@ && t.line@ == "#60a5fa"@
}

/// The charts one star-history run writes: `out` in the chosen palette, or,
/// for both, `out` light and its dark sibling dark.
pub fn chart_outputs(out: &str, theme: ThemeArg) -> (r: Vec<(String, Theme)>)
    ensures
        theme != ThemeArg::Both ==> r@.len() == 1 && r@[0].0@ == out@ && (if theme
            == ThemeArg::Light {
            is_light(r@[0].1)
        } else {
            is_dark(r@[0].1)
        }),
        theme == ThemeArg::Both ==> r@.len() == 2 && r@[0].0@ == out@ && is_light(r@[0].1)
            && r@[1].0@ == path_with_file_name(out@, path_file_stem(out@) + "-dark.svg"@)
            && is_dark(r@[1].1),
{
    let mut r: Vec<(String, Theme)> = Vec::new();
    match theme {
        ThemeArg::Light => {
            r.push((String::from_str(out), Theme::light()));
        },
        ThemeArg::Dark => {
            r.push((String::from_str(out), Theme::dark()));
        },
        ThemeArg::Both => {
            r.push((String::from_str(out), Theme::light()));
            r.push((dark_sibling(out), Theme::dark()));
        },
    }
    r
}

/// What `roxmltree::Document::parse` reports for `s`: nothing when `s` is a
/// well-formed document, else the error's text.
pub uninterp spec fn xml_parse_error(s: Seq<char>) -> Option<Seq<char>>;

/// `roxmltree::Document::parse(s)`, reduced to its error's `Display` text.
/// Named by [`xml_parse_error`]; which documents are well-formed is roxmltree's.
#[verifier::external_body]
fn xml_error(s: &str) -> (r: Option<String>)
    ensures
        match r {
            None => xml_parse_error(s@) is None,
            Some(e) => xml_parse_error(s@) == Some(e@),
        },
{
    match roxmltree::Document::parse(s) {
        Ok(_) => None,
        Err(e) => Some(e.to_string()),
    }
}

/// Validate that generated SVG parses as XML before it is written.
pub fn validate_svg(content: &str) -> (r: Result<(), ScopeError>)
    ensures
        match xml_parse_error(content@) {
            None => r is Ok,
            Some(m) => r matches Err(e) && is_render(
                e,
                "generated SVG failed XML validation: "@ + m,
            ),
        },
{
    match xml_error(content) {
        None => Ok(()),
        Some(e) => {
            let mut m = String::from_str("generated SVG failed XML validation: ");
            m.append(e.as_str());
            Err(ScopeError::Render(m))
        },
    }
}

} // verus!
