//! Repository insight visuals (star history, contributors wall) rendered as
//! self-contained, deterministic SVG text, plus the decisions that drive the
//! GitHub fetches behind them.

pub mod cli;
pub mod contributors;
pub mod github;
pub mod star_history;
pub mod svg;
pub mod text;
pub mod timefmt;

use vstd::prelude::*;

verus! {

/// Top-level error type. Each variant maps to a process exit code.
#[derive(Debug, Clone, PartialEq, Eq)]
pub enum ScopeError {
    /// Usage / configuration problems (bad flags, missing repo, invalid output).
    Usage(String),
    /// GitHub API failures after retries.
    Api(String),
    /// Rendering / output-validation failures.
    Render(String),
}

/// The text an error prints: the detail, prefixed by its category.
pub open spec fn error_text(e: ScopeError) -> Seq<char> {
    match e {
        ScopeError::Usage(m) => m@,
        ScopeError::Api(m) => "github api: "@ + m@,
        ScopeError::Render(m) => "render: "@ + m@,
    }
}

/// A usage error whose detail reads `m`.
pub open spec fn is_usage(e: ScopeError, m: Seq<char>) -> bool {
    e matches ScopeError::Usage(d) && d@ == m
}

/// An API error whose detail reads `m`.
pub open spec fn is_api(e: ScopeError, m: Seq<char>) -> bool {
    e matches ScopeError::Api(d) && d@ == m
}

/// A render error whose detail reads `m`.
pub open spec fn is_render(e: ScopeError, m: Seq<char>) -> bool {
    e matches ScopeError::Render(d) && d@ == m
}

impl ScopeError {
    /// The printed form of the error (`Usage` bare, `Api` and `Render` prefixed).
    pub fn message(&self) -> (r: String)
        ensures
            r@ == error_text(*self),
    {
        match self {
            ScopeError::Usage(m) => m.clone(),
            ScopeError::Api(m) => {
                let mut s = String::from_str("github api: ");
                s.append(m.as_str());
                s
            },
            ScopeError::Render(m) => {
                let mut s = String::from_str("render: ");
                s.append(m.as_str());
                s
            },
        }
    }
}

} // verus!
