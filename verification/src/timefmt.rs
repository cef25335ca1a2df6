//! The two calendar computations the library needs, both done by `chrono`:
//! reading an RFC 3339 timestamp and printing a UTC date.

use vstd::prelude::*;

verus! {

/// What `chrono::DateTime::parse_from_rfc3339` makes of `s`: the unix seconds
/// of the instant on success, or the text of the parse error.
pub uninterp spec fn rfc3339_parse(s: Seq<char>) -> Result<i64, Seq<char>>;

/// `chrono::DateTime::parse_from_rfc3339(s)`, then `timestamp()` on success and
/// the error's `Display` text on failure. The outcome is named by
/// [`rfc3339_parse`]; which strings parse is left to chrono.
#[verifier::external_body]
pub(crate) fn parse_rfc3339(s: &str) -> (r: Result<i64, String>)
    ensures
        match r {
            Ok(t) => rfc3339_parse(s@) == Ok::<i64, Seq<char>>(t),
            Err(e) => rfc3339_parse(s@) == Err::<i64, Seq<char>>(e@),
        },
{
    chrono::DateTime::parse_from_rfc3339(s).map(|dt| dt.timestamp()).map_err(|e| e.to_string())
}

/// What `chrono` prints for the UTC instant `t` (unix seconds) under the
/// strftime pattern `fmt`; empty when `t` is outside chrono's range.
pub uninterp spec fn utc_format(t: i64, fmt: Seq<char>) -> Seq<char>;

/// The date patterns the tick labels use: month and day, month and year, year.
/// Each holds only specifiers that chrono knows, so printing cannot fail.
pub open spec fn is_label_pattern(fmt: Seq<char>) -> bool {
    fmt == "%b %d"@ || fmt == "%b %Y"@ || fmt == "%Y"@
}

/// `chrono::DateTime::from_timestamp(t, 0)`, formatted with `fmt` and printed;
/// an empty string when chrono has no date for `t`. Named by [`utc_format`].
/// `fmt` is one of the label patterns: chrono's printing fails (and
/// `to_string` panics) on a pattern with an unknown or dangling specifier.
#[verifier::external_body]
pub(crate) fn format_utc(t: i64, fmt: &str) -> (r: String)
    requires
        is_label_pattern(fmt@),
    ensures
        r@ == utc_format(t, fmt@),
{
    chrono::DateTime::from_timestamp(t, 0).map(|dt| dt.format(fmt).to_string()).unwrap_or_default()
}

} // verus!
